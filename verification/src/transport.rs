//! What is sent to and read from an instrument: the bytes of writable values, and the end of an
//! answer that a terminator closes.
use vstd::prelude::*;

use crate::errors::InstrumentError;

verus! {

/// A call made through an interface, with what it returned.
pub enum InterfaceCall {
    /// A byte was asked for.
    ReadByte(Result<u8, InstrumentError>),
    /// The bytes were handed over to be written.
    WriteBytes(Seq<u8>, Result<(), InstrumentError>),
    /// What was written was flushed.
    Flush(Result<(), InstrumentError>),
}

/// An interface to an instrument, through which bytes are written and read.
///
/// An implementation that keeps records (`keeps_records`) logs each call made through it, with
/// what the call returned, in `calls`; the contracts of the functions that drive an interface
/// speak of that log. An implementation outside the verified library keeps no records, and the
/// defaults say so: of such an implementation nothing is claimed.
pub trait Interface {
    /// Whether the interface logs its calls.
    open spec fn keeps_records(&self) -> bool {
        false
    }

    /// The calls made through the interface so far, oldest first, each with its result.
    open spec fn calls(&self) -> Seq<InterfaceCall> {
        Seq::empty()
    }

    /// Read exactly one byte.
    fn read_byte(&mut self) -> (r: Result<u8, InstrumentError>)
        ensures
            final(self).keeps_records() == old(self).keeps_records(),
            old(self).keeps_records() ==> final(self).calls() == old(self).calls().push(
                InterfaceCall::ReadByte(r),
            ),
    ;

    /// Write all of `buf`.
    fn write_bytes(&mut self, buf: &[u8]) -> (r: Result<(), InstrumentError>)
        ensures
            final(self).keeps_records() == old(self).keeps_records(),
            old(self).keeps_records() ==> final(self).calls() == old(self).calls().push(
                InterfaceCall::WriteBytes(buf@, r),
            ),
    ;

    /// Flush what was written.
    fn flush(&mut self) -> (r: Result<(), InstrumentError>)
        ensures
            final(self).keeps_records() == old(self).keeps_records(),
            old(self).keeps_records() ==> final(self).calls() == old(self).calls().push(
                InterfaceCall::Flush(r),
            ),
    ;
}

/// The calls that writing `buf` and then `terminator`, and flushing, makes when the calls return
/// `r1`, `r2` and `r3` in turn: the first error ends the calls.
pub open spec fn write_all_calls(
    buf: Seq<u8>,
    terminator: Seq<u8>,
    r1: Result<(), InstrumentError>,
    r2: Result<(), InstrumentError>,
    r3: Result<(), InstrumentError>,
) -> Seq<InterfaceCall> {
    if r1 is Err {
        seq![InterfaceCall::WriteBytes(buf, r1)]
    } else if r2 is Err {
        seq![InterfaceCall::WriteBytes(buf, r1), InterfaceCall::WriteBytes(terminator, r2)]
    } else {
        seq![
            InterfaceCall::WriteBytes(buf, r1),
            InterfaceCall::WriteBytes(terminator, r2),
            InterfaceCall::Flush(r3),
        ]
    }
}

/// What writing `buf` and then `terminator`, and flushing, returns when the calls return `r1`,
/// `r2` and `r3` in turn: the first error, or success.
pub open spec fn write_all_result(
    r1: Result<(), InstrumentError>,
    r2: Result<(), InstrumentError>,
    r3: Result<(), InstrumentError>,
) -> Result<(), InstrumentError> {
    if r1 is Err {
        r1
    } else if r2 is Err {
        r2
    } else {
        r3
    }
}

/// Write `buf` and then `terminator` to the interface, and flush it.
///
/// Error: the first error of the interface, which ends the writing: no call is made after it.
pub fn write_all<I: Interface>(interface: &mut I, buf: &[u8], terminator: &[u8]) -> (r: Result<
    (),
    InstrumentError,
>)
    ensures
        final(interface).keeps_records() == old(interface).keeps_records(),
        old(interface).keeps_records() ==> exists|
            r1: Result<(), InstrumentError>,
            r2: Result<(), InstrumentError>,
            r3: Result<(), InstrumentError>,
        |
            final(interface).calls() == old(interface).calls() + write_all_calls(
                buf@,
                terminator@,
                r1,
                r2,
                r3,
            ) && r == write_all_result(r1, r2, r3),
{
    let ghost c0 = interface.calls();
    let r1 = interface.write_bytes(buf);
    if r1.is_err() {
        proof {
            if old(interface).keeps_records() {
                assert(interface.calls() == c0 + write_all_calls(buf@, terminator@, r1, r1, r1));
                assert(r1 == write_all_result(r1, r1, r1));
            }
        }
        return r1;
    }
    let r2 = interface.write_bytes(terminator);
    if r2.is_err() {
        proof {
            if old(interface).keeps_records() {
                assert(interface.calls() == c0 + write_all_calls(buf@, terminator@, r1, r2, r2));
                assert(r2 == write_all_result(r1, r2, r2));
            }
        }
        return r2;
    }
    let r3 = interface.flush();
    proof {
        if old(interface).keeps_records() {
            assert(interface.calls() == c0 + write_all_calls(buf@, terminator@, r1, r2, r3));
            assert(r3 == write_all_result(r1, r2, r3));
        }
    }
    r3
}

/// The calls that reading bytes one at a time made, given what came back: `Ok` with all
/// `num_bytes` bytes, each read by its own successful call; or the error of the last call, every
/// call before it successful.
pub open spec fn read_bytes_calls(
    made: Seq<InterfaceCall>,
    num_bytes: nat,
    r: Result<Vec<u8>, InstrumentError>,
) -> bool {
    match r {
        Ok(v) => made.len() == num_bytes && v@.len() == num_bytes && forall|i: int|
            0 <= i < num_bytes ==> made[i] == InterfaceCall::ReadByte(Ok(v@[i])),
        Err(e) => 1 <= made.len() <= num_bytes && made.last() == InterfaceCall::ReadByte(Err(e))
            && forall|i: int| 0 <= i < made.len() - 1 ==> (#[trigger] made[i]) matches InterfaceCall::ReadByte(Ok(_)),
    }
}

/// Read `num_bytes` bytes from the interface.
///
/// This helps with instruments that send a header holding the number of bytes that follow.
///
/// Error: the first error of the interface, which ends the reading. Reading no bytes reads
/// nothing from the interface and succeeds.
pub fn read_number_of_bytes<I: Interface>(interface: &mut I, num_bytes: usize) -> (r: Result<
    Vec<u8>,
    InstrumentError,
>)
    ensures
        num_bytes == 0 ==> (r matches Ok(v) && v@.len() == 0),
        r matches Ok(v) ==> v@.len() == num_bytes,
        final(interface).keeps_records() == old(interface).keeps_records(),
        old(interface).keeps_records() ==> final(interface).calls().len() >= old(
            interface,
        ).calls().len() && final(interface).calls().take(old(interface).calls().len() as int)
            == old(interface).calls() && read_bytes_calls(
            final(interface).calls().skip(old(interface).calls().len() as int),
            num_bytes as nat,
            r,
        ),
{
    let ghost c0 = interface.calls();
    let ghost k = old(interface).keeps_records();
    let mut ret: Vec<u8> = Vec::new();
    let mut i: usize = 0;
    while i < num_bytes
        invariant
            i <= num_bytes,
            ret@.len() == i,
            interface.keeps_records() == k,
            k == old(interface).keeps_records(),
            c0 == old(interface).calls(),
            k ==> interface.calls().len() == c0.len() + i && interface.calls().take(c0.len() as int)
                == c0 && forall|j: int|
                0 <= j < i ==> interface.calls()[c0.len() + j] == InterfaceCall::ReadByte(
                    Ok(ret@[j]),
                ),
        decreases num_bytes - i,
    {
        let ghost before = interface.calls();
        let rb = interface.read_byte();
        let ghost grb = rb;
        proof {
            if k {
                assert(interface.calls().take(c0.len() as int) =~= c0);
                assert forall|j: int| 0 <= j < i implies interface.calls()[c0.len() + j]
                    == InterfaceCall::ReadByte(Ok(ret@[j])) by {
                    assert(interface.calls()[c0.len() + j] == before[c0.len() + j]);
                }
            }
        }
        match rb {
            Ok(b) => {
                ret.push(b);
            },
            Err(e) => {
                proof {
                    if k {
                        let made = interface.calls().skip(c0.len() as int);
                        assert(made.len() == i + 1);
                        assert(made.last() == InterfaceCall::ReadByte(grb));
                        assert forall|j: int| 0 <= j < made.len() - 1 implies (#[trigger] made[j]) matches InterfaceCall::ReadByte(Ok(_)) by {
                            assert(made[j] == before[c0.len() + j]);
                            assert(before[c0.len() + j] == InterfaceCall::ReadByte(Ok(ret@[j])));
                        }
                    }
                }
                return Err(e);
            },
        }
        i += 1;
    }
    proof {
        if k {
            let made = interface.calls().skip(c0.len() as int);
            assert forall|j: int| 0 <= j < num_bytes implies made[j] == InterfaceCall::ReadByte(
                Ok(ret@[j]),
            ) by {
                assert(made[j] == interface.calls()[c0.len() + j]);
            }
        }
    }
    Ok(ret)
}

/// A value that can be written to an interface as bytes. Each implementation states which
/// bytes it gives.
pub trait Writable {
    /// The bytes of the value.
    fn to_byte_slice(&self) -> &[u8];
}

impl<'a> Writable for &'a str {
    /// The UTF-8 encoding of the text.
    fn to_byte_slice(&self) -> (r: &[u8])
        ensures
            r@ == vstd::utf8::encode_utf8((**self)@),
    {
        self.as_bytes()
    }
}

impl Writable for String {
    /// The UTF-8 encoding of the text.
    fn to_byte_slice(&self) -> (r: &[u8])
        ensures
            r@ == vstd::utf8::encode_utf8(self@),
    {
        let s: &str = self.as_str();
        s.as_bytes()
    }
}

impl Writable for Vec<u8> {
    /// The bytes themselves.
    fn to_byte_slice(&self) -> (r: &[u8])
        ensures
            r@ == self@,
    {
        self.as_slice()
    }
}

impl<'a> Writable for &'a [u8] {
    /// The bytes themselves.
    fn to_byte_slice(&self) -> (r: &[u8])
        ensures
            r@ == (**self)@,
    {
        *self
    }
}

/// How a driver sends commands to its instrument and queries it: each driver implements it.
///
/// `W` is the type of the commands, `WR` the type of what a query returns.
pub trait Transport<W: Writable, WR: Writable> {
    /// What names a channel of the instrument.
    type Channel;

    /// Send a command, for a channel if one is given, with arguments if any are given.
    fn sendcmd(&mut self, cmd: W, idx: Option<Self::Channel>, args: Option<&[W]>) -> Result<
        (),
        InstrumentError,
    >;

    /// Send a query, for a channel if one is given, with arguments if any are given, and return
    /// the answer.
    fn query(&mut self, cmd: W, idx: Option<Self::Channel>, args: Option<&[W]>) -> Result<
        WR,
        InstrumentError,
    >;
}

/// Whether `received` ends with `terminator`.
pub open spec fn ends_with(received: Seq<u8>, terminator: Seq<u8>) -> bool {
    received.len() >= terminator.len() && received.subrange(
        received.len() - terminator.len(),
        received.len() as int,
    ) == terminator
}

/// Whether the bytes of `received` end with `terminator`.
pub fn has_suffix(received: &[u8], terminator: &[u8]) -> (r: bool)
    ensures
        r == ends_with(received@, terminator@),
{
    let n = received.len();
    if n < terminator.len() {
        return false;
    }
    let off = n - terminator.len();
    let mut i: usize = 0;
    while i < terminator.len()
        invariant
            n == received@.len(),
            off + terminator.len() == n,
            i <= terminator.len(),
            forall|j: int| 0 <= j < i ==> received@[off + j] == terminator@[j],
        decreases terminator.len() - i,
    {
        if received[off + i] != terminator[i] {
            return false;
        }
        i += 1;
    }
    assert(received@.subrange(off as int, n as int) =~= terminator@);
    true
}

/// Record a byte read from the instrument; returns whether the answer is complete, that is,
/// whether the bytes received so far end with the terminator.
///
/// Reading an answer until its terminator calls this for every byte read and stops at the first
/// `true`.
pub fn record_byte(received: &mut Vec<u8>, byte: u8, terminator: &[u8]) -> (done: bool)
    ensures
        final(received)@ == old(received)@.push(byte),
        done == ends_with(final(received)@, terminator@),
{
    received.push(byte);
    has_suffix(received.as_slice(), terminator)
}

} // verus!
