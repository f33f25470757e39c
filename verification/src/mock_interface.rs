//! A mock interface for testing instrument drivers: it is loaded with the bytes that the driver is
//! expected to read and to write, and checks every write and flush against them.
use vstd::prelude::*;

use crate::errors::{InstrumentError, IoErrorKind};
use crate::transport::{Interface, InterfaceCall};
use crate::text::{bytes_debug, decimal, lossy_text, push_bytes_debug, push_decimal, push_usize};
use vstd::utf8::{decode_utf8, valid_utf8};

verus! {

/// Errors that reading from or writing to the mock interface returns.
#[derive(Debug, Clone, Copy, PartialEq, Eq, Structural)]
pub enum MockError {
    /// A write contained an unexpected byte.
    UnexpectedWrite { expected: u8, expected_char: char, recieved: u8, received_char: char },
    /// More data were requested than the expected reads hold.
    NoMoreReadData,
    /// More data were written than the expected writes hold.
    NoMoreWriteData,
    /// Coloring an error message failed.
    PrettyPrintFailed,
}

/// The message of a mock error.
pub open spec fn mock_error_message(e: MockError) -> Seq<char> {
    match e {
        MockError::UnexpectedWrite { expected, expected_char, recieved, received_char } =>
            "UnexpectedWrite: The write command received an unexpected byte:\n- Expected byte '"@
            + decimal(expected as nat) + "' (character: '"@ + seq![expected_char] + "')\n+ Received byte '"@
            + decimal(recieved as nat) + "' (character: '"@ + seq![received_char] + "')."@,
        MockError::NoMoreReadData => "NoMoreReadData: The `expected_read` data were depleted but more data were requested."@,
        MockError::NoMoreWriteData => "NoMoreWriteData: The `expected_write` data were depleted but more writes were performed by the instrument."@,
        MockError::PrettyPrintFailed => "Coloring the error message failed"@,
    }
}

/// The kind of input/output error that a mock error becomes.
pub open spec fn mock_error_kind(e: MockError) -> IoErrorKind {
    match e {
        MockError::UnexpectedWrite { .. } => IoErrorKind::InvalidInput,
        MockError::NoMoreReadData => IoErrorKind::InvalidData,
        MockError::NoMoreWriteData => IoErrorKind::InvalidData,
        MockError::PrettyPrintFailed => IoErrorKind::Other,
    }
}

impl MockError {
    /// The message of this error.
    pub fn message(&self) -> (r: String)
        ensures
            r@ == mock_error_message(*self),
    {
        match self {
            MockError::UnexpectedWrite { expected, expected_char, recieved, received_char } => {
                let mut m = String::from_str(
                    "UnexpectedWrite: The write command received an unexpected byte:\n- Expected byte '",
                );
                push_decimal(&mut m, *expected);
                m.append("' (character: '");
                m.push(*expected_char);
                m.append("')\n+ Received byte '");
                push_decimal(&mut m, *recieved);
                m.append("' (character: '");
                m.push(*received_char);
                m.append("').");
                m
            },
            MockError::NoMoreReadData => String::from_str(
                "NoMoreReadData: The `expected_read` data were depleted but more data were requested.",
            ),
            MockError::NoMoreWriteData => String::from_str(
                "NoMoreWriteData: The `expected_write` data were depleted but more writes were performed by the instrument.",
            ),
            MockError::PrettyPrintFailed => String::from_str("Coloring the error message failed"),
        }
    }

    /// The kind of input/output error that this error becomes.
    pub fn io_kind(&self) -> (r: IoErrorKind)
        ensures
            r == mock_error_kind(*self),
    {
        match self {
            MockError::UnexpectedWrite { .. } => IoErrorKind::InvalidInput,
            MockError::NoMoreReadData => IoErrorKind::InvalidData,
            MockError::NoMoreWriteData => IoErrorKind::InvalidData,
            MockError::PrettyPrintFailed => IoErrorKind::Other,
        }
    }

    /// The input/output error that this error becomes.
    pub fn into_instrument_error(self) -> (r: InstrumentError)
        ensures
            r == (InstrumentError::Io { kind: mock_error_kind(self), message: r->message })
                && r->message@ == mock_error_message(self),
    {
        InstrumentError::Io { kind: self.io_kind(), message: self.message() }
    }
}

/// The state of a mock interface.
pub struct MockModel {
    /// All bytes that are expected to be read.
    pub expected_read: Seq<u8>,
    /// How many of them have been read.
    pub read_idx: nat,
    /// All bytes that are expected to be written.
    pub expected_write: Seq<u8>,
    /// How many of them have been written.
    pub write_idx: nat,
    /// How many flushes are expected.
    pub flush_exp: nat,
    /// How many flushes have been received.
    pub flush_rec: nat,
}

/// A fresh mock, loaded with the expected reads and writes (one entry per complete read or
/// write; one flush is expected per complete write).
pub open spec fn model_new(reads: Seq<Seq<u8>>, writes: Seq<Seq<u8>>) -> MockModel {
    MockModel {
        expected_read: reads.flatten(),
        read_idx: 0,
        expected_write: writes.flatten(),
        write_idx: 0,
        flush_exp: writes.len(),
        flush_rec: 0,
    }
}

/// Reading `n` bytes: the next `n` expected bytes, or `NoMoreReadData` (nothing consumed) if
/// there are fewer left.
pub open spec fn model_read(m: MockModel, n: nat) -> Result<(MockModel, Seq<u8>), MockError> {
    if m.read_idx + n > m.expected_read.len() {
        Err(MockError::NoMoreReadData)
    } else {
        Ok(
            (
                MockModel { read_idx: m.read_idx + n, ..m },
                m.expected_read.subrange(m.read_idx as int, (m.read_idx + n) as int),
            ),
        )
    }
}

/// How many bytes of `buf` agree with the expected bytes from `start` on (`buf` must fit).
pub open spec fn matching_len(expected: Seq<u8>, start: nat, buf: Seq<u8>) -> nat
    decreases buf.len(),
{
    if buf.len() == 0 {
        0
    } else if matching_len(expected, start, buf.drop_last()) == buf.len() - 1 && expected[(start
        + buf.len() - 1) as int] == buf.last() {
        buf.len()
    } else {
        matching_len(expected, start, buf.drop_last())
    }
}

/// Writing `buf`: `NoMoreWriteData` (nothing consumed) if it does not fit in the expected
/// writes that are left; otherwise the bytes are compared one by one, and the first one that
/// differs gives `UnexpectedWrite`, the bytes before it being consumed.
pub open spec fn model_write(m: MockModel, buf: Seq<u8>) -> (MockModel, Result<nat, MockError>) {
    if m.write_idx + buf.len() > m.expected_write.len() {
        (m, Err(MockError::NoMoreWriteData))
    } else {
        let k = matching_len(m.expected_write, m.write_idx, buf);
        if k < buf.len() {
            let e = m.expected_write[(m.write_idx + k) as int];
            let b = buf[k as int];
            (
                MockModel { write_idx: m.write_idx + k, ..m },
                Err(
                    MockError::UnexpectedWrite {
                        expected: e,
                        expected_char: e as char,
                        recieved: b,
                        received_char: b as char,
                    },
                ),
            )
        } else {
            (MockModel { write_idx: m.write_idx + buf.len(), ..m }, Ok(buf.len()))
        }
    }
}

/// Flushing counts one flush.
pub open spec fn model_flush(m: MockModel) -> MockModel {
    MockModel { flush_rec: m.flush_rec + 1, ..m }
}

/// Whether the mock is done: all expected bytes read and written, and as many flushes received
/// as expected.
pub open spec fn model_done(m: MockModel) -> bool {
    &&& m.read_idx == m.expected_read.len()
    &&& m.write_idx == m.expected_write.len()
    &&& m.flush_exp == m.flush_rec
}

/// Why a mock interface is not done.
#[derive(Debug)]
#[allow(inconsistent_fields)]
pub enum FinalizeFailure {
    /// Not all expected reads were read; the bytes that remain.
    ReadNotDepleted { remaining: Vec<u8> },
    /// Not all expected writes were written; the bytes that remain.
    WriteNotDepleted { remaining: Vec<u8> },
    /// The number of flushes differs from the number of expected writes.
    FlushCount { expected: usize, received: usize },
}

/// The bytes that a failed finalization reports as remaining (none for a flush count).
pub open spec fn remaining_bytes(f: FinalizeFailure) -> Seq<u8> {
    match f {
        FinalizeFailure::ReadNotDepleted { remaining } => remaining@,
        FinalizeFailure::WriteNotDepleted { remaining } => remaining@,
        FinalizeFailure::FlushCount { .. } => Seq::empty(),
    }
}

/// The message of a failed finalization, where `text` is the remaining bytes read as text.
pub open spec fn finalize_message(f: FinalizeFailure, text: Seq<char>) -> Seq<char> {
    match f {
        FinalizeFailure::ReadNotDepleted { remaining } => "The expected read vector was not fully depleted: Remaining data we expected to read: "@
            + bytes_debug(remaining@) + " (string: '"@ + text + "')"@,
        FinalizeFailure::WriteNotDepleted { remaining } => "The expected write vector was not fully depleted: Remaining data we expected to write: "@
            + bytes_debug(remaining@) + " (string: '"@ + text + "')"@,
        FinalizeFailure::FlushCount { expected, received } => "We expected the interface to be flushed "@
            + decimal(expected as nat) + " time(s) but it was only flushed "@ + decimal(
            received as nat,
        ) + " time(s)."@,
    }
}

impl FinalizeFailure {
    /// The message of this failure. The remaining bytes are shown as numbers and as text; bytes
    /// that are not UTF-8 show as replacement characters in the text.
    pub fn message(&self) -> (r: String)
        ensures
            exists|text: Seq<char>| r@ == finalize_message(*self, text),
            valid_utf8(remaining_bytes(*self)) ==> r@ == finalize_message(
                *self,
                decode_utf8(remaining_bytes(*self)),
            ),
    {
        match self {
            FinalizeFailure::ReadNotDepleted { remaining } => {
                let mut m = String::from_str(
                    "The expected read vector was not fully depleted: Remaining data we expected to read: ",
                );
                push_bytes_debug(&mut m, remaining.as_slice());
                m.append(" (string: '");
                let text = lossy_text(remaining.as_slice());
                m.append(text.as_str());
                m.append("')");
                assert(m@ == finalize_message(*self, text@));
                m
            },
            FinalizeFailure::WriteNotDepleted { remaining } => {
                let mut m = String::from_str(
                    "The expected write vector was not fully depleted: Remaining data we expected to write: ",
                );
                push_bytes_debug(&mut m, remaining.as_slice());
                m.append(" (string: '");
                let text = lossy_text(remaining.as_slice());
                m.append(text.as_str());
                m.append("')");
                assert(m@ == finalize_message(*self, text@));
                m
            },
            FinalizeFailure::FlushCount { expected, received } => {
                let mut m = String::from_str("We expected the interface to be flushed ");
                push_usize(&mut m, *expected);
                m.append(" time(s) but it was only flushed ");
                push_usize(&mut m, *received);
                m.append(" time(s).");
                assert(m@ == finalize_message(*self, Seq::empty()));
                m
            },
        }
    }
}

/// A mock interface for testing instrument drivers.
pub struct MockInterface {
    /// All the bytes that we expect to read.
    expected_read: Vec<u8>,
    /// Where we are currently reading.
    read_idx: usize,
    /// All the bytes that we expect to write.
    expected_write: Vec<u8>,
    /// Where we are currently writing.
    write_idx: usize,
    /// Number of flushes we expect: one per complete write command.
    flush_exp: usize,
    /// Number of flushes received.
    flush_rec: usize,
    /// The calls made through the interface, with their results.
    log: Ghost<Seq<InterfaceCall>>,
}

impl MockInterface {
    #[verifier::type_invariant]
    spec fn indexes_in_range(self) -> bool {
        &&& self.read_idx <= self.expected_read@.len()
        &&& self.write_idx <= self.expected_write@.len()
    }

    /// The state of the mock.
    pub closed spec fn model(&self) -> MockModel {
        MockModel {
            expected_read: self.expected_read@,
            read_idx: self.read_idx as nat,
            expected_write: self.expected_write@,
            write_idx: self.write_idx as nat,
            flush_exp: self.flush_exp as nat,
            flush_rec: self.flush_rec as nat,
        }
    }

    /// Create a mock interface loaded with the expected reads and writes.
    ///
    /// For each complete read and write call, supply the bytes that are read from and written to
    /// the device. The number of complete write calls is the number of flushes expected.
    pub fn new(expected_reads: Vec<Vec<u8>>, expected_writes: Vec<Vec<u8>>) -> (r: Self)
        ensures
            r.model() == model_new(expected_reads.deep_view(), expected_writes.deep_view()),
            r.calls() == Seq::<InterfaceCall>::empty(),
    {
        let expected_read = flatten(&expected_reads);
        let flush_exp = expected_writes.len();
        let expected_write = flatten(&expected_writes);
        MockInterface {
            expected_read,
            read_idx: 0,
            expected_write,
            write_idx: 0,
            flush_exp,
            flush_rec: 0,
            log: Ghost(Seq::empty()),
        }
    }

    /// Read the next `len` expected bytes.
    pub fn read(&mut self, len: usize) -> (r: Result<Vec<u8>, MockError>)
        ensures
            match model_read(old(self).model(), len as nat) {
                Ok((m, bytes)) => final(self).model() == m && (r matches Ok(v) && v@ == bytes),
                Err(e) => final(self).model() == old(self).model() && r == Err::<Vec<u8>, MockError>(e),
            },
            final(self).calls() == old(self).calls(),
    {
        proof {
            use_type_invariant(&*self);
        }
        if len > self.expected_read.len() - self.read_idx {
            return Err(MockError::NoMoreReadData);
        }
        let mut out: Vec<u8> = Vec::new();
        let start = self.read_idx;
        let total = self.expected_read.len();
        let mut i: usize = 0;
        while i < len
            invariant
                start + len <= total,
                total == self.expected_read@.len(),
                i <= len,
                out@ =~= self.expected_read@.subrange(start as int, start + i),
            decreases len - i,
        {
            out.push(self.expected_read[start + i]);
            i += 1;
        }
        self.read_idx = start + len;
        Ok(out)
    }

    /// Write `buf`, checking it against the expected bytes.
    pub fn write(&mut self, buf: &[u8]) -> (r: Result<usize, MockError>)
        ensures
            final(self).model() == model_write(old(self).model(), buf@).0,
            match model_write(old(self).model(), buf@).1 {
                Ok(n) => r == Ok::<usize, MockError>(n as usize),
                Err(e) => r == Err::<usize, MockError>(e),
            },
            final(self).calls() == old(self).calls(),
    {
        proof {
            use_type_invariant(&*self);
        }
        if buf.len() > self.expected_write.len() - self.write_idx {
            return Err(MockError::NoMoreWriteData);
        }
        let ghost m0 = self.model();
        let start = self.write_idx;
        let total = self.expected_write.len();
        let mut i: usize = 0;
        while i < buf.len()
            invariant
                start + buf.len() <= total,
                total == self.expected_write@.len(),
                self.write_idx == start + i,
                i <= buf.len(),
                self.expected_write@ == m0.expected_write,
                self.expected_read@ == m0.expected_read,
                self.read_idx == m0.read_idx,
                self.flush_exp == m0.flush_exp,
                self.flush_rec == m0.flush_rec,
                self.log == old(self).log,
                m0.write_idx == start,
                m0 == old(self).model(),
                m0.read_idx <= m0.expected_read.len(),
                matching_len(m0.expected_write, start as nat, buf@.take(i as int)) == i,
            decreases buf.len() - i,
        {
            proof {
                lemma_matching_len_prefix(m0.expected_write, start as nat, buf@, i as nat);
            }
            let e = self.expected_write[self.write_idx];
            let b = buf[i];
            if e != b {
                proof {
                    lemma_matching_len_stops(m0.expected_write, start as nat, buf@, i as nat);
                }
                return Err(
                    MockError::UnexpectedWrite {
                        expected: e,
                        expected_char: e as char,
                        recieved: b,
                        received_char: b as char,
                    },
                );
            }
            self.write_idx = self.write_idx + 1;
            i += 1;
        }
        assert(buf@.take(buf@.len() as int) =~= buf@);
        Ok(buf.len())
    }

    /// Check that all expected reads were read, all expected writes were written, and that the
    /// interface was flushed once per expected write, in that order; the first check that fails
    /// is reported.
    pub fn check(&self) -> (r: Result<(), FinalizeFailure>)
        ensures
            r is Ok <==> model_done(self.model()),
            self.model().read_idx != self.model().expected_read.len() ==> (r matches Err(
                FinalizeFailure::ReadNotDepleted { remaining },
            ) && remaining@ == self.model().expected_read.skip(self.model().read_idx as int)),
            self.model().read_idx == self.model().expected_read.len() && self.model().write_idx
                != self.model().expected_write.len() ==> (r matches Err(
                FinalizeFailure::WriteNotDepleted { remaining },
            ) && remaining@ == self.model().expected_write.skip(self.model().write_idx as int)),
            self.model().read_idx == self.model().expected_read.len() && self.model().write_idx
                == self.model().expected_write.len() && self.model().flush_exp
                != self.model().flush_rec ==> r == Err::<(), FinalizeFailure>(
                FinalizeFailure::FlushCount {
                    expected: self.model().flush_exp as usize,
                    received: self.model().flush_rec as usize,
                },
            ),
    {
        proof {
            use_type_invariant(&*self);
        }
        if self.read_idx != self.expected_read.len() {
            return Err(
                FinalizeFailure::ReadNotDepleted {
                    remaining: copy_from(&self.expected_read, self.read_idx),
                },
            );
        }
        if self.write_idx != self.expected_write.len() {
            return Err(
                FinalizeFailure::WriteNotDepleted {
                    remaining: copy_from(&self.expected_write, self.write_idx),
                },
            );
        }
        if self.flush_exp != self.flush_rec {
            return Err(
                FinalizeFailure::FlushCount { expected: self.flush_exp, received: self.flush_rec },
            );
        }
        Ok(())
    }

    /// Finalize the test, which the mock must pass (see `check`, which reports why it does not):
    /// all expected reads were read, all expected writes were written, and the interface was
    /// flushed once per expected write. The interface is then reset: it expects nothing more.
    pub fn finalize(&mut self)
        requires
            model_done(old(self).model()),
        ensures
            final(self).model() == model_new(Seq::empty(), Seq::empty()),
            final(self).calls() == old(self).calls(),
    {
        *self = MockInterface {
            expected_read: Vec::new(),
            read_idx: 0,
            expected_write: Vec::new(),
            write_idx: 0,
            flush_exp: 0,
            flush_rec: 0,
            log: self.log,
        };
        assert(Seq::<Seq<u8>>::empty().flatten() =~= Seq::<u8>::empty());
    }
}

impl Interface for MockInterface {
    open spec fn keeps_records(&self) -> bool {
        true
    }

    closed spec fn calls(&self) -> Seq<InterfaceCall> {
        self.log@
    }

    /// The next expected byte; `NoMoreReadData` if none is left.
    fn read_byte(&mut self) -> (r: Result<u8, InstrumentError>)
        ensures
            match model_read(old(self).model(), 1) {
                Ok((m, bytes)) => final(self).model() == m && (r matches Ok(b) && b == bytes[0]),
                Err(e) => final(self).model() == old(self).model() && (r matches Err(
                    InstrumentError::Io { kind, message },
                ) && kind == mock_error_kind(e) && message@ == mock_error_message(e)),
            },
    {
        proof {
            use_type_invariant(&*self);
        }
        let ghost log0 = self.log@;
        let r = match self.read(1) {
            Ok(v) => Ok(v[0]),
            Err(e) => Err(e.into_instrument_error()),
        };
        proof {
            self.log@ = log0.push(InterfaceCall::ReadByte(r));
        }
        r
    }

    /// Write `buf`, checking it against the expected bytes (see `model_write`).
    fn write_bytes(&mut self, buf: &[u8]) -> (r: Result<(), InstrumentError>)
        ensures
            final(self).model() == model_write(old(self).model(), buf@).0,
            match model_write(old(self).model(), buf@).1 {
                Ok(_) => r is Ok,
                Err(e) => r matches Err(InstrumentError::Io { kind, message }) && kind
                    == mock_error_kind(e) && message@ == mock_error_message(e),
            },
    {
        proof {
            use_type_invariant(&*self);
        }
        let ghost log0 = self.log@;
        let r = match self.write(buf) {
            Ok(_) => Ok(()),
            Err(e) => Err(e.into_instrument_error()),
        };
        proof {
            self.log@ = log0.push(InterfaceCall::WriteBytes(buf@, r));
        }
        r
    }

    /// Count one flush; a count that no longer fits in a `usize` is an error.
    fn flush(&mut self) -> (r: Result<(), InstrumentError>)
        ensures
            old(self).model().flush_rec < usize::MAX ==> (r is Ok) && final(self).model()
                == model_flush(old(self).model()),
            old(self).model().flush_rec == usize::MAX ==> (r is Err) && final(self).model() == old(
                self,
            ).model(),
    {
        proof {
            use_type_invariant(&*self);
        }
        let ghost log0 = self.log@;
        let r = if self.flush_rec == usize::MAX {
            Err(
                InstrumentError::Io {
                    kind: IoErrorKind::Other,
                    message: String::from_str("too many flushes to count"),
                },
            )
        } else {
            self.flush_rec = self.flush_rec + 1;
            Ok(())
        };
        proof {
            self.log@ = log0.push(InterfaceCall::Flush(r));
        }
        r
    }
}

proof fn lemma_matching_len_prefix(expected: Seq<u8>, start: nat, buf: Seq<u8>, i: nat)
    requires
        i < buf.len(),
        matching_len(expected, start, buf.take(i as int)) == i,
    ensures
        expected[(start + i) as int] == buf[i as int] ==> matching_len(expected, start, buf.take((i + 1) as int))
            == i + 1,
{
    assert(buf.take((i + 1) as int).drop_last() =~= buf.take(i as int));
}

proof fn lemma_matching_len_stops(expected: Seq<u8>, start: nat, buf: Seq<u8>, i: nat)
    requires
        i < buf.len(),
        matching_len(expected, start, buf.take(i as int)) == i,
        expected[(start + i) as int] != buf[i as int],
    ensures
        matching_len(expected, start, buf) == i,
    decreases buf.len(),
{
    if buf.len() == i + 1 {
    } else {
        assert(buf.drop_last().take(i as int) =~= buf.take(i as int));
        lemma_matching_len_stops(expected, start, buf.drop_last(), i);
        lemma_matching_len_le(expected, start, buf.drop_last());
    }
}

proof fn lemma_matching_len_le(expected: Seq<u8>, start: nat, buf: Seq<u8>)
    ensures
        matching_len(expected, start, buf) <= buf.len(),
    decreases buf.len(),
{
    if buf.len() > 0 {
        lemma_matching_len_le(expected, start, buf.drop_last());
    }
}

/// The bytes of `v` from `start` on.
fn copy_from(v: &Vec<u8>, start: usize) -> (r: Vec<u8>)
    requires
        start <= v@.len(),
    ensures
        r@ == v@.skip(start as int),
{
    let mut out: Vec<u8> = Vec::new();
    let mut i = start;
    while i < v.len()
        invariant
            start <= i <= v@.len(),
            out@ =~= v@.subrange(start as int, i as int),
        decreases v@.len() - i,
    {
        out.push(v[i]);
        i += 1;
    }
    out
}

/// All the bytes of `chunks`, one chunk after the other.
fn flatten(chunks: &Vec<Vec<u8>>) -> (r: Vec<u8>)
    ensures
        r@ == chunks.deep_view().flatten(),
{
    let mut out: Vec<u8> = Vec::new();
    let mut i: usize = 0;
    while i < chunks.len()
        invariant
            i <= chunks@.len(),
            out@ == chunks.deep_view().take(i as int).flatten(),
        decreases chunks@.len() - i,
    {
        let ghost prev = out@;
        let mut j: usize = 0;
        while j < chunks[i].len()
            invariant
                i < chunks@.len(),
                j <= chunks@[i as int]@.len(),
                out@ =~= prev + chunks@[i as int]@.take(j as int),
            decreases chunks@[i as int]@.len() - j,
        {
            out.push(chunks[i][j]);
            j += 1;
        }
        proof {
            let dv = chunks.deep_view();
            assert(dv.take(i + 1) =~= dv.take(i as int).push(dv[i as int]));
            dv.take(i as int).lemma_flatten_push(dv[i as int]);
        }
        i += 1;
    }
    assert(chunks.deep_view().take(chunks@.len() as int) =~= chunks.deep_view());
    out
}

/// Write each chunk, flushing after each one; `None` if a write fails.
pub open spec fn model_write_flush_all(m: MockModel, chunks: Seq<Seq<u8>>) -> Option<MockModel>
    decreases chunks.len(),
{
    if chunks.len() == 0 {
        Some(m)
    } else {
        match model_write(m, chunks[0]) {
            (m1, Ok(_)) => model_write_flush_all(model_flush(m1), chunks.drop_first()),
            (_, Err(_)) => None,
        }
    }
}

proof fn lemma_matching_len_full(expected: Seq<u8>, start: nat, buf: Seq<u8>)
    requires
        start + buf.len() <= expected.len(),
        expected.subrange(start as int, (start + buf.len()) as int) == buf,
    ensures
        matching_len(expected, start, buf) == buf.len(),
    decreases buf.len(),
{
    if buf.len() > 0 {
        let b = buf.drop_last();
        assert(expected.subrange(start as int, (start + b.len()) as int) =~= b);
        lemma_matching_len_full(expected, start, b);
        assert(expected[(start + buf.len() - 1) as int] == expected.subrange(
            start as int,
            (start + buf.len()) as int,
        )[buf.len() - 1]);
    }
}

proof fn lemma_write_flush_all(m: MockModel, chunks: Seq<Seq<u8>>)
    requires
        m.write_idx + chunks.flatten().len() <= m.expected_write.len(),
        m.expected_write.subrange(m.write_idx as int, (m.write_idx + chunks.flatten().len()) as int)
            == chunks.flatten(),
    ensures
        model_write_flush_all(m, chunks) == Some(
            MockModel {
                write_idx: m.write_idx + chunks.flatten().len(),
                flush_rec: m.flush_rec + chunks.len(),
                ..m
            },
        ),
    decreases chunks.len(),
{
    if chunks.len() > 0 {
        let c = chunks[0];
        let rest = chunks.drop_first();
        let sub = m.expected_write.subrange(m.write_idx as int, (m.write_idx + chunks.flatten().len()) as int);
        assert(m.expected_write.subrange(m.write_idx as int, (m.write_idx + c.len()) as int) =~= sub.take(
            c.len() as int,
        ));
        assert(sub.take(c.len() as int) =~= c);
        lemma_matching_len_full(m.expected_write, m.write_idx, c);
        let m1 = MockModel { write_idx: m.write_idx + c.len(), ..m };
        let m2 = model_flush(m1);
        assert(m2.expected_write.subrange(m2.write_idx as int, (m2.write_idx + rest.flatten().len()) as int)
            =~= sub.skip(c.len() as int));
        assert(sub.skip(c.len() as int) =~= rest.flatten());
        lemma_write_flush_all(m2, rest);
    }
}

/// A driver that writes exactly the expected writes, each followed by a flush, and then reads
/// all the expected reads, gets back exactly the bytes that the mock was loaded with, and leaves
/// the mock done: finalizing it succeeds.
pub proof fn expected_session_finalizes(reads: Seq<Seq<u8>>, writes: Seq<Seq<u8>>)
    ensures
        ({
            let m0 = model_new(reads, writes);
            match model_write_flush_all(m0, writes) {
                Some(m1) => match model_read(m1, reads.flatten().len()) {
                    Ok((m2, bytes)) => bytes == reads.flatten() && model_done(m2),
                    Err(_) => false,
                },
                None => false,
            }
        }),
{
    let m0 = model_new(reads, writes);
    assert(m0.expected_write.subrange(0, writes.flatten().len() as int) =~= writes.flatten());
    lemma_write_flush_all(m0, writes);
}

} // verus!
