use instrumentrs::errors::InstrumentError;
use instrumentrs::mock_interface::{FinalizeFailure, MockError, MockInterface};
use instrumentrs::transport::{has_suffix, record_byte, write_all, Interface, Writable};

const TERM: &str = "\n";

/// Read from the interface until the answer ends with the terminator.
fn read_until_terminator(
    interface: &mut MockInterface,
    terminator: &[u8],
) -> Result<Vec<u8>, InstrumentError> {
    let mut ret = vec![];
    loop {
        let b = interface.read_byte()?;
        if record_byte(&mut ret, b, terminator) {
            return Ok(ret);
        }
    }
}

/// A mock instrument that talks in strings.
struct InstrumentStr {
    interface: MockInterface,
    terminator: String,
}

impl InstrumentStr {
    fn write_str(&mut self, cmd: &str) -> Result<(), InstrumentError> {
        let term = self.terminator.clone();
        write_all(&mut self.interface, cmd.to_byte_slice(), term.to_byte_slice())
    }

    fn query_str(&mut self, cmd: &str) -> Result<String, InstrumentError> {
        self.write_str(cmd)?;
        let term = self.terminator.clone();
        let res = read_until_terminator(&mut self.interface, term.to_byte_slice())?;
        Ok(String::from_utf8(res).unwrap())
    }
}

/// A mock instrument loaded with the expected reads and writes, each followed by the terminator.
fn smock(exp_reads: &[&str], exp_writes: &[&str], terminator: &str) -> InstrumentStr {
    let with_term = |w: &&str| {
        let mut bts = w.to_byte_slice().to_vec();
        bts.extend_from_slice(terminator.to_byte_slice());
        bts
    };
    let reads: Vec<Vec<u8>> = exp_reads.iter().map(with_term).collect();
    let writes: Vec<Vec<u8>> = exp_writes.iter().map(with_term).collect();
    InstrumentStr {
        interface: MockInterface::new(reads, writes),
        terminator: terminator.to_string(),
    }
}

fn finalize_message(interface: &mut MockInterface) -> String {
    interface.check().unwrap_err().message()
}

#[test]
fn str_interface_read_write_passes() {
    let exp_reads = ["answer: query"];
    let exp_writes = ["cmd: sendcmd", "cmd query"];

    let mut inst = smock(&exp_reads, &exp_writes, TERM);
    inst.write_str(exp_writes[0]).unwrap();

    let rec = inst.query_str(exp_writes[1]).unwrap();
    assert_eq!("answer: query\n", rec);
    assert!(inst.interface.check().is_ok());
}

#[test]
fn str_interface_panic_unused_writes() {
    let exp_reads: Vec<&str> = vec![];
    let exp_writes = ["this is an unexpected write; 42"];

    let mut inst = smock(&exp_reads, &exp_writes, TERM);
    let msg = finalize_message(&mut inst.interface);
    assert!(msg.contains("expected write vector"));
    assert!(msg.contains(exp_writes[0]));
}

#[test]
fn str_interface_panic_unused_reads() {
    let exp_reads = ["this is an unexpected read; 42"];
    let exp_writes: Vec<&str> = vec![];

    let mut inst = smock(&exp_reads, &exp_writes, TERM);
    let msg = finalize_message(&mut inst.interface);
    assert!(msg.contains("expected read vector"));
    assert!(msg.contains(exp_reads[0]));
}

#[test]
fn str_interface_panic_too_many_flushes() {
    let exp: Vec<&str> = vec![];

    let mut inst = smock(&exp, &exp, TERM);
    inst.interface.flush().unwrap();

    let msg = finalize_message(&mut inst.interface);
    assert!(msg.contains("flushed 0 time(s) but it was only flushed 1"));
}

#[test]
fn str_interface_panic_too_few_flushes() {
    let exp_read: Vec<&str> = vec![];
    let exp_write = ["WRITE"];

    let mut inst = smock(&exp_read, &exp_write, TERM);
    inst.interface
        .write_bytes(format!("{}{}", exp_write[0], TERM).to_byte_slice())
        .unwrap();

    let msg = finalize_message(&mut inst.interface);
    assert!(msg.contains("flushed 1 time(s) but it was only flushed 0"));
}

#[test]
fn str_interface_error_no_more_reads_expected() {
    let exp_read: Vec<&str> = vec![];
    let exp_write = ["CMD"];

    let mut inst = smock(&exp_read, &exp_write, TERM);

    match inst.query_str(exp_write[0]) {
        Err(e) => assert!(e.message().contains("NoMoreReadData")),
        Ok(_) => panic!("Should have returned a NoMoreReadData error."),
    }
}

#[test]
fn str_interface_error_no_more_writes_expected() {
    let exp_read: Vec<&str> = vec![];
    let exp_write = ["CM"];

    let mut inst = smock(&exp_read, &exp_write, "");

    match inst.write_str("CMD") {
        Err(e) => assert!(e.message().contains("NoMoreWriteData")),
        Ok(_) => panic!("Should have returned a NoMoreWriteData error."),
    }

    // Write is not depleted, so finalizing must fail.
    assert!(inst.interface.check().is_err());
}

#[test]
fn str_interface_error_unexpected_write() {
    let exp_read: Vec<&str> = vec![];
    let exp_write = ["CMD"];

    let mut inst = smock(&exp_read, &exp_write, TERM);

    match inst.write_str("RMD") {
        Err(e) => {
            let e = e.message();
            assert!(e.contains("UnexpectedWrite"));
            assert!(e.contains("Expected byte"));
            assert!(e.contains("Received byte"));
            assert!(e.contains("'C'"));
            assert!(e.contains("'R'"));
        }
        Ok(_) => panic!("Should have returned an UnexpectedWrite error."),
    }

    // Write is not depleted, so finalizing must fail.
    assert!(inst.interface.check().is_err());
}

/// A mock instrument that talks in bytes.
struct InstrumentU8 {
    interface: MockInterface,
}

impl InstrumentU8 {
    fn write_u8(&mut self, cmd: &[u8]) -> Result<(), InstrumentError> {
        self.interface.write_bytes(cmd)?;
        Interface::flush(&mut self.interface)?;
        Ok(())
    }

    /// Read always exactly 5 bytes back.
    fn query_u8(&mut self, cmd: &[u8]) -> Result<Vec<u8>, InstrumentError> {
        self.write_u8(cmd)?;
        instrumentrs::transport::read_number_of_bytes(&mut self.interface, 5)
    }
}

fn smockb(exp_reads: &[&[u8]], exp_writes: &[&[u8]]) -> InstrumentU8 {
    let reads: Vec<Vec<u8>> = exp_reads.iter().map(|b| b.to_vec()).collect();
    let writes: Vec<Vec<u8>> = exp_writes.iter().map(|b| b.to_vec()).collect();
    InstrumentU8 { interface: MockInterface::new(reads, writes) }
}

#[test]
fn u8_interface_read_write_passes() {
    let exp_reads = ["Hello".as_bytes()];
    let exp_writes = ["cmd: sendcmd".as_bytes(), "cmd query".as_bytes()];

    let mut inst = smockb(&exp_reads, &exp_writes);

    inst.write_u8(exp_writes[0]).unwrap();

    let rec = inst.query_u8(exp_writes[1]).unwrap();
    assert_eq!("Hello".as_bytes(), rec);
    assert!(inst.interface.check().is_ok());
}

#[test]
fn u8_interface_panic_unused_writes() {
    let wrt_str = "this is an unexpected write; 42";
    let exp_reads: Vec<&[u8]> = vec![];
    let exp_writes = [wrt_str.as_bytes()];

    let mut inst = smockb(&exp_reads, &exp_writes);
    let msg = finalize_message(&mut inst.interface);
    assert!(msg.contains("expected write vector"));
    assert!(msg.contains(wrt_str));
}

#[test]
fn u8_interface_panic_unused_reads() {
    let rd_str = "this is an unexpected read; 42";
    let exp_reads = [rd_str.as_bytes()];
    let exp_writes: Vec<&[u8]> = vec![];

    let mut inst = smockb(&exp_reads, &exp_writes);
    let msg = finalize_message(&mut inst.interface);
    assert!(msg.contains("expected read vector"));
    assert!(msg.contains(rd_str));
}

#[test]
fn u8_interface_panic_too_many_flushes() {
    let exp: Vec<&[u8]> = vec![];

    let mut inst = smockb(&exp, &exp);
    inst.interface.flush().unwrap();

    let msg = finalize_message(&mut inst.interface);
    assert!(msg.contains("flushed 0 time(s) but it was only flushed 1"));
}

#[test]
fn u8_interface_panic_too_few_flushes() {
    let exp_read: Vec<&[u8]> = vec![];
    let exp_write = ["WRITE".as_bytes()];

    let mut inst = smockb(&exp_read, &exp_write);
    inst.interface.write_bytes(exp_write[0]).unwrap();

    let msg = finalize_message(&mut inst.interface);
    assert!(msg.contains("flushed 1 time(s) but it was only flushed 0"));
}

#[test]
fn u8_interface_error_no_more_reads_expected() {
    let exp_read: Vec<&[u8]> = vec![];
    let exp_write = ["CMD".as_bytes()];

    let mut inst = smockb(&exp_read, &exp_write);

    match inst.query_u8(exp_write[0]) {
        Err(e) => assert!(e.message().contains("NoMoreReadData")),
        Ok(_) => panic!("Should have returned a NoMoreReadData error."),
    }
}

#[test]
fn u8_interface_error_no_more_writes_expected() {
    let exp_read: Vec<&[u8]> = vec![];
    let exp_write = ["CM".as_bytes()];

    let mut inst = smockb(&exp_read, &exp_write);

    match inst.write_u8("CMD".as_bytes()) {
        Err(e) => assert!(e.message().contains("NoMoreWriteData")),
        Ok(_) => panic!("Should have returned a NoMoreWriteData error."),
    }

    // Write is not depleted, so finalizing must fail.
    assert!(inst.interface.check().is_err());
}

#[test]
fn u8_interface_error_unexpected_write() {
    let exp_read: Vec<&[u8]> = vec![];
    let exp_write = ["CMD".as_bytes()];

    let mut inst = smockb(&exp_read, &exp_write);

    match inst.write_u8("RMD".as_bytes()) {
        Err(e) => {
            let e = e.message();
            assert!(e.contains("UnexpectedWrite"));
            assert!(e.contains("Expected byte"));
            assert!(e.contains("Received byte"));
            assert!(e.contains("'C'"));
            assert!(e.contains("'R'"));
        }
        Ok(_) => panic!("Should have returned an UnexpectedWrite error."),
    }

    // Write is not depleted, so finalizing must fail.
    assert!(inst.interface.check().is_err());
}

#[test]
fn finalize_messages_exact() {
    let mut m = MockInterface::new(vec![b"hi".to_vec()], vec![]);
    assert_eq!(
        m.check().unwrap_err().message(),
        "The expected read vector was not fully depleted: Remaining data we expected to read: [104, 105] (string: 'hi')"
    );
    let mut m = MockInterface::new(vec![], vec![vec![0xff, 65]]);
    assert_eq!(
        m.check().unwrap_err().message(),
        "The expected write vector was not fully depleted: Remaining data we expected to write: [255, 65] (string: '\u{fffd}A')"
    );
    let f = FinalizeFailure::FlushCount { expected: 12, received: 3 };
    assert_eq!(
        f.message(),
        "We expected the interface to be flushed 12 time(s) but it was only flushed 3 time(s)."
    );
}

#[test]
fn mock_read_and_write() {
    let mut m = MockInterface::new(vec![b"ab".to_vec(), b"c".to_vec()], vec![b"xy".to_vec()]);
    assert_eq!(m.read(2).unwrap(), b"ab".to_vec());
    assert_eq!(m.read(2).unwrap_err(), MockError::NoMoreReadData);
    assert_eq!(m.read(1).unwrap(), b"c".to_vec());
    assert_eq!(m.write(b"xz").unwrap_err(), MockError::UnexpectedWrite {
        expected: b'y',
        expected_char: 'y',
        recieved: b'z',
        received_char: 'z',
    });
    // the matching byte was written
    assert_eq!(m.write(b"y"), Ok(1));
    assert_eq!(m.write(b"y").unwrap_err(), MockError::NoMoreWriteData);
    m.flush().unwrap();
    assert!(m.check().is_ok());
}

#[test]
fn mock_error_messages() {
    let e = MockError::UnexpectedWrite {
        expected: 67,
        expected_char: 'C',
        recieved: 82,
        received_char: 'R',
    };
    assert_eq!(
        e.message(),
        "UnexpectedWrite: The write command received an unexpected byte:\n- Expected byte '67' (character: 'C')\n+ Received byte '82' (character: 'R')."
    );
    match MockError::NoMoreReadData.into_instrument_error() {
        InstrumentError::Io { kind, message } => {
            assert_eq!(kind, instrumentrs::errors::IoErrorKind::InvalidData);
            assert!(message.starts_with("NoMoreReadData"));
        }
        other => panic!("unexpected error {:?}", other),
    }
}

#[test]
fn write_all_writes_buffer_terminator_and_flushes() {
    let mut m = MockInterface::new(vec![], vec![b"CMD\r\n".to_vec()]);
    write_all(&mut m, b"CMD", b"\r\n").unwrap();
    assert!(m.check().is_ok());
}

#[test]
fn read_number_of_bytes_reads_exactly() {
    let mut m = MockInterface::new(vec![b"12345678".to_vec()], vec![]);
    let v = instrumentrs::transport::read_number_of_bytes(&mut m, 3).unwrap();
    assert_eq!(v, b"123".to_vec());
    let v = instrumentrs::transport::read_number_of_bytes(&mut m, 5).unwrap();
    assert_eq!(v, b"45678".to_vec());
    assert!(instrumentrs::transport::read_number_of_bytes(&mut m, 1).is_err());
}

#[test]
fn record_byte_stops_at_terminator() {
    let mut ret = vec![];
    let term = b"\r\n";
    assert!(!record_byte(&mut ret, b'a', term));
    assert!(!record_byte(&mut ret, b'\r', term));
    assert!(!record_byte(&mut ret, b'b', term));
    assert!(!record_byte(&mut ret, b'\r', term));
    assert!(record_byte(&mut ret, b'\n', term));
    assert_eq!(ret, b"a\rb\r\n".to_vec());
    // an empty terminator ends after any byte
    let mut ret = vec![];
    assert!(record_byte(&mut ret, b'x', b""));
}

#[test]
fn read_until_terminator_with_longer_terminator() {
    let mut m = MockInterface::new(vec![b"OK\r\nrest".to_vec()], vec![]);
    assert_eq!(read_until_terminator(&mut m, b"\r\n").unwrap(), b"OK\r\n".to_vec());
}

#[test]
fn writable_bytes() {
    assert_eq!("aé".to_byte_slice(), &[97, 0xc3, 0xa9]);
    assert_eq!(String::from("ok").to_byte_slice(), b"ok");
    assert_eq!(vec![1u8, 2].to_byte_slice(), &[1, 2]);
    let s: &[u8] = &[7, 8];
    assert_eq!(s.to_byte_slice(), &[7, 8]);
}

#[test]
fn has_suffix_compares_the_end() {
    assert!(has_suffix(b"abc\r\n", b"\r\n"));
    assert!(!has_suffix(b"abc\n", b"\r\n"));
    assert!(!has_suffix(b"\n", b"\r\n"));
    assert!(has_suffix(b"", b""));
}

#[test]
fn finalize_resets_the_mock() {
    let mut m = MockInterface::new(vec![b"a".to_vec()], vec![b"b".to_vec()]);
    assert_eq!(m.read(1).unwrap(), b"a".to_vec());
    assert_eq!(m.write(b"b"), Ok(1));
    m.flush().unwrap();
    assert!(m.check().is_ok());
    m.finalize();
    // nothing more is expected
    assert_eq!(m.read(1).unwrap_err(), MockError::NoMoreReadData);
    assert_eq!(m.write(b"b").unwrap_err(), MockError::NoMoreWriteData);
    assert!(m.check().is_ok());
}

#[test]
fn failed_finalize_keeps_the_mock() {
    let mut m = MockInterface::new(vec![b"a".to_vec()], vec![]);
    assert!(m.check().is_err());
    assert_eq!(m.read(1).unwrap(), b"a".to_vec());
    assert!(m.check().is_ok());
}

#[test]
fn read_number_of_bytes_reads_nothing_for_zero() {
    let mut m = MockInterface::new(vec![], vec![]);
    let v = instrumentrs::transport::read_number_of_bytes(&mut m, 0).unwrap();
    assert!(v.is_empty());
    assert!(m.check().is_ok());
}

#[test]
fn write_all_stops_at_the_first_error() {
    let mut m = MockInterface::new(vec![], vec![b"ab".to_vec()]);
    match write_all(&mut m, b"xb", b"") {
        Err(e) => assert!(e.message().contains("UnexpectedWrite")),
        Ok(_) => panic!("the first write must fail"),
    }
    // Neither the terminator nor a flush followed the failed write.
    m.write_bytes(b"ab").unwrap();
    m.flush().unwrap();
    assert!(m.check().is_ok());
}

#[test]
fn read_number_of_bytes_stops_at_the_first_error() {
    let mut m = MockInterface::new(vec![b"ab".to_vec()], vec![]);
    match instrumentrs::transport::read_number_of_bytes(&mut m, 3) {
        Err(e) => assert!(e.message().contains("NoMoreReadData")),
        Ok(_) => panic!("only two bytes can be read"),
    }
    // The two bytes that could be read were read.
    assert!(m.check().is_ok());
}
