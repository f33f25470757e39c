use instrumentrs::mock_interface::MockError;
use instrumentrs::pretty::{pretty_error, PrettyError};

#[test]
fn pretty_unexpected_write() {
    let msg = MockError::UnexpectedWrite {
        expected: 67,
        expected_char: 'C',
        recieved: 82,
        received_char: 'R',
    }
    .message();
    let pretty = pretty_error(&msg).unwrap();
    assert_eq!(
        pretty,
        "\u{1b}[0m\u{1b}[1m\u{1b}[31mUnexpectedWrite\u{1b}[0m: The write command received an unexpected byte:\n\
         \u{1b}[0m\u{1b}[33m- Expected byte '67' (character: 'C')\n\
         \u{1b}[0m\u{1b}[34m+ Received byte '82' (character: 'R').\n\
         \u{1b}[0m"
    );
}

#[test]
fn pretty_one_line() {
    let pretty = pretty_error(&MockError::NoMoreReadData.message()).unwrap();
    assert_eq!(
        pretty,
        "\u{1b}[0m\u{1b}[1m\u{1b}[31mNoMoreReadData\u{1b}[0m: The `expected_read` data were depleted but more data were requested.\n"
    );
}

#[test]
fn pretty_two_lines_colors_only_the_head() {
    let pretty = pretty_error("Head: one\ntwo").unwrap();
    assert_eq!(pretty, "\u{1b}[0m\u{1b}[1m\u{1b}[31mHead\u{1b}[0m: one\n");
}

#[test]
fn pretty_without_colon_is_plain() {
    let msg = "no colon here\nsecond: line";
    assert_eq!(pretty_error(msg).unwrap(), msg);
}

#[test]
fn pretty_empty_message_fails() {
    match pretty_error("") {
        Err(PrettyError::Mock(MockError::PrettyPrintFailed)) => {}
        other => panic!("unexpected result {:?}", other),
    }
}
