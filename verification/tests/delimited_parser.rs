use instrumentrs::delimited_parser::DelimitedParser;
use instrumentrs::errors::InstrumentError;

#[test]
fn simple_command_parser() {
    // Command: "{}"
    let dp = DelimitedParser::new("".to_string(), vec!["".to_string()], None);

    assert_eq!(dp.parse("ASDF").unwrap(), ["ASDF"]);
}

#[test]
fn single_command_parser_with_start_and_end() {
    // Command: "START{}END"
    let dp = DelimitedParser::new("START".to_string(), vec!["END".to_string()], None);

    assert_eq!(dp.parse("STARTASDFEND").unwrap(), ["ASDF"]);
}

#[test]
fn multiple_command_parser() {
    // Command: "CMD {},{},{},{}"
    let dp = DelimitedParser::new(
        "CMD ".to_string(),
        vec![",".to_string(), ",".to_string(), ",".to_string(), "".to_string()],
        None,
    );

    assert_eq!(dp.parse("CMD 1,2,3,4").unwrap(), ["1", "2", "3", "4"]);
}

#[test]
fn ensure_whitespace_is_trimmed() {
    // Command: "CMD {},{},{},{}"
    let dp = DelimitedParser::new(
        "CMD ".to_string(),
        vec![",".to_string(), ",".to_string(), ",".to_string(), "".to_string()],
        None,
    );

    assert_eq!(dp.parse("CMD 1,2,3,4\n").unwrap(), ["1", "2", "3", "4"]);
}

#[test]
fn multiple_command_parse_with_order() {
    // Command: "CMD {2},{1},{0},{3}"
    let dp = DelimitedParser::new(
        "CMD ".to_string(),
        vec![",".to_string(), ",".to_string(), ",".to_string(), "".to_string()],
        Some(vec![2, 1, 0, 3]),
    );

    assert_eq!(dp.parse("CMD 3,2,1,4\n").unwrap(), ["1", "2", "3", "4"]);
}

#[test]
fn delimited_parser_missing_before_is_an_error() {
    let dp = DelimitedParser::new("CMD ".to_string(), vec!["".to_string()], None);
    match dp.parse("  XYZ 1 ") {
        Err(InstrumentError::BadInstrumentResponseString { msg }) => assert_eq!(msg, "  XYZ 1 "),
        other => panic!("unexpected result {:?}", other),
    }
}

#[test]
fn delimited_parser_missing_delimiter_is_an_error() {
    let dp = DelimitedParser::new("CMD ".to_string(), vec![",".to_string(), "".to_string()], None);
    match dp.parse("CMD 1;2") {
        Err(InstrumentError::BadInstrumentResponseString { msg }) => assert_eq!(msg, "CMD 1;2"),
        other => panic!("unexpected result {:?}", other),
    }
}

#[test]
fn delimited_parser_trailing_delimiter_drops_rest() {
    // Command: "<{}>"; the text after the last delimiter is not returned.
    let dp = DelimitedParser::new("<".to_string(), vec![">".to_string()], None);
    assert_eq!(dp.parse("\t<a b>c\u{3000}").unwrap(), ["a b"]);
}

#[test]
fn delimited_parser_before_found_anywhere() {
    // The text up to the first occurrence of `before` is dropped.
    let dp = DelimitedParser::new("=".to_string(), vec!["".to_string()], None);
    assert_eq!(dp.parse("VOLT=3=4").unwrap(), ["3=4"]);
}

#[test]
fn delimited_round_trip_example() {
    // The answer is written like the command "VAL {},{};{}" with the values in place.
    let dp = DelimitedParser::new(
        "VAL ".to_string(),
        vec![",".to_string(), ";".to_string(), "".to_string()],
        None,
    );
    assert_eq!(dp.parse("VAL 1.5,abc;-3").unwrap(), ["1.5", "abc", "-3"]);

    let dp = DelimitedParser::new(
        "VAL ".to_string(),
        vec![",".to_string(), ";".to_string(), "".to_string()],
        Some(vec![2, 0, 1]),
    );
    assert_eq!(dp.parse("VAL 1.5,abc;-3").unwrap(), ["-3", "1.5", "abc"]);
}
