use instrumentrs::cmd::CommandParseFormat;
use instrumentrs::errors::InstrumentError;
use instrumentrs::parameter::{check_duplicates, get_named_attribute_index, variant_from_writable};

fn strings(v: &[&str]) -> Vec<String> {
    v.iter().map(|s| s.to_string()).collect()
}

/// The texts of the variants of an enum with the command `cmd` and the parameters `params`.
fn variant_texts(cmd: &str, params: &[&str]) -> Vec<String> {
    let cpf = CommandParseFormat::try_new_enum(cmd).unwrap();
    cpf.variant_texts(&strings(params))
}

#[derive(Debug, Clone, Copy, PartialEq)]
enum MyEnum {
    Item1,
    Item2,
    Item3,
}

const MY_ENUM: [MyEnum; 3] = [MyEnum::Item1, MyEnum::Item2, MyEnum::Item3];

fn my_enum_texts() -> Vec<String> {
    variant_texts("command {}", &["a", "b", "c"])
}

fn my_enum_to_writable(v: MyEnum) -> String {
    let k = MY_ENUM.iter().position(|x| *x == v).unwrap();
    my_enum_texts()[k].clone()
}

fn my_enum_try_from_writable(val: String) -> Result<MyEnum, InstrumentError> {
    variant_from_writable(&my_enum_texts(), val.as_str()).map(|k| MY_ENUM[k])
}

#[test]
fn to_writable() {
    assert_eq!(my_enum_to_writable(MyEnum::Item1), "command a");
    assert_eq!(my_enum_to_writable(MyEnum::Item2), "command b");
    assert_eq!(my_enum_to_writable(MyEnum::Item3), "command c");
}

#[test]
fn try_from_writable() {
    assert!(matches!(
        my_enum_try_from_writable("command a".to_string()).unwrap(),
        MyEnum::Item1
    ));
    assert!(matches!(
        my_enum_try_from_writable("command b".to_string()).unwrap(),
        MyEnum::Item2
    ));
    assert!(matches!(
        my_enum_try_from_writable("command c".to_string()).unwrap(),
        MyEnum::Item3
    ));
}

#[test]
fn try_from_writable_with_eol() {
    assert!(matches!(
        my_enum_try_from_writable("command a\n".to_string()).unwrap(),
        MyEnum::Item1
    ));
    assert!(matches!(
        my_enum_try_from_writable("command b\n".to_string()).unwrap(),
        MyEnum::Item2
    ));
    assert!(matches!(
        my_enum_try_from_writable("command c\n".to_string()).unwrap(),
        MyEnum::Item3
    ));
}

#[test]
fn try_from_writable_unknown_text() {
    match my_enum_try_from_writable("  command d \n".to_string()) {
        Err(InstrumentError::BadInstrumentResponseString { msg }) => assert_eq!(msg, "command d"),
        other => panic!("unexpected result {:?}", other),
    }
}

// The texts of the enums that the struct tests use.
fn channel(k: usize) -> String {
    variant_texts("{}", &["A", "B", "C", "D"])[k].clone()
}

fn status(k: usize) -> String {
    variant_texts("S-{}", &["OFF", "ON", "UDEF"])[k].clone()
}

const CH_A: usize = 0;
const CH_C: usize = 2;
const ST_OFF: usize = 0;
const ST_ON: usize = 1;
const ST_UDEF: usize = 2;

fn struct_to_writable(cmd: &str, fields: Vec<String>) -> String {
    let cpf = CommandParseFormat::try_new_struct(cmd, fields.len()).unwrap();
    cpf.write_fields(&fields).unwrap()
}

#[test]
fn struct_no_ordering_2() {
    let expected = "SET A,S-ON";
    let received = struct_to_writable("SET {},{}", vec![channel(CH_A), status(ST_ON)]);
    assert_eq!(received, expected);
}

#[test]
fn struct_full_ordering_2() {
    let expected = "SET S-ON,A";
    let received = struct_to_writable("SET {1},{0}", vec![channel(CH_A), status(ST_ON)]);
    assert_eq!(received, expected);
}

#[test]
fn struct_no_ordering_4() {
    let expected = "CH 1A,1sS-UDEF : 2C,2sS-OFF";
    let received = struct_to_writable(
        "CH 1{},1s{} : 2{},2s{}",
        vec![channel(CH_A), status(ST_UDEF), channel(CH_C), status(ST_OFF)],
    );
    assert_eq!(received, expected);
}

#[test]
fn struct_full_ordering_4() {
    let expected = "CH 1C,1sS-OFF : 2A,2sS-UDEF";
    let received = struct_to_writable(
        "CH 1{2},1s{3} : 2{0},2s{1}",
        vec![channel(CH_A), status(ST_UDEF), channel(CH_C), status(ST_OFF)],
    );
    assert_eq!(received, expected);
}

#[test]
fn write_fields_unescapes_brackets() {
    let cpf = CommandParseFormat::try_from("a}}b {} c{{").unwrap();
    assert_eq!(cpf.write_fields(&strings(&["X"])).unwrap(), "a}b X c{");
}

#[test]
fn write_fields_refused() {
    // a single closing bracket
    let cpf = CommandParseFormat::try_from("a}b {}").unwrap();
    assert!(cpf.write_fields(&strings(&["X"])).is_none());
    // orders that do not name each field once
    let cpf = CommandParseFormat::try_from("{0} {0}").unwrap();
    assert!(cpf.write_fields(&strings(&["X", "Y"])).is_none());
    let cpf = CommandParseFormat::try_from("{0} {2}").unwrap();
    assert!(cpf.write_fields(&strings(&["X", "Y"])).is_none());
    // mixed orders
    let cpf = CommandParseFormat::try_from("{} {0}").unwrap();
    assert!(cpf.write_fields(&strings(&["X", "Y"])).is_none());
    // wrong number of fields
    let cpf = CommandParseFormat::try_from("{} {}").unwrap();
    assert!(cpf.write_fields(&strings(&["X"])).is_none());
}

#[test]
fn read_fields_round_trip() {
    let cpf = CommandParseFormat::try_new_struct("{1},{0};", 2).unwrap();
    let fields = strings(&["A", "S-ON"]);
    let written = cpf.write_fields(&fields).unwrap();
    assert_eq!(written, "S-ON,A;");
    assert_eq!(cpf.read_fields(&written).unwrap(), fields);
}

#[test]
fn read_fields_keeps_text_in_front() {
    // The text in front of the first placeholder is not taken off.
    let cpf = CommandParseFormat::try_new_struct("SET {},{}", 2).unwrap();
    assert_eq!(cpf.read_fields("SET A,S-ON").unwrap(), strings(&["SET A", "S-ON"]));
    // The text in front must be in the answer, and so must each delimiter.
    assert!(cpf.read_fields("GET A,S-ON").is_none());
    assert!(cpf.read_fields("SET A;S-ON").is_none());
}

#[test]
fn read_fields_with_orders() {
    let cpf = CommandParseFormat::try_new_struct("{2}:{0}:{1}", 3).unwrap();
    // each field takes the text of the placeholder that its sort key names
    assert_eq!(cpf.read_fields("x:y:z").unwrap(), strings(&["z", "x", "y"]));
}

#[test]
fn try_new_enum_errors() {
    let msg = "command string must have exactly one empty {}";
    assert_eq!(CommandParseFormat::try_new_enum("{} {}").unwrap_err(), msg);
    assert_eq!(CommandParseFormat::try_new_enum("{0}").unwrap_err(), msg);
    assert_eq!(CommandParseFormat::try_new_enum("none").unwrap_err(), msg);
    assert!(CommandParseFormat::try_new_enum("S-{}").is_ok());
}

#[test]
fn try_new_struct_errors() {
    assert_eq!(
        CommandParseFormat::try_new_struct("SET {},{}", 3).unwrap_err(),
        "struct has 3 field(s) but 2 placeholders were provided"
    );
    assert_eq!(
        CommandParseFormat::try_new_struct("SET {},{1}", 2).unwrap_err(),
        "a mix of positional {0} and non positional {} placeholders is not allowed"
    );
    assert_eq!(
        CommandParseFormat::try_new_struct("SET {a}", 1).unwrap_err(),
        "cannot parse a to usize"
    );
    assert_eq!(
        CommandParseFormat::try_new_struct("SET", 0).unwrap_err(),
        "command SET contains no placeholder"
    );
}

#[test]
fn duplicates_found() {
    let vals = strings(&["A", "B", "A", "C", "B", "A"]);
    assert_eq!(check_duplicates(&vals), vec![2, 4, 5]);
    assert!(check_duplicates(&strings(&["A", "B"])).is_empty());
}

#[test]
fn named_attribute() {
    let names = strings(&["doc", "param", "cmd", "param"]);
    assert_eq!(get_named_attribute_index(&names, "param"), Ok(1));
    assert_eq!(get_named_attribute_index(&names, "cmd"), Ok(2));
    assert_eq!(
        get_named_attribute_index(&names, "other"),
        Err("missing attribute for derive InstrumentParam: #[other(...)]".to_string())
    );
}
