use instrumentrs::template::CommandParseFormat;

#[test]
fn cmd_cpf_empty() {
    let cpf = CommandParseFormat::try_from("").unwrap();
    assert_eq!(cpf.number_placeholders(), 0);
    assert!(cpf.end_of_command().is_empty());
}

#[test]
fn cmd_cpf_one_simple_formatter() {
    let cpf = CommandParseFormat::try_from("{}").unwrap();
    assert_eq!(cpf.number_placeholders(), 1);
    assert!(cpf.all_have_no_order());
    assert!(cpf.end_of_command().is_empty());
}

#[test]
fn cmd_cpf_with_last_space() {
    let cpf = CommandParseFormat::try_from("{} ").unwrap();

    assert_eq!(cpf.number_placeholders(), 1);
    assert!(cpf.all_have_no_order());
    assert_eq!(cpf.end_of_command(), " ");
}

#[test]
fn cpf_get_whats_in_between() {
    let cpf = CommandParseFormat::try_from("St {}, {},{}   {}end").unwrap();

    assert_eq!(cpf.number_placeholders(), 4);
    assert!(cpf.all_have_no_order());
    assert_eq!(cpf.end_of_command(), "end");

    let expected_in_betweens = ["St ", ", ", ",", "   ", "end"];
    let received_in_betweens = cpf.get_in_betweens();
    assert_eq!(received_in_betweens, expected_in_betweens);
}

#[test]
fn cmd_cpf_get_order_all_ordered() {
    let cpf = CommandParseFormat::try_from("{2} {0} {4} {3} ASDF {1}").unwrap();

    let expected_order = [2, 0, 4, 3, 1];
    assert_eq!(cpf.get_order(), expected_order);
}

#[test]
fn cmd_cpf_get_order_all_unordered() {
    let cpf = CommandParseFormat::try_from("{} {} {} {}").unwrap();
    assert_eq!(cpf.get_order(), [0, 1, 2, 3]);
}

#[test]
fn cpf_get_order_mixed() {
    let cpf = CommandParseFormat::try_from("{} {3} {} {0}").unwrap();
    let expected_order = [1, 3, 2, 0];
    assert_eq!(cpf.get_order(), expected_order);

    let cpf = CommandParseFormat::try_from("{} {3} {1} {2}").unwrap();
    let expected_order = [0, 3, 1, 2];
    assert_eq!(cpf.get_order(), expected_order);

    let cpf = CommandParseFormat::try_from("{} {1} {2} {}").unwrap();
    let expected_order = [0, 1, 2, 3];
    assert_eq!(cpf.get_order(), expected_order);
}

#[test]
fn template_mixed_and_format() {
    let cpf = CommandParseFormat::try_from("{} {0}").unwrap();
    assert!(cpf.have_mixed_order());
    assert!(!cpf.all_have_order());
    let cpf = CommandParseFormat::try_from("command {}").unwrap();
    assert_eq!(cpf.format_with_one("a").unwrap(), "command a");
    assert_eq!(CommandParseFormat::try_from("{z}").unwrap_err(), "cannot parse z to usize");
}

#[test]
fn template_checks_for_derives() {
    assert_eq!(
        CommandParseFormat::try_new_enum("{0}").unwrap_err(),
        "command string must have exactly one empty {}"
    );
    assert_eq!(
        CommandParseFormat::try_new_enum("{a}").unwrap_err(),
        "ordered placeholders are not allowed for enums"
    );
    let cpf = CommandParseFormat::try_new_enum("S-{}").unwrap();
    assert_eq!(cpf.get_command(), "S-{}");
    assert_eq!(
        CommandParseFormat::try_new_struct("{} {1}").unwrap_err(),
        "a mix of positional, e.g., {0}, and non positional {} placeholder arguments is not allowed"
    );
    let cpf = CommandParseFormat::try_new_struct("A {1} B {0}").unwrap();
    assert!(cpf.check_field_count(2).is_ok());
    assert_eq!(
        cpf.check_field_count(3).unwrap_err(),
        "number of fields does not match number of placeholders"
    );
}

#[test]
fn template_read_fields() {
    let cpf = CommandParseFormat::try_new_struct("SET {1},{0};").unwrap();
    // The text in front is taken off; the texts go to the fields sorted by their order.
    assert_eq!(
        cpf.read_fields("xSET a,b;", 2).unwrap(),
        vec!["b".to_string(), "a".to_string()]
    );
    // A missing piece: the derived code would panic.
    assert!(cpf.read_fields("SET a;b", 2).is_none());
    // Without orders, the texts go to the fields in order.
    let cpf = CommandParseFormat::try_new_struct("<{}|{}>").unwrap();
    assert_eq!(
        cpf.read_fields("<1|2>", 2).unwrap(),
        vec!["1".to_string(), "2".to_string()]
    );
    // Only as many fields as there are placeholders.
    assert_eq!(cpf.read_fields("<1|2>", 5).unwrap().len(), 2);
}

#[test]
fn get_order_keeps_given_orders() {
    let cpf = CommandParseFormat::try_from("{} {0} {} {1}").unwrap();
    let order = cpf.get_order();
    assert_eq!(order[1], 0);
    assert_eq!(order[3], 1);
    assert_eq!(order, [1, 0, 2, 1]);
}
