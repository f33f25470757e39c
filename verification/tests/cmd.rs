use instrumentrs::cmd::{CmdDelimiters, CommandParseFormat};

#[test]
fn cpf_empty() {
    let cpf = CommandParseFormat::try_from("");
    assert!(cpf.is_err());
}

#[test]
fn cpf_one_simple_formatter() {
    let cpf = CommandParseFormat::try_from("{}").unwrap();
    assert_eq!(cpf.number_placeholders(), 1);
    assert!(cpf.get_placeholder_order().all_have_no_order());

    let delim_expected = CmdDelimiters::default();
    assert_eq!(*cpf.get_cmd_delimiters(), delim_expected);
}

#[test]
fn cpf_with_last_space() {
    let cpf = CommandParseFormat::try_from("{} ").unwrap();

    assert_eq!(cpf.number_placeholders(), 1);
    assert!(cpf.get_placeholder_order().all_have_no_order());

    let delim_expected = CmdDelimiters { after: " ".to_string(), ..Default::default() };
    assert_eq!(*cpf.get_cmd_delimiters(), delim_expected);
}

#[test]
fn cpf_delimiter() {
    let cpf = CommandParseFormat::try_from("St {}, {},{}   {}end").unwrap();

    assert_eq!(cpf.number_placeholders(), 4);
    assert!(cpf.get_placeholder_order().all_have_no_order());

    let delim_expected = CmdDelimiters {
        before: "St ".to_string(),
        between: vec![", ".to_string(), ",".to_string(), "   ".to_string()],
        after: "end".to_string(),
    };
    assert_eq!(*cpf.get_cmd_delimiters(), delim_expected);
}

#[test]
fn cpf_get_order_all_ordered() {
    let cpf = CommandParseFormat::try_from("{2} {0} {4} {3} ASDF {1}").unwrap();

    let expected_order = [2, 0, 4, 3, 1];
    assert_eq!(cpf.get_placeholder_order().get_sorting(), expected_order);
}

#[test]
fn cpf_get_order_all_unordered() {
    let cpf = CommandParseFormat::try_from("{} {} {} {}").unwrap();
    assert_eq!(cpf.get_placeholder_order().get_sorting(), [0, 1, 2, 3]);
}

#[test]
fn cpf_errors_have_messages() {
    assert_eq!(
        CommandParseFormat::try_from("no brackets").unwrap_err(),
        "command no brackets contains no placeholder"
    );
    assert_eq!(CommandParseFormat::try_from("A {x}").unwrap_err(), "cannot parse x to usize");
    assert_eq!(
        CommandParseFormat::try_from("{} {").unwrap().number_placeholders(),
        1
    );
}

#[test]
fn cpf_format_with_one() {
    let cpf = CommandParseFormat::try_from("S({})").unwrap();
    assert_eq!(cpf.format_with_one("1").unwrap(), "S(1)");
    let cpf = CommandParseFormat::try_from("{} {}").unwrap();
    assert_eq!(
        cpf.format_with_one("1").unwrap_err(),
        "number of {} placeholders in formatting string must be equal to one"
    );
    let cpf = CommandParseFormat::try_from("A{0}").unwrap();
    assert_eq!(
        cpf.format_with_one("1").unwrap_err(),
        "the command string has order and thus cannot be formatted in this way."
    );
}

#[test]
fn cpf_sort_slice() {
    let cpf = CommandParseFormat::try_from("{2} {0} {1}").unwrap();
    let fields = ["a", "b", "c"];
    let sorted: Vec<&&str> = cpf.get_placeholder_order().sort_slice(&fields);
    assert_eq!(sorted, [&"b", &"c", &"a"]);
    assert_eq!(cpf.get_placeholder_order().len(), 3);
    assert!(!cpf.get_placeholder_order().has_mixed_order());
    assert!(cpf.get_placeholder_order().all_have_order());
}

#[test]
fn cpf_parts_rebuild_command() {
    let cmd = "St {}, {},{}   {}end";
    let cpf = CommandParseFormat::try_from(cmd).unwrap();
    let d = cpf.get_cmd_delimiters();
    let mut rebuilt = format!("{}{{}}", d.before);
    for b in &d.between {
        rebuilt.push_str(b);
        rebuilt.push_str("{}");
    }
    rebuilt.push_str(&d.after);
    assert_eq!(rebuilt, cmd);
    assert_eq!(cpf.get_command(), cmd);
}

#[test]
fn cpf_command_is_its_parts() {
    let cmd = "SET {1},x{0} END";
    let cpf = CommandParseFormat::try_from(cmd).unwrap();
    let d = cpf.get_cmd_delimiters();
    assert_eq!(d.before, "SET ");
    assert_eq!(d.between, vec![",x".to_string()]);
    assert_eq!(d.after, " END");
    let inners = ["1", "0"];
    let befores: Vec<&str> = std::iter::once(d.before.as_str())
        .chain(d.between.iter().map(|s| s.as_str()))
        .collect();
    let mut rebuilt = String::new();
    for k in 0..cpf.number_placeholders() {
        rebuilt.push_str(befores[k]);
        rebuilt.push('{');
        rebuilt.push_str(inners[k]);
        rebuilt.push('}');
    }
    rebuilt.push_str(&d.after);
    assert_eq!(rebuilt, cmd);
    assert_eq!(cpf.get_command(), cmd);
}
