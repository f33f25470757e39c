use instrumentrs::command_parser::{CommandParser, CommandSeparation};
use instrumentrs::placeholder::{CommandParserError, PlaceholderType};

#[test]
fn unordered_simple() {
    let bp = CommandParser::try_from("{}").unwrap();

    assert_eq!(bp.cmd(), "{}");
    assert_eq!(*bp.left_pos(), vec![0]);
    assert_eq!(*bp.right_pos(), vec![1]);
    assert_eq!(*bp.in_between(), vec![PlaceholderType::Unordered]);
    assert_eq!(bp.parser_type(), CommandSeparation::Delimiter);
}

#[test]
fn unordered_multiple() {
    let bp = CommandParser::try_from("CMD {},{},{}").unwrap();

    assert_eq!(bp.cmd(), "CMD {},{},{}");
    assert_eq!(*bp.left_pos(), vec![4, 7, 10]);
    assert_eq!(*bp.right_pos(), vec![5, 8, 11]);
    assert_eq!(
        *bp.in_between(),
        vec![PlaceholderType::Unordered, PlaceholderType::Unordered, PlaceholderType::Unordered]
    );
    assert_eq!(bp.parser_type(), CommandSeparation::Delimiter);
}

#[test]
fn positional_simple() {
    let bp = CommandParser::try_from("{0}").unwrap();

    assert_eq!(bp.cmd(), "{0}");
    assert_eq!(*bp.left_pos(), vec![0]);
    assert_eq!(*bp.right_pos(), vec![2]);
    assert_eq!(*bp.in_between(), vec![PlaceholderType::Pos { pos: 0 }]);
    assert_eq!(bp.parser_type(), CommandSeparation::Delimiter);
}

#[test]
fn positional_multiple() {
    let bp = CommandParser::try_from("CMD {1},{0},{2}").unwrap();

    assert_eq!(bp.cmd(), "CMD {1},{0},{2}");
    assert_eq!(*bp.left_pos(), vec![4, 8, 12]);
    assert_eq!(*bp.right_pos(), vec![6, 10, 14]);
    assert_eq!(
        *bp.in_between(),
        vec![
            PlaceholderType::Pos { pos: 1 },
            PlaceholderType::Pos { pos: 0 },
            PlaceholderType::Pos { pos: 2 },
        ]
    );
    assert_eq!(bp.parser_type(), CommandSeparation::Delimiter);
}

#[test]
fn charlength_simple() {
    let bp = CommandParser::try_from("{:3}").unwrap();

    assert_eq!(bp.cmd(), "{:3}");
    assert_eq!(*bp.left_pos(), vec![0]);
    assert_eq!(*bp.right_pos(), vec![3]);
    assert_eq!(*bp.in_between(), vec![PlaceholderType::CharLength { length: 3 }]);
    assert_eq!(bp.parser_type(), CommandSeparation::CharLength);
}

#[test]
fn charlength_multiple() {
    let bp = CommandParser::try_from("CMD {:3},{:1},{:42}").unwrap();

    assert_eq!(bp.cmd(), "CMD {:3},{:1},{:42}");
    assert_eq!(*bp.left_pos(), vec![4, 9, 14]);
    assert_eq!(*bp.right_pos(), vec![7, 12, 18]);
    assert_eq!(
        *bp.in_between(),
        vec![
            PlaceholderType::CharLength { length: 3 },
            PlaceholderType::CharLength { length: 1 },
            PlaceholderType::CharLength { length: 42 }
        ]
    );
    assert_eq!(bp.parser_type(), CommandSeparation::CharLength);
}

#[test]
fn charlengthpos_simple() {
    let bp = CommandParser::try_from("{0:3}").unwrap();

    assert_eq!(bp.cmd(), "{0:3}");
    assert_eq!(*bp.left_pos(), vec![0]);
    assert_eq!(*bp.right_pos(), vec![4]);
    assert_eq!(*bp.in_between(), vec![PlaceholderType::CharLengthPos { pos: 0, length: 3 }]);
    assert_eq!(bp.parser_type(), CommandSeparation::CharLength);
}

#[test]
fn charlengthpos_multiple() {
    let bp = CommandParser::try_from("CMD {2:3},{0:1},{1:42}").unwrap();

    assert_eq!(bp.cmd(), "CMD {2:3},{0:1},{1:42}");
    assert_eq!(*bp.left_pos(), vec![4, 10, 16]);
    assert_eq!(*bp.right_pos(), vec![8, 14, 21]);
    assert_eq!(
        *bp.in_between(),
        vec![
            PlaceholderType::CharLengthPos { pos: 2, length: 3 },
            PlaceholderType::CharLengthPos { pos: 0, length: 1 },
            PlaceholderType::CharLengthPos { pos: 1, length: 42 },
        ]
    );
    assert_eq!(bp.parser_type(), CommandSeparation::CharLength);
}

#[test]
fn get_delimiter_order_simple_unordered() {
    let bp = CommandParser::try_from("{}").unwrap();
    let (before, after) = bp.get_delimiter();
    let sort_keys = bp.get_sort_index_keys();

    assert_eq!(before, "");
    assert_eq!(after, [""]);
    assert!(sort_keys.is_none());
}

#[test]
fn get_delimiter_order_multi_unordered() {
    let bp = CommandParser::try_from("CMD {}, {},{}").unwrap();
    let (before, after) = bp.get_delimiter();
    let sort_keys = bp.get_sort_index_keys();

    assert_eq!(before, "CMD ");
    assert_eq!(after, [", ", ",", ""]);
    assert!(sort_keys.is_none());
}

#[test]
fn get_delimiter_order_multi_unordered_with_after() {
    let bp = CommandParser::try_from("CMD {}, {},{}after").unwrap();
    let (before, after) = bp.get_delimiter();
    let sort_keys = bp.get_sort_index_keys();

    assert_eq!(before, "CMD ");
    assert_eq!(after, [", ", ",", "after"]);
    assert!(sort_keys.is_none());
}

#[test]
fn get_sort_keys_positional_multi() {
    let bp = CommandParser::try_from("CMD {1},{3},{2},{0}").unwrap();
    assert_eq!(bp.get_sort_index_keys().unwrap(), [3, 0, 2, 1]);
}

/// Gaps are allowed in the sort keys. These are sort keys, not sort indices!
#[test]
fn get_sort_keys_positional_without_gaps() {
    let bp = CommandParser::try_from("CMD {10},{5},{42},{6}").unwrap();
    assert_eq!(bp.get_sort_index_keys().unwrap(), [1, 3, 0, 2]);
}

#[test]
fn err_unmatched_bracket() {
    assert!(matches!(
        CommandParser::try_from("{} {").unwrap_err(),
        CommandParserError::InvalidPlaceholder
    ));
}

#[test]
fn err_no_placeholder() {
    assert!(matches!(
        CommandParser::try_from("").unwrap_err(),
        CommandParserError::NoPlaceholder
    ));
}

#[test]
fn err_mixed_placeholders() {
    assert!(matches!(
        CommandParser::try_from("{} {1}").unwrap_err(),
        CommandParserError::MixedPlaceholder
    ));
    assert!(matches!(
        CommandParser::try_from("{} {:333}").unwrap_err(),
        CommandParserError::MixedPlaceholder
    ));
    assert!(matches!(
        CommandParser::try_from("{0} {3:333}").unwrap_err(),
        CommandParserError::MixedPlaceholder
    ));
}

#[test]
fn err_position_not_unique() {
    assert!(matches!(
        CommandParser::try_from("{0} {1} {1} {2}").unwrap_err(),
        CommandParserError::PositionNotUnique
    ));
    assert!(matches!(
        CommandParser::try_from("{0:3} {1:3} {1:9} {2:3}").unwrap_err(),
        CommandParserError::PositionNotUnique
    ));
}

#[test]
fn err_placeholder_in_placeholder() {
    assert!(matches!(
        CommandParser::try_from("{{}}").unwrap_err(),
        CommandParserError::InvalidPlaceholder
    ));
    assert!(matches!(
        CommandParser::try_from("{} {    {} }, {}").unwrap_err(),
        CommandParserError::InvalidPlaceholder
    ));
}

#[test]
fn err_delimited_placeholders_with_zero_length_delimiters() {
    assert!(matches!(
        CommandParser::try_from("{} {}{}").unwrap_err(),
        CommandParserError::DelimiterNotFound
    ));
}

#[test]
fn escaped_brackets_are_not_placeholders() {
    let bp = CommandParser::try_from("A\\{x\\} {}").unwrap();
    assert_eq!(*bp.left_pos(), vec![7]);
    assert_eq!(*bp.right_pos(), vec![8]);
    let (before, after) = bp.get_delimiter();
    assert_eq!(before, "A\\{x\\} ");
    assert_eq!(after, [""]);
}

#[test]
fn char_length_commands_need_no_delimiter() {
    let bp = CommandParser::try_from("{:2}{:3}").unwrap();
    assert_eq!(bp.parser_type(), CommandSeparation::CharLength);
    assert!(bp.get_sort_index_keys().is_none());
    let bp = CommandParser::try_from("{1:2}{0:3}").unwrap();
    assert_eq!(bp.get_sort_index_keys().unwrap(), [1, 0]);
}

#[test]
fn stray_closing_brackets_are_accepted_out_of_order() {
    let bp = CommandParser::try_from("}{").unwrap();
    assert_eq!(*bp.left_pos(), vec![1]);
    assert_eq!(*bp.right_pos(), vec![0]);

    let bp = CommandParser::try_from("{}}{").unwrap();
    assert_eq!(*bp.left_pos(), vec![0, 3]);
    assert_eq!(*bp.right_pos(), vec![1, 2]);
}

#[test]
fn delimiters_rebuild_paired_command() {
    let cmd = "MEAS {} ,{}; {}\\{ end";
    let bp = CommandParser::try_from(cmd).unwrap();
    let left = bp.left_pos().clone();
    let right = bp.right_pos().clone();
    let chars: Vec<char> = cmd.chars().collect();
    for k in 0..left.len() {
        assert!(left[k] < right[k]);
        assert_eq!(chars[left[k]], '{');
        assert_eq!(chars[right[k]], '}');
    }
    let (before, after) = bp.get_delimiter();
    let mut rebuilt = before.clone();
    for k in 0..left.len() {
        rebuilt.push('{');
        rebuilt.extend(chars[left[k] + 1..right[k]].iter());
        rebuilt.push('}');
        rebuilt.push_str(&after[k]);
    }
    assert_eq!(rebuilt, cmd);
    assert_eq!(before, "MEAS ");
    assert_eq!(after, vec![" ,".to_string(), "; ".to_string(), "\\{ end".to_string()]);
}
