use instrumentrs::placeholder::{CommandParserError, PlaceholderType};

#[test]
fn unordered_placeholder() {
    assert!(matches!(PlaceholderType::try_from("").unwrap(), PlaceholderType::Unordered));
}

#[test]
fn positional_placeholder() {
    assert!(matches!(PlaceholderType::try_from("0").unwrap(), PlaceholderType::Pos { pos: 0 }));
    assert!(matches!(PlaceholderType::try_from("42").unwrap(), PlaceholderType::Pos { pos: 42 }));
}

#[test]
fn char_length_placeholder() {
    assert!(matches!(
        PlaceholderType::try_from(":3").unwrap(),
        PlaceholderType::CharLength { length: 3 }
    ));
    assert!(matches!(
        PlaceholderType::try_from(":1").unwrap(),
        PlaceholderType::CharLength { length: 1 }
    ));
}

#[test]
fn char_length_positional_placeholder() {
    assert!(matches!(
        PlaceholderType::try_from("0:3").unwrap(),
        PlaceholderType::CharLengthPos { pos: 0, length: 3 }
    ));
    assert!(matches!(
        PlaceholderType::try_from("42:13").unwrap(),
        PlaceholderType::CharLengthPos { pos: 42, length: 13 }
    ));
}

#[test]
fn invalid_placeholders() {
    assert!(matches!(
        PlaceholderType::try_from("a").unwrap_err(),
        CommandParserError::InvalidPlaceholder
    ));
    assert!(matches!(
        PlaceholderType::try_from(":asdf").unwrap_err(),
        CommandParserError::InvalidPlaceholder
    ));
    assert!(matches!(
        PlaceholderType::try_from("3:").unwrap_err(),
        CommandParserError::InvalidPlaceholder
    ));
    assert!(matches!(
        PlaceholderType::try_from("a:3").unwrap_err(),
        CommandParserError::InvalidPlaceholder
    ));
    assert!(matches!(
        PlaceholderType::try_from("3:3:3").unwrap_err(),
        CommandParserError::InvalidPlaceholder
    ));
}

#[test]
fn placeholder_numbers_follow_usize_parsing() {
    assert_eq!(PlaceholderType::try_from("+7").unwrap(), PlaceholderType::Pos { pos: 7 });
    assert_eq!(PlaceholderType::try_from("+").unwrap_err(), CommandParserError::InvalidPlaceholder);
    assert_eq!(PlaceholderType::try_from("-1").unwrap_err(), CommandParserError::InvalidPlaceholder);
    assert_eq!(
        PlaceholderType::try_from("99999999999999999999999").unwrap_err(),
        CommandParserError::InvalidPlaceholder
    );
    assert_eq!(PlaceholderType::try_from(":0").unwrap_err(), CommandParserError::InvalidPlaceholder);
    assert_eq!(
        PlaceholderType::try_from("007:+2").unwrap(),
        PlaceholderType::CharLengthPos { pos: 7, length: 2 }
    );
}

#[test]
fn placeholder_same_type() {
    let a = PlaceholderType::Pos { pos: 1 };
    let b = PlaceholderType::Pos { pos: 9 };
    let c = PlaceholderType::CharLengthPos { pos: 1, length: 2 };
    assert!(a.is_same_type(&b));
    assert!(!a.is_same_type(&c));
    assert!(PlaceholderType::Unordered.is_same_type(&PlaceholderType::Unordered));
    assert!(!PlaceholderType::CharLength { length: 1 }.is_same_type(&PlaceholderType::Unordered));
}
