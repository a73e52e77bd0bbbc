use speki_cli::actions::{parse_card_action, str_eq, trim_str, CardAction};

#[test]
fn every_command_code_parses() {
    let table = [
        ("y", CardAction::OldDependency),
        ("Y", CardAction::NewDependency),
        ("t", CardAction::OldDependent),
        ("T", CardAction::NewDependent),
        ("c", CardAction::OldClass),
        ("C", CardAction::NewClass),
        ("p", CardAction::ParentClass),
        ("a", CardAction::OldAttribute),
        ("A", CardAction::NewAttribute),
        ("fa", CardAction::FillAttribute),
        ("ref", CardAction::SetBackRef),
        ("n", CardAction::NewCard),
        ("edit", CardAction::Edit),
        ("delete", CardAction::Delete),
        ("ic", CardAction::IntoClass),
        ("ia", CardAction::IntoAttribute),
        ("is", CardAction::IntoStatement),
        ("ii", CardAction::IntoInstance),
        ("ie", CardAction::IntoEvent),
    ];
    for (code, action) in table {
        assert_eq!(parse_card_action(code), Some(action));
    }
}

#[test]
fn commands_are_read_trimmed() {
    assert_eq!(parse_card_action(" edit \n"), Some(CardAction::Edit));
    assert_eq!(parse_card_action("\tia"), Some(CardAction::IntoAttribute));
}

#[test]
fn unknown_commands_parse_to_nothing() {
    assert_eq!(parse_card_action("x"), None);
    assert_eq!(parse_card_action(""), None);
    assert_eq!(parse_card_action("   "), None);
    assert_eq!(parse_card_action("IA"), None);
    assert_eq!(parse_card_action("e dit"), None);
}

#[test]
fn trim_and_equality_helpers() {
    assert_eq!(trim_str("  hello\t"), "hello");
    assert_eq!(trim_str("\n\n"), "");
    assert_eq!(trim_str("word"), "word");
    assert!(str_eq("abc", "abc"));
    assert!(!str_eq("abc", "abd"));
    assert!(!str_eq("abc", "ab"));
}
