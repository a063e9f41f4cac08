use diagwiz::parser::diagram;

#[test]
fn parse_diagram_empty() {
    let data = "";
    let result = diagram(String::from(data)).unwrap();
    assert_eq!(result.aliases.len(), 0);
    assert_eq!(result.messages.len(), 0);
}

#[test]
fn parse_comment() {
    let data = r#"
        # test
        // comment
        "#;
    let result = diagram(String::from(data)).unwrap();
    assert_eq!(result.aliases.len(), 0);
    assert_eq!(result.messages.len(), 0);
}

#[test]
fn parse_empty_message() {
    let data = "a->b";
    let result = diagram(String::from(data)).unwrap();
    assert_eq!(result.messages.len(), 1);
    assert_eq!(result.messages[0].payload, "");
}

#[test]
fn parse_message_payload_with_unicode() {
    let data = r#"a->b: "𩸽""#;
    let result = diagram(String::from(data)).unwrap();
    assert_eq!(result.messages.len(), 1);
    assert_eq!(result.messages[0].payload, "𩸽");
}

#[test]
#[should_panic]
fn parse_message_payload_with_escape_sequences() {
    let data = "a->b: \"\\\"hello\\\"\"\n";
    let result = diagram(String::from(data)).unwrap();
    assert_eq!(result.messages.len(), 1);
    assert_eq!(result.messages[0].payload, "\"hello\"");
}

#[test]
fn disallows_keyword_identifiers() {
    let data = "alias alias = \"aliasson\"";
    let result = diagram(String::from(data));
    assert!(result.is_err());
}

#[test]
fn disallows_idedntifiers_with_numeric_prefix() {
    let data = "alias 1a = \"b\"";
    let result = diagram(String::from(data));
    assert!(result.is_err());
}

#[test]
fn allows_identifier_with_keyword_substring() {
    let data = "alias aliassson = \"aliasson\"";
    let result = diagram(String::from(data));
    assert!(!result.is_err());
}

#[test]
fn allows_underscores_in_identifiers() {
    let data = "alias _a_b_ = \"c\"";
    let result = diagram(String::from(data));
    assert!(!result.is_err());
}

#[test]
fn requires_a_space_after_alias_keyword() {
    let data = "aliasabc = \"d\"";
    let result = diagram(String::from(data));
    assert!(result.is_err());
}
