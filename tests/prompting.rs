use intent_patterns::prompting::{
    capture_tool_description, require_field, split_list, validate_test_id, validate_test_ids, PromptError,
};

#[test]
fn split_list_trims_and_drops_blanks() {
    assert_eq!(
        split_list(" a, b;;c \n d ,"),
        vec!["a".to_string(), "b".to_string(), "c".to_string(), "d".to_string()]
    );
    assert!(split_list(" , ; \n").is_empty());
    assert_eq!(split_list("single"), vec!["single".to_string()]);
}

#[test]
fn require_field_needs_a_non_blank_answer() {
    let answers = vec![
        ("goal".to_string(), "ship it".to_string()),
        ("notes".to_string(), "  ".to_string()),
        ("goal".to_string(), "later".to_string()),
    ];
    assert_eq!(require_field(&answers, "goal").ok(), Some("ship it".to_string()));
    assert!(matches!(require_field(&answers, "notes"), Err(PromptError::MissingField(k)) if k == "notes"));
    assert!(matches!(require_field(&answers, "other"), Err(PromptError::MissingField(k)) if k == "other"));
}

#[test]
fn test_ids_are_checked() {
    let tests = vec!["t1".to_string(), "t2".to_string()];
    assert_eq!(validate_test_id(" t2 ", &tests).ok(), Some("t2".to_string()));
    assert!(matches!(validate_test_id("t3", &tests), Err(PromptError::UnknownTestId(k)) if k == "t3"));
    let ids = vec![" t1".to_string(), "t2 ".to_string()];
    assert_eq!(validate_test_ids(&ids, &tests).ok(), Some(vec!["t1".to_string(), "t2".to_string()]));
    let bad = vec!["t1".to_string(), "x".to_string()];
    assert!(matches!(validate_test_ids(&bad, &tests), Err(PromptError::UnknownTestId(k)) if k == "x"));
    assert!(matches!(validate_test_ids(&Vec::new(), &tests), Err(PromptError::NoTestIds)));
}

#[test]
fn tool_description_mentions_capture() {
    assert!(capture_tool_description().starts_with("Capture intent, hypotheses"));
}
