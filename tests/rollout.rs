use intent_patterns::rollout::{analyze_rollout, ContextSnapshot, RolloutItem, RolloutRecord};

fn rec(ts: Option<i64>, item: RolloutItem) -> RolloutRecord {
    RolloutRecord { timestamp_ms: ts, item }
}

fn ctx(model: &str) -> ContextSnapshot {
    ContextSnapshot {
        model: model.to_string(),
        approval_policy: "never".to_string(),
        sandbox_policy: "read-only".to_string(),
        personality: None,
    }
}

#[test]
fn rollout_counts_turns_overrides_and_recovery() {
    let records = vec![
        rec(Some(0), RolloutItem::TurnContext(ctx("m1"))),
        rec(Some(1), RolloutItem::UserMessage("<ctx> REQ: add the tests".to_string())),
        rec(Some(2), RolloutItem::AgentMessage("added tests".to_string())),
        rec(Some(3), RolloutItem::Failure),
        rec(Some(10), RolloutItem::Failure),
        rec(Some(50), RolloutItem::TurnComplete(None)),
        rec(Some(60), RolloutItem::TurnContext(ctx("m2"))),
        rec(Some(61), RolloutItem::UserMessage("   ".to_string())),
        rec(Some(62), RolloutItem::UserMessage("fix the build".to_string())),
        rec(None, RolloutItem::Failure),
        rec(Some(70), RolloutItem::Failure),
        rec(Some(90), RolloutItem::TurnStarted),
        rec(Some(95), RolloutItem::TurnComplete(Some("build fixed".to_string()))),
        rec(Some(96), RolloutItem::Other),
    ];
    let s = analyze_rollout(&records, "REQ:");
    assert_eq!(s.total_turns, 2);
    assert_eq!(s.turns[0].user_message, "add the tests");
    assert_eq!(s.turns[0].outcome_message, Some("added tests".to_string()));
    assert_eq!(s.turns[1].user_message, "fix the build");
    assert_eq!(s.turns[1].outcome_message, Some("build fixed".to_string()));
    assert_eq!(s.turns_with_outcome, 2);
    assert_eq!(s.override_denominator, 2);
    assert_eq!(s.override_turns, 1);
    assert_eq!(s.recovery_samples_ms, vec![47, 20]);
}

#[test]
fn rollout_of_nothing_is_empty() {
    let s = analyze_rollout(&Vec::new(), "REQ:");
    assert_eq!(s.total_turns, 0);
    assert!(s.recovery_samples_ms.is_empty());
}
