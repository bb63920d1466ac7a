use intent_patterns::covenant::{
    ensure_scope, find_by_id, normalize_scope, upsert_pattern, Covenant, CovenantAction, CovenantScope, PatternEntry,
    ScopeError,
};

fn covenant() -> Covenant {
    Covenant {
        version: "1".to_string(),
        scopes: vec![
            CovenantScope {
                name: "repo".to_string(),
                capabilities: vec!["proposal.exec_command".to_string(), "proposal.apply_patch".to_string()],
            },
            CovenantScope { name: "shell".to_string(), capabilities: vec!["intervention.user_shell".to_string()] },
        ],
    }
}

#[test]
fn covenant_allows_granted_capabilities() {
    let c = covenant();
    assert!(c.allows("repo", CovenantAction::ProposalApplyPatch.as_capability()));
    assert!(c.allows("shell", "intervention.user_shell"));
    assert!(!c.allows("shell", "proposal.exec_command"));
    assert!(!c.allows("other", "proposal.exec_command"));
}

#[test]
fn actions_have_capability_names() {
    assert_eq!(CovenantAction::ProposalExecCommand.as_capability(), "proposal.exec_command");
    assert_eq!(CovenantAction::ProposalApplyPatch.as_capability(), "proposal.apply_patch");
    assert_eq!(CovenantAction::InterventionExecApproval.as_capability(), "intervention.exec_approval");
    assert_eq!(CovenantAction::InterventionPatchApproval.as_capability(), "intervention.patch_approval");
    assert_eq!(CovenantAction::InterventionUserShell.as_capability(), "intervention.user_shell");
}

#[test]
fn scopes_are_trimmed_and_checked() {
    assert_eq!(normalize_scope("  repo ").ok(), Some("repo".to_string()));
    assert!(matches!(normalize_scope("   "), Err(ScopeError::Empty)));
    assert!(ensure_scope("repo", "repo", "event").is_ok());
    match ensure_scope("repo", "shell", "event") {
        Err(ScopeError::Mismatch { entity, expected, actual }) => {
            assert_eq!((entity.as_str(), expected.as_str(), actual.as_str()), ("event", "repo", "shell"));
        }
        _ => panic!("expected a scope mismatch"),
    }
}

#[test]
fn upsert_adds_then_updates() {
    let mut entries: Vec<PatternEntry> = Vec::new();
    assert!(upsert_pattern(&mut entries, "repo", "restart", "first", None, 10).is_ok());
    assert_eq!(entries.len(), 1);
    assert!(upsert_pattern(&mut entries, "repo", "restart", "second", Some("n".to_string()), 20).is_ok());
    assert_eq!(entries.len(), 1);
    assert_eq!(entries[0].pattern, "second");
    assert_eq!(entries[0].notes, Some("n".to_string()));
    assert_eq!(entries[0].updated_at, 20);
    assert!(matches!(
        upsert_pattern(&mut entries, "shell", "restart", "third", None, 30),
        Err(ScopeError::Mismatch { .. })
    ));
    assert_eq!(entries[0].pattern, "second");
}

#[test]
fn find_by_id_returns_first_match() {
    let ids = vec!["a".to_string(), "b".to_string(), "b".to_string()];
    assert_eq!(find_by_id(&ids, "b"), Some(1));
    assert_eq!(find_by_id(&ids, "c"), None);
}
