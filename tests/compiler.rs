use intent_patterns::compiler::{
    compile, event_key_of, stored_pattern_key, ClusteringPolicy, Pattern, PatternKey, ResolvedEvent,
};
use intent_patterns::outcome::Outcome;

fn event(
    id: &str,
    trigger: &str,
    invariant: Option<&str>,
    outcome: Outcome,
    response: Option<&str>,
    evidence: Vec<&str>,
) -> ResolvedEvent {
    ResolvedEvent {
        id: id.to_string(),
        trigger: trigger.to_string(),
        invariant: invariant.map(str::to_string),
        outcome,
        response: response.map(str::to_string),
        evidence: evidence.into_iter().map(str::to_string).collect(),
    }
}

fn keys_of(patterns: &[Pattern]) -> Vec<PatternKey> {
    patterns.iter().map(|p| p.key.clone()).collect()
}

fn summary(p: &Pattern) -> (String, Option<String>, Option<String>, Option<String>, Vec<String>, String, usize) {
    (
        p.trigger.clone(),
        p.invariant.clone(),
        p.counterexample.clone(),
        p.best_response.clone(),
        p.supporting_evidence.clone(),
        p.outcome.label(),
        p.support_count,
    )
}

#[test]
fn compile_groups_repeated_events() {
    let events = vec![
        event("1", "Disk full error", Some("Writes fail"), Outcome::Failure, Some("Free space"), vec!["log-1"]),
        event("2", "Disk full error", Some("Writes fail"), Outcome::Failure, Some("Free space"), vec!["log-2"]),
    ];

    let patterns = compile(&events, &Vec::new(), ClusteringPolicy::EventCount);

    assert_eq!(patterns.len(), 1);
    let p = &patterns[0];
    assert_eq!(p.trigger, "Disk full error");
    assert_eq!(p.invariant, Some("Writes fail".to_string()));
    assert_eq!(p.counterexample, None);
    assert_eq!(p.best_response, Some("Free space".to_string()));
    assert_eq!(p.members, vec![0, 1]);
    assert_eq!(p.supporting_evidence, vec!["log-1".to_string(), "log-2".to_string()]);
    assert!(matches!(p.outcome, Outcome::Failure));
    assert_eq!(p.support_count, 2);
}

#[test]
fn compile_records_counterexample() {
    let events = vec![
        event("1", "Cache miss", Some("Cold start"), Outcome::Failure, Some("Warm cache"), vec![]),
        event("2", "Cache miss", Some("Cold start"), Outcome::Success, Some("Warm cache"), vec![]),
    ];

    let patterns = compile(&events, &Vec::new(), ClusteringPolicy::EventCount);

    assert_eq!(patterns.len(), 1);
    let p = &patterns[0];
    assert_eq!(p.trigger, "Cache miss");
    assert_eq!(p.invariant, Some("Cold start".to_string()));
    assert_eq!(p.counterexample, Some("Cache miss -> success".to_string()));
    assert_eq!(p.best_response, Some("Warm cache".to_string()));
    assert_eq!(p.members, vec![0, 1]);
    assert_eq!(p.supporting_evidence, vec!["1".to_string(), "2".to_string()]);
    assert!(matches!(p.outcome, Outcome::Mixed));
    assert_eq!(p.support_count, 2);
}

#[test]
fn compile_needs_two_events() {
    let events = vec![
        event("1", "Disk full error", None, Outcome::Failure, None, vec!["log-1"]),
        event("2", "Network timeout", None, Outcome::Failure, None, vec!["log-2"]),
    ];
    assert!(compile(&events, &Vec::new(), ClusteringPolicy::EventCount).is_empty());
}

#[test]
fn compile_evidence_gate_counts_events_with_evidence() {
    let events = vec![
        event("1", "Disk full", Some("Writes fail"), Outcome::Unknown, Some("Free space"), vec!["log-1"]),
        event("2", "disk   FULL!", Some("writes fail"), Outcome::Unknown, Some("free space"), vec![]),
    ];
    assert!(compile(&events, &Vec::new(), ClusteringPolicy::EvidenceCount).is_empty());
    let counted = compile(&events, &Vec::new(), ClusteringPolicy::EventCount);
    assert_eq!(counted.len(), 1);
    assert_eq!(counted[0].supporting_evidence, vec!["log-1".to_string(), "2".to_string()]);

    let mut more = events.clone();
    more.push(event("3", "Disk full", Some("Writes fail"), Outcome::Unknown, Some("Free space"), vec!["log-3"]));
    let gated = compile(&more, &Vec::new(), ClusteringPolicy::EvidenceCount);
    assert_eq!(gated.len(), 1);
    assert_eq!(gated[0].support_count, 3);
    assert_eq!(gated[0].trigger, "Disk full");
    assert!(matches!(gated[0].outcome, Outcome::Unknown));
    assert_eq!(gated[0].counterexample, None);
}

#[test]
fn compile_sorts_by_support_then_first_appearance() {
    let events = vec![
        event("1", "alpha", None, Outcome::Success, None, vec![]),
        event("2", "beta", None, Outcome::Success, None, vec![]),
        event("3", "beta", None, Outcome::Success, None, vec![]),
        event("4", "alpha", None, Outcome::Success, None, vec![]),
        event("5", "gamma", None, Outcome::Success, None, vec![]),
        event("6", "gamma", None, Outcome::Success, None, vec![]),
        event("7", "gamma", None, Outcome::Success, None, vec![]),
    ];
    let patterns = compile(&events, &Vec::new(), ClusteringPolicy::EventCount);
    let triggers: Vec<&str> = patterns.iter().map(|p| p.trigger.as_str()).collect();
    assert_eq!(triggers, vec!["gamma", "alpha", "beta"]);
    assert_eq!(patterns[1].members, vec![0, 3]);
}

#[test]
fn compile_elects_plurality_first_seen_on_ties() {
    let events = vec![
        event("1", "Disk Full", Some("  "), Outcome::Failure, Some("Free space"), vec![]),
        event("2", "disk full", Some("  "), Outcome::Success, Some("free space"), vec![]),
        event("3", "disk full", Some("  "), Outcome::Failure, Some("free space"), vec![]),
        event("4", "Disk Full", Some("  "), Outcome::Success, Some("Free space"), vec![]),
    ];
    let patterns = compile(&events, &Vec::new(), ClusteringPolicy::EventCount);
    assert_eq!(patterns.len(), 1);
    assert_eq!(patterns[0].trigger, "Disk Full");
    assert_eq!(patterns[0].invariant, None);
    assert_eq!(patterns[0].best_response, Some("Free space".to_string()));
    assert!(matches!(patterns[0].outcome, Outcome::Mixed));
    assert_eq!(patterns[0].counterexample, Some("disk full -> success".to_string()));
}

#[test]
fn compile_dominant_outcome_and_other_label() {
    let events = vec![
        event("1", "flaky", None, Outcome::Failure, None, vec![]),
        event("2", "flaky", None, Outcome::Other("timeout".to_string()), None, vec![]),
        event("3", "flaky", None, Outcome::Failure, None, vec![]),
    ];
    let patterns = compile(&events, &Vec::new(), ClusteringPolicy::EventCount);
    assert!(matches!(patterns[0].outcome, Outcome::Failure));
    assert_eq!(patterns[0].counterexample, Some("flaky -> timeout".to_string()));
}

#[test]
fn compile_single_pattern_end_to_end() {
    let events = vec![
        event("a", "Disk full error", Some("Writes fail"), Outcome::Failure, Some("Free space"), vec!["log-1"]),
        event("b", "Disk full error", Some("Writes fail"), Outcome::Failure, Some("Free space"), vec!["log-2"]),
    ];
    let patterns = compile(&events, &Vec::new(), ClusteringPolicy::EvidenceCount);
    assert_eq!(patterns.len(), 1);
    assert_eq!(patterns[0].support_count, 2);
    assert!(matches!(patterns[0].outcome, Outcome::Failure));
    assert_eq!(patterns[0].counterexample, None);
    assert_eq!(patterns[0].supporting_evidence, vec!["log-1".to_string(), "log-2".to_string()]);
}

#[test]
fn compile_mixed_outcomes_end_to_end() {
    let events = vec![
        event("a", "Cache miss", Some("Writes fail"), Outcome::Failure, None, vec![]),
        event("b", "Cache miss", Some("Writes fail"), Outcome::Success, None, vec![]),
    ];
    let patterns = compile(&events, &Vec::new(), ClusteringPolicy::EventCount);
    assert_eq!(patterns.len(), 1);
    assert!(matches!(patterns[0].outcome, Outcome::Mixed));
    assert_eq!(patterns[0].counterexample, Some("Cache miss -> success".to_string()));
}

#[test]
fn recompiling_against_stored_keys_emits_nothing() {
    let events = vec![
        event("1", "Disk full error", Some("Writes fail"), Outcome::Failure, Some("Free space"), vec!["log-1"]),
        event("2", "Disk full error", Some("Writes fail"), Outcome::Failure, Some("Free space"), vec!["log-2"]),
        event("3", "Network timeout", None, Outcome::Success, None, vec!["log-3"]),
        event("4", "network  timeout", None, Outcome::Success, None, vec!["log-4"]),
    ];
    let first = compile(&events, &Vec::new(), ClusteringPolicy::EvidenceCount);
    assert_eq!(first.len(), 2);
    let stored = keys_of(&first);
    assert!(compile(&events, &stored, ClusteringPolicy::EvidenceCount).is_empty());
}

#[test]
fn stored_key_matches_event_key() {
    let e = event("1", "Disk full error", Some("Writes fail"), Outcome::Failure, Some("Free space"), vec![]);
    let k1 = event_key_of(&e);
    let k2 = stored_pattern_key("Disk full error", &Some("Writes fail".to_string()), &Some("Free space".to_string()), &None);
    assert!(k1.same_as(&k2));
    assert_eq!(k1.trigger_key, "disk full error");
    let long = "the disk is full and writes fail again today";
    let k3 = stored_pattern_key(long, &None, &None, &Some("custom|sig".to_string()));
    assert_eq!(k3.trigger_key, "custom|sig");
}

#[test]
fn long_triggers_cluster_by_signature() {
    let events = vec![
        event("1", "the disk is full and writes fail again today", None, Outcome::Failure, None, vec![]),
        event("2", "today again the disk is full and writes fail", None, Outcome::Failure, None, vec![]),
    ];
    let patterns = compile(&events, &Vec::new(), ClusteringPolicy::EventCount);
    assert_eq!(patterns.len(), 1);
    assert_eq!(patterns[0].key.trigger_key, "again|and|disk|fail|full|the");
}

#[test]
fn permuted_events_give_same_patterns() {
    let events = vec![
        event("1", "alpha", None, Outcome::Success, None, vec![]),
        event("2", "beta", None, Outcome::Failure, None, vec![]),
        event("3", "alpha", None, Outcome::Success, None, vec![]),
        event("4", "beta", None, Outcome::Failure, None, vec![]),
        event("5", "beta", None, Outcome::Failure, None, vec![]),
    ];
    let mut reversed = events.clone();
    reversed.reverse();
    let a = compile(&events, &Vec::new(), ClusteringPolicy::EventCount);
    let b = compile(&reversed, &Vec::new(), ClusteringPolicy::EventCount);
    let mut sa: Vec<_> = a.iter().map(|p| summary(p)).map(|s| (s.0, s.1, s.2, s.3, s.5, s.6)).collect();
    let mut sb: Vec<_> = b.iter().map(|p| summary(p)).map(|s| (s.0, s.1, s.2, s.3, s.5, s.6)).collect();
    sa.sort();
    sb.sort();
    assert_eq!(sa, sb);
}
