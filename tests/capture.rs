use intent_patterns::capture::{
    CaptureFlow, CaptureTest, CompiledPattern, Covenant, Hypothesis, IntentToken, Outcome, PatternMatcher,
    RecordKind,
};

#[test]
fn capture_flow_links_records() {
    let intent = IntentToken { text: "pressed play".to_string() };
    let mut flow = CaptureFlow::new(intent);
    let hypothesis_id = flow.add_hypothesis(Hypothesis { summary: "bluetooth output not selected".to_string() });
    let test_id = flow.add_test(hypothesis_id, CaptureTest { description: "switch output to headset".to_string() });
    let outcome_id = flow.add_outcome(
        test_id,
        Outcome { summary: "audio routed to bluetooth".to_string(), success: true },
    );
    let pattern_id = flow.add_compiled_pattern(
        outcome_id,
        CompiledPattern {
            intent: "pressed play".to_string(),
            outcome: "audio routed to bluetooth".to_string(),
            tokens: vec!["pressed".to_string(), "play".to_string()],
        },
    );

    let records = flow.records();
    let hypothesis = records.iter().find(|record| record.id == hypothesis_id).expect("hypothesis record");
    let test = records.iter().find(|record| record.id == test_id).expect("test record");
    let outcome = records.iter().find(|record| record.id == outcome_id).expect("outcome record");
    let pattern = records.iter().find(|record| record.id == pattern_id).expect("pattern record");

    assert_eq!(hypothesis.links.len(), 1);
    assert_eq!(test.links, vec![hypothesis_id]);
    assert_eq!(outcome.links, vec![test_id]);
    assert_eq!(pattern.links, vec![outcome_id]);
}

#[test]
fn capture_flow_numbers_records_in_order() {
    let mut flow = CaptureFlow::new(IntentToken { text: "x".to_string() });
    let h = flow.add_hypothesis(Hypothesis { summary: "h".to_string() });
    assert_eq!(h, 2);
    let records = flow.records();
    assert_eq!(records.len(), 2);
    assert_eq!(records[0].id, 1);
    assert_eq!(records[0].kind, RecordKind::IntentToken);
    assert!(records[0].links.is_empty());
    assert_eq!(records[1].kind, RecordKind::Hypothesis);
    assert_eq!(records[1].links, vec![1]);
}

#[test]
fn pattern_match_ranks_with_rationale() {
    let matcher = PatternMatcher::default();
    let patterns = vec![
        CompiledPattern {
            intent: "pressed play".to_string(),
            outcome: "audio routed to bluetooth".to_string(),
            tokens: vec!["pressed".to_string(), "play".to_string()],
        },
        CompiledPattern {
            intent: "paused playback".to_string(),
            outcome: "audio muted".to_string(),
            tokens: vec!["paused".to_string(), "playback".to_string()],
        },
    ];

    let results = matcher.rank("hit play on bluetooth", &patterns);
    assert_eq!(results.len(), 2);
    assert_eq!(results[0].pattern.intent, "pressed play");
    assert_eq!(results[0].score, 1);
    assert_eq!(results[0].rationale.contains("matched tokens"), true);
}

#[test]
fn pattern_match_rationale_text_and_stable_ties() {
    let matcher = PatternMatcher;
    let patterns = vec![
        CompiledPattern { intent: "a".to_string(), outcome: "o".to_string(), tokens: vec!["x".to_string()] },
        CompiledPattern {
            intent: "b".to_string(),
            outcome: "o".to_string(),
            tokens: vec!["play".to_string(), "loud".to_string()],
        },
        CompiledPattern { intent: "c".to_string(), outcome: "o".to_string(), tokens: vec!["y".to_string()] },
    ];
    let results = matcher.rank("Play it LOUD", &patterns);
    let intents: Vec<&str> = results.iter().map(|m| m.pattern.intent.as_str()).collect();
    assert_eq!(intents, vec!["b", "a", "c"]);
    assert_eq!(results[0].rationale, "matched tokens: play, loud");
    assert_eq!(results[1].rationale, "no shared intent tokens");
    assert_eq!(results[1].score, 0);
}

#[test]
fn compiled_pattern_takes_intent_tokens() {
    let p = CompiledPattern::compile(
        &IntentToken { text: "Pressed PLAY!".to_string() },
        &Outcome { summary: "music".to_string(), success: true },
    );
    assert_eq!(p.tokens, vec!["pressed".to_string(), "play".to_string()]);
    assert_eq!(p.intent, "Pressed PLAY!");
    assert_eq!(p.outcome, "music");
}

#[test]
fn covenant_refuses_out_of_scope_actions() {
    let covenant = Covenant::new(vec!["route_audio".to_string()]);
    let err = covenant.enforce("delete_files").expect_err("should refuse out-of-scope action");
    assert_eq!(err.action, "delete_files");
}

#[test]
fn covenant_allows_listed_actions() {
    let covenant = Covenant::new(vec!["route_audio".to_string(), "pause".to_string()]);
    assert!(covenant.enforce("pause").is_ok());
    assert!(Covenant::new(Vec::new()).enforce("pause").is_err());
}

#[test]
fn pattern_match_counts_non_ascii_tokens() {
    let patterns = vec![CompiledPattern { intent: "é".to_string(), outcome: "o".to_string(), tokens: vec!["é".to_string()] }];
    let results = PatternMatcher.rank("é", &patterns);
    assert_eq!(results[0].score, 1);
    assert_eq!(results[0].rationale, "matched tokens: é");
}
