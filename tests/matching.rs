use intent_patterns::matcher::{
    evidence_affinity, jaccard, match_text, outcome_affinity, term_overlap, token_similarity, Affinity,
};
use intent_patterns::outcome::Outcome;
use intent_patterns::ranking::{rank_order, RankEntry, TieBreak};

fn entry(score: u64, support_count: usize, id: &str) -> RankEntry {
    RankEntry { score, support_count, id: id.to_string() }
}

#[test]
fn jaccard_of_disjoint_and_identical_sets() {
    let a = vec!["disk".to_string(), "full".to_string()];
    let b = vec!["network".to_string(), "timeout".to_string()];
    let disjoint = jaccard(&a, &b);
    assert_eq!(disjoint.num, 0);
    assert!(disjoint.den > 0);
    let same = jaccard(&a, &vec!["full".to_string(), "disk".to_string(), "disk".to_string()]);
    assert_eq!(same.num, same.den);
    assert!(same.den > 0);
    let empty = jaccard(&a, &Vec::new());
    assert_eq!((empty.num, empty.den), (0, 1));
}

#[test]
fn token_similarity_exact_fraction() {
    let r = token_similarity("disk full error on write", "Disk full error");
    assert_eq!((r.num, r.den), (3, 5));
    let z = token_similarity("", "");
    assert_eq!(z.num, 0);
}

#[test]
fn evidence_affinity_takes_best_pair() {
    let tests = vec!["test_parser failed".to_string()];
    let refs = vec!["test_runtime failed".to_string(), "test_parser failed".to_string()];
    let r = evidence_affinity(&tests, &refs);
    assert_eq!(r.num, r.den);
    let partial = evidence_affinity(&tests, &vec!["test_runtime failed".to_string()]);
    assert_eq!((partial.num, partial.den), (2, 4));
    let none = evidence_affinity(&Vec::new(), &refs);
    assert_eq!((none.num, none.den), (0, 1));
}

#[test]
fn term_overlap_counts_frequencies() {
    let text = match_text("compile error", "missing import");
    assert_eq!(text, "compile error missing import");
    let t = term_overlap("error error compile", "error compile compile");
    assert_eq!((t.dot, t.left_norm, t.right_norm), (4, 5, 5));
    let z = term_overlap("", "anything here");
    assert_eq!((z.dot, z.left_norm), (0, 0));
}

#[test]
fn outcome_affinity_categories() {
    assert_eq!(outcome_affinity(Some(&Outcome::Failure), &Outcome::Failure), Affinity::Full);
    assert_eq!(outcome_affinity(Some(&Outcome::Failure), &Outcome::Success), Affinity::Zero);
    assert_eq!(outcome_affinity(None, &Outcome::Success), Affinity::Half);
    assert_eq!(outcome_affinity(Some(&Outcome::Failure), &Outcome::Mixed), Affinity::Half);
    assert_eq!(outcome_affinity(Some(&Outcome::Unknown), &Outcome::Success), Affinity::Half);
    assert_eq!(outcome_affinity(Some(&Outcome::Success), &Outcome::Unknown), Affinity::Half);
    assert_eq!(
        outcome_affinity(Some(&Outcome::Other("x".to_string())), &Outcome::Other("x".to_string())),
        Affinity::Full
    );
    assert_eq!(Affinity::Full.halves(), 2);
    assert_eq!(Affinity::Half.halves(), 1);
    assert_eq!(Affinity::Zero.halves(), 0);
}

#[test]
fn rank_order_by_score_then_support() {
    let entries = vec![entry(5, 1, "c"), entry(9, 1, "b"), entry(5, 3, "a"), entry(5, 1, "d")];
    assert_eq!(rank_order(&entries, TieBreak::SupportDesc, 10), vec![1, 2, 0, 3]);
    assert_eq!(rank_order(&entries, TieBreak::IdAsc, 10), vec![1, 2, 0, 3]);
    let by_id = vec![entry(5, 1, "zeta"), entry(5, 9, "alpha"), entry(5, 1, "alpha")];
    assert_eq!(rank_order(&by_id, TieBreak::IdAsc, 10), vec![1, 2, 0]);
    assert_eq!(rank_order(&by_id, TieBreak::SupportDesc, 10), vec![1, 0, 2]);
}

#[test]
fn rank_order_truncates_after_sorting() {
    let entries = vec![entry(1, 0, "a"), entry(3, 0, "b"), entry(2, 0, "c")];
    assert_eq!(rank_order(&entries, TieBreak::IdAsc, 2), vec![1, 2]);
    assert_eq!(rank_order(&entries, TieBreak::IdAsc, 0), Vec::<usize>::new());
    assert_eq!(rank_order(&Vec::new(), TieBreak::IdAsc, 3), Vec::<usize>::new());
    assert_eq!(rank_order(&entries, TieBreak::SupportDesc, 7).len(), 3);
}

#[test]
fn non_ascii_tokens_match() {
    let r = evidence_affinity(&vec!["é".to_string()], &vec!["é".to_string()]);
    assert_eq!((r.num, r.den), (1, 1));
    let s = token_similarity("café crème", "CAFÉ crème");
    assert_eq!((s.num, s.den), (1, 3));
}
