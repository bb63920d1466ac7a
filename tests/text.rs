use intent_patterns::stats::{clean_user_message, semantic_fingerprint, semantic_similarity};
use intent_patterns::text::{clean_evidence, keyword_signature, normalize_text, select_trigger_key, trim_str};
use intent_patterns::tokens::{is_stopword, plain_tokenize, stem_token, tokenize};

#[test]
fn normalize_text_strips_punctuation() {
    let normalized = normalize_text("Fix: Foo/Bar? 100% ready.");
    assert_eq!(normalized, "fix foo bar 100 ready");
}

#[test]
fn keyword_signature_dedupes_and_sorts() {
    let signature = keyword_signature("compile compile event response");
    assert_eq!(signature, "compile|event|response");
}

#[test]
fn select_trigger_key_prefers_phrase_for_short_inputs() {
    let normalized = "short trigger phrase";
    let signature = keyword_signature(normalized);
    let key = select_trigger_key(normalized, &signature);
    assert_eq!(key, normalized);
}

#[test]
fn stem_token_strips_suffixes() {
    assert_eq!(stem_token("running"), "run");
    assert_eq!(stem_token("tested"), "test");
    assert_eq!(stem_token("boxes"), "box");
    assert_eq!(stem_token("cats"), "cat");
}

#[test]
fn tokenize_removes_stopwords() {
    let tokens = tokenize("Please add the tests for the user.");
    assert_eq!(tokens, vec!["add".to_string(), "test".to_string(), "user".to_string()]);
}

#[test]
fn semantic_similarity_scores_overlap() {
    let score = semantic_similarity("add the tests", "added tests for module");
    let value = score.num as f64 / score.den as f64;
    assert!(value > 0.1);
}

#[test]
fn normalize_is_idempotent_on_examples() {
    for text in ["Fix: Foo/Bar? 100% ready.", "  Already normal ", "", "!!!", "MiXeD   Case\tTabs\nLines", "héllo wörld"] {
        let once = normalize_text(text);
        assert_eq!(normalize_text(&once), once);
    }
}

#[test]
fn normalize_keeps_only_ascii_letters_and_digits() {
    assert_eq!(normalize_text("héllo wörld"), "h llo w rld");
    assert_eq!(normalize_text("  --  "), "");
    assert_eq!(normalize_text("A1_B2"), "a1 b2");
}

#[test]
fn keyword_signature_keeps_first_six_sorted() {
    let signature = keyword_signature("zeta beta alpha gamma delta epsilon theta iota kappa an of");
    assert_eq!(signature, "alpha|beta|delta|epsilon|gamma|iota");
    assert_eq!(keyword_signature("a an of to"), "");
}

#[test]
fn select_trigger_key_uses_signature_for_long_inputs() {
    let normalized = "the disk is full and writes fail again today";
    let signature = keyword_signature(normalized);
    assert_eq!(signature, "again|and|disk|fail|full|the");
    assert_eq!(select_trigger_key(normalized, &signature), signature);
    let short_words = "a b c d e f g h";
    assert_eq!(select_trigger_key(short_words, ""), short_words);
}

#[test]
fn stem_token_edge_cases() {
    assert_eq!(stem_token("cat"), "cat");
    assert_eq!(stem_token("'quoted'"), "quot");
    assert_eq!(stem_token("passes"), "pas");
    assert_eq!(stem_token("stopped"), "stop");
    assert_eq!(stem_token("''"), "");
}

#[test]
fn stopwords_are_recognised() {
    assert!(is_stopword("the"));
    assert!(is_stopword("would"));
    assert!(!is_stopword("disk"));
    assert!(!is_stopword("The"));
}

#[test]
fn plain_tokenize_splits_on_punctuation() {
    assert_eq!(
        plain_tokenize("test_parser failed!"),
        vec!["test".to_string(), "parser".to_string(), "failed".to_string()]
    );
    assert!(plain_tokenize(" .. ").is_empty());
}

#[test]
fn trim_and_clean_evidence() {
    assert_eq!(trim_str("  log-1 \n"), "log-1");
    assert_eq!(trim_str("\u{3000}x\u{a0}"), "x");
    assert_eq!(clean_evidence(Some("  log-1 ")), Some("log-1".to_string()));
    assert_eq!(clean_evidence(Some(" \t ")), None);
    assert_eq!(clean_evidence(None), None);
}

#[test]
fn fingerprint_holds_tokens_and_pairs() {
    let mut fp = semantic_fingerprint("add the tests");
    fp.sort();
    assert_eq!(fp, vec!["add".to_string(), "add_test".to_string(), "test".to_string()]);
    assert!(semantic_fingerprint("the of").is_empty());
}

#[test]
fn semantic_similarity_exact_fraction() {
    let score = semantic_similarity("add the tests", "added tests for module");
    assert_eq!((score.num, score.den), (1, 7));
    let none = semantic_similarity("", "");
    assert_eq!(none.num, 0);
}

#[test]
fn clean_user_message_strips_marker() {
    let marker = "## My request:";
    assert_eq!(
        clean_user_message("context here ## My request:  fix the build ", marker),
        Some("fix the build".to_string())
    );
    assert_eq!(clean_user_message("  plain message ", marker), Some("plain message".to_string()));
    assert_eq!(clean_user_message("ctx ## My request:   ", marker), None);
    assert_eq!(clean_user_message("   ", marker), None);
}

#[test]
fn signature_and_trigger_key_split_at_any_white_space() {
    assert_eq!(keyword_signature("abc\tdef"), "abc|def");
    assert_eq!(keyword_signature("zeta\n\u{3000}beta"), "beta|zeta");
    assert_eq!(select_trigger_key("a\tb\tc\td\te\tf\tg", "x"), "x");
    assert_eq!(select_trigger_key("a\tb\tc", "x"), "a\tb\tc");
}

#[test]
fn plain_tokenize_keeps_unicode_letters() {
    assert_eq!(plain_tokenize("Héllo WÖRLD"), vec!["héllo".to_string(), "wÖrld".to_string()]);
    assert_eq!(plain_tokenize("é"), vec!["é".to_string()]);
}
