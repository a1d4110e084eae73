use mini_grep::Config;
use mini_grep::pattern::Pattern;

fn run_match(pattern: &str, input: &str) -> bool {
    let tokens = Config::parse_pattern(pattern.to_string()).expect("pattern should compile");
    assert!(!tokens.is_empty());
    let config = Config {
        patterns: tokens,
        input: input.to_string(),
    };
    config.match_pattern()
}

#[test]
fn start_anchor_only_offset_zero() {
    // "b" occurs in "ab", but the anchored pattern must not fall back to
    // offsets beyond 0.
    assert!(!run_match("^b", "ab"));
    assert!(run_match("^a", "ab"));
}

#[test]
fn single_literal_absent_and_present() {
    assert!(!run_match("a", "xyz"));
    assert!(run_match("a", "xyaz"));
}

#[test]
fn end_anchor_leftmost_search() {
    assert!(run_match("cat$", "it was a cat"));
}

#[test]
fn end_anchor_rejects_trailing_character() {
    assert!(!run_match("cat$", "a cat "));
}

#[test]
fn end_anchor_accepts_trailing_newline() {
    assert!(run_match("cat$", "a cat\n"));
}

#[test]
fn one_or_more_greedy_success() {
    assert!(run_match("a+", "aaab"));
}

#[test]
fn one_or_more_needs_at_least_one() {
    assert!(!run_match("a+", "bbb"));
}

#[test]
fn one_or_more_does_not_backtrack() {
    // The greedy repetition consumes every "a", leaving none for the
    // trailing literal.
    assert!(!run_match("a+a", "aaa"));
}

#[test]
fn zero_or_one_both_ways() {
    assert!(run_match("colou?r", "color"));
    assert!(run_match("colou?r", "colour"));
}

#[test]
fn zero_or_one_rejects_two_occurrences() {
    assert!(!run_match("colou?r", "colouur"));
}

#[test]
fn negative_char_group() {
    assert!(!run_match("[^abc]", "a"));
    assert!(run_match("[^abc]", "d"));
}

#[test]
fn positive_char_group() {
    assert!(run_match("[abc]", "xay"));
    assert!(!run_match("[abc]", "xyz"));
}

#[test]
fn alternation_matches_either_branch() {
    assert!(run_match("(cat|dog)", "cat"));
    assert!(run_match("(cat|dog)", "dog"));
}

#[test]
fn alternation_compares_entire_remaining_input() {
    assert!(!run_match("(cat|dog)", "catfood"));
}

#[test]
fn digit_class() {
    assert!(run_match("\\d", "abc3"));
    assert!(!run_match("\\d", "abc"));
}

#[test]
fn alphanumeric_class() {
    assert!(run_match("\\w", "%a"));
    assert!(!run_match("\\w", "%_ "));
}

#[test]
fn wildcard_consumes_one_character() {
    assert!(run_match("c.t", "cat"));
    assert!(!run_match("c.t", "ct"));
}

#[test]
fn wildcard_at_end_of_input_consumes_nothing() {
    assert!(run_match("a.", "a"));
}

#[test]
fn both_anchors() {
    assert!(run_match("^cat$", "cat"));
    assert!(!run_match("^cat$", "cats"));
}

#[test]
fn start_anchor_mid_sequence_never_matches() {
    let tokens = vec![Pattern::Char('a'), Pattern::StartAnchor];
    assert!(!Config::matchhere(&tokens, 0, "ab", 0));
}

#[test]
fn unanchored_search_on_empty_input_fails() {
    // The unanchored search tries one offset per input character, so an empty
    // input offers no offset at all, even to a pattern that consumes nothing.
    assert!(!run_match("a?", ""));
}

#[test]
fn anchored_match_on_empty_input_can_succeed() {
    // An anchored pattern skips the offset loop and is attempted once.
    assert!(run_match("^a?", ""));
    assert!(run_match("^", ""));
}

#[test]
fn empty_token_sequence_matches_anywhere() {
    let tokens: Vec<Pattern> = Vec::new();
    assert!(Config::matchhere(&tokens, 0, "anything", 0));
}

#[test]
fn match_is_idempotent() {
    let tokens = Config::parse_pattern("a+b".to_string()).unwrap();
    let config = Config {
        patterns: tokens,
        input: "xaab".to_string(),
    };
    let first = config.match_pattern();
    let second = config.match_pattern();
    assert_eq!(first, second);
    assert!(first);
}
