use mini_grep::Config;
use mini_grep::pattern::Pattern;
use mini_grep::pattern::PatternErr;

fn compile_error_message(pattern: &str) -> String {
    match Config::parse_pattern(pattern.to_string()) {
        Ok(_) => panic!("pattern should fail to compile"),
        Err(PatternErr::InvalidPattern(message)) => message,
    }
}

#[test]
fn compile_token_structure() {
    let tokens = Config::parse_pattern("\\d\\w.x+y?[ab][^cd]".to_string()).unwrap();
    let expected = vec![
        Pattern::Digit,
        Pattern::AlphaNumeric,
        Pattern::Wildcard,
        Pattern::OneOrMore('x'),
        Pattern::ZeroOrOne('y'),
        Pattern::PositiveCharGroup("ab".to_string()),
        Pattern::NegativeCharGroup("cd".to_string()),
    ];
    assert_eq!(tokens, expected);
}

#[test]
fn compile_alternation() {
    let tokens = Config::parse_pattern("(cat|dog)".to_string()).unwrap();
    assert_eq!(
        tokens,
        vec![Pattern::Alternation("cat".to_string(), "dog".to_string())]
    );
}

#[test]
fn compile_anchors() {
    let tokens = Config::parse_pattern("^a$".to_string()).unwrap();
    assert_eq!(
        tokens,
        vec![Pattern::StartAnchor, Pattern::Char('a'), Pattern::EndAnchor]
    );
}

#[test]
fn compile_trailing_backslash_is_dropped() {
    let tokens = Config::parse_pattern("ab\\".to_string()).unwrap();
    assert_eq!(tokens, vec![Pattern::Char('a'), Pattern::Char('b')]);
}

#[test]
fn compile_unclosed_group_runs_to_end() {
    let tokens = Config::parse_pattern("[abc".to_string()).unwrap();
    assert_eq!(tokens, vec![Pattern::PositiveCharGroup("abc".to_string())]);
}

#[test]
fn compile_empty_pattern() {
    let tokens = Config::parse_pattern(String::new()).unwrap();
    assert!(tokens.is_empty());
}

#[test]
fn compile_end_anchor_not_last() {
    assert_eq!(
        compile_error_message("a$b"),
        "End anchor should be the last character"
    );
}

#[test]
fn compile_unsupported_escape() {
    assert_eq!(compile_error_message("\\x"), "Unsupported escape sequence");
}

#[test]
fn compile_start_anchor_not_first() {
    assert_eq!(
        compile_error_message("a^"),
        "Start anchor should be the first character"
    );
}

#[test]
fn compile_is_idempotent() {
    let first = Config::parse_pattern("a+b?[xy](p|q).".to_string()).unwrap();
    let second = Config::parse_pattern("a+b?[xy](p|q).".to_string()).unwrap();
    assert_eq!(first, second);
}
