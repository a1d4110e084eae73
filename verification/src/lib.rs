//! A minimal pattern-matching engine.
//!
//! A restricted regular-expression-like pattern string is compiled into an
//! ordered sequence of [`pattern::Pattern`] tokens, and a matcher then tests
//! whether a single line of input contains a match, by recursive descent over
//! the remaining tokens and the remaining input.

pub mod pattern;

use vstd::prelude::*;

verus! {

use crate::pattern::Pattern;
use crate::pattern::PatternModel;
use crate::pattern::PatternErr;
use crate::pattern::ParseIssue;
use crate::pattern::seq_model;
use crate::pattern::is_digit_char;
use crate::pattern::is_alnum_char;
use crate::pattern::char_is_digit;
use crate::pattern::char_is_alnum;
use crate::pattern::parse_from;
use crate::pattern::cons_all;
use crate::pattern::cons_token;
use crate::pattern::issue_message;
use crate::pattern::split_at_char;
use crate::pattern::lemma_skip_skip;
use crate::pattern::lemma_split_at_char_is;
use crate::pattern::lemma_cons_shift;
use vstd::string::StrSliceExecFns;
use vstd::string::StringExecFns;

/// A compiled pattern together with the line of input to test it against.
pub struct Config {
    /// The compiled pattern, in left-to-right matching order.
    pub patterns: Vec<Pattern>,
    /// The line of input, read once; a trailing newline may be present and
    /// governs the end-anchor semantics.
    pub input: String,
}

/// How many consecutive occurrences of `c` stand at the front of `inp`:
/// the number of characters a greedy one-or-more token consumes.
pub open spec fn count_leading(inp: Seq<char>, c: char) -> nat
    decreases inp.len(),
{
    if inp.len() > 0 && inp[0] == c {
        1 + count_leading(inp.skip(1), c)
    } else {
        0
    }
}

/// Whether the token sequence `toks` matches the input `inp` starting exactly
/// at its first character: the head token either consumes from the front of
/// `inp` and the rest must match what remains, or fails outright. An empty
/// token sequence always matches; trailing input is never a failure.
pub open spec fn match_here(toks: Seq<PatternModel>, inp: Seq<char>) -> bool
    decreases toks.len(),
{
    if toks.len() == 0 {
        true
    } else {
        let rest = toks.skip(1);
        match toks[0] {
            PatternModel::Char(c) => inp.len() > 0 && inp[0] == c && match_here(rest, inp.skip(1)),
            PatternModel::Digit => inp.len() > 0 && is_digit_char(inp[0]) && match_here(
                rest,
                inp.skip(1),
            ),
            PatternModel::AlphaNumeric => inp.len() > 0 && is_alnum_char(inp[0]) && match_here(
                rest,
                inp.skip(1),
            ),
            PatternModel::PositiveCharGroup(g) => inp.len() > 0 && g.contains(inp[0])
                && match_here(rest, inp.skip(1)),
            PatternModel::NegativeCharGroup(g) => inp.len() > 0 && !g.contains(inp[0])
                && match_here(rest, inp.skip(1)),
            // A start anchor reaching the recursive matcher mid-sequence
            // signals a structural violation and never matches.
            PatternModel::StartAnchor => false,
            // An end anchor matches at the end of input or right before a
            // newline, consuming nothing; tokens after it are not examined.
            PatternModel::EndAnchor => inp.len() == 0 || inp[0] == '\n',
            PatternModel::OneOrMore(c) => inp.len() > 0 && inp[0] == c && match_here(
                rest,
                inp.skip(count_leading(inp, c) as int),
            ),
            PatternModel::ZeroOrOne(c) => if inp.len() > 0 && inp[0] == c {
                match_here(rest, inp.skip(1))
            } else {
                match_here(rest, inp)
            },
            // At the end of input a wildcard consumes nothing.
            PatternModel::Wildcard => match_here(
                rest,
                if inp.len() > 0 {
                    inp.skip(1)
                } else {
                    inp
                },
            ),
            // The entire remaining input must equal one branch; tokens after
            // the alternation are not examined.
            PatternModel::Alternation(a, b) => inp == a || inp == b,
        }
    }
}

/// Whether the compiled pattern `toks` matches somewhere in `inp`. When the
/// pattern starts with a start anchor, only offset 0 is tried; otherwise every
/// start offset below the input length is tried in increasing order.
pub open spec fn pattern_matches(toks: Seq<PatternModel>, inp: Seq<char>) -> bool
    recommends
        toks.len() > 0,
{
    if toks.len() > 0 && toks[0] is StartAnchor {
        match_here(toks.skip(1), inp)
    } else {
        exists|i: int| 0 <= i < inp.len() && match_here(toks, inp.skip(i))
    }
}

/// A pattern whose first token is a start anchor is tested at offset 0 only:
/// the overall outcome is that single anchored attempt, with no fallback to
/// any later start offset even when the anchored attempt fails.
pub proof fn lemma_anchored_only_offset_zero(toks: Seq<PatternModel>, inp: Seq<char>)
    requires
        toks.len() > 0,
        toks[0] is StartAnchor,
    ensures
        pattern_matches(toks, inp) == match_here(toks.skip(1), inp),
{
}

/// A pattern consisting of a single literal character matches an input exactly
/// when the input contains that character somewhere.
pub proof fn lemma_single_literal(c: char, inp: Seq<char>)
    ensures
        pattern_matches(seq![PatternModel::Char(c)], inp) == inp.contains(c),
{
    let toks = seq![PatternModel::Char(c)];
    if inp.contains(c) {
        let i = choose|i: int| 0 <= i < inp.len() && inp[i] == c;
        assert(match_here(toks, inp.skip(i))) by {
            reveal_with_fuel(match_here, 2);
            assert(inp.skip(i)[0] == inp[i]);
            assert(toks.skip(1).len() == 0);
        }
        assert(pattern_matches(toks, inp));
    }
    if pattern_matches(toks, inp) {
        let i = choose|i: int| 0 <= i < inp.len() && match_here(toks, inp.skip(i));
        assert(inp[i] == c) by {
            assert(inp.skip(i)[0] == inp[i]);
        }
        assert(inp.contains(c));
    }
}

/// Matching is a function of the token sequence and the input alone: the same
/// pair always yields the same boolean, however often it is asked.
pub proof fn lemma_match_deterministic(
    t1: Seq<PatternModel>,
    i1: Seq<char>,
    t2: Seq<PatternModel>,
    i2: Seq<char>,
)
    requires
        t1 == t2,
        i1 == i2,
    ensures
        pattern_matches(t1, i1) == pattern_matches(t2, i2),
{
}

/// `count_leading` is pinned down by its two bounding properties: every
/// character before the count equals `c`, and the character at the count, if
/// any, differs from `c`.
proof fn lemma_count_leading_is(s: Seq<char>, c: char, m: nat)
    requires
        m <= s.len(),
        forall|k: int| 0 <= k < m ==> s[k] == c,
        m < s.len() ==> s[m as int] != c,
    ensures
        count_leading(s, c) == m,
    decreases s.len(),
{
    if m == 0 {
    } else {
        assert(s[0] == c);
        lemma_count_leading_is(s.skip(1), c, (m - 1) as nat);
    }
}

/// Whether the input from character offset `ii` on equals `g` exactly.
fn str_suffix_eq(input: &str, ii: usize, g: &str) -> (r: bool)
    requires
        ii <= input@.len(),
    ensures
        r == (input@.skip(ii as int) == g@),
{
    let n = input.unicode_len();
    let m = g.unicode_len();
    if n - ii != m {
        proof {
            assert(input@.skip(ii as int).len() != g@.len());
        }
        return false;
    }
    let mut k: usize = 0;
    while k < m
        invariant
            k <= m,
            ii + m == n,
            n == input@.len(),
            m == g@.len(),
            forall|t: int| 0 <= t < k ==> input@.skip(ii as int)[t] == g@[t],
        decreases m - k,
    {
        if input.get_char(ii + k) != g.get_char(k) {
            proof {
                assert(input@.skip(ii as int)[k as int] == input@[ii + k as int]);
            }
            return false;
        }
        k += 1;
    }
    proof {
        assert(input@.skip(ii as int) =~= g@);
    }
    true
}

/// Whether `g` contains the character `c`.
fn str_contains_char(g: &str, c: char) -> (r: bool)
    ensures
        r == g@.contains(c),
{
    let m = g.unicode_len();
    let mut k: usize = 0;
    while k < m
        invariant
            k <= m,
            m == g@.len(),
            forall|t: int| 0 <= t < k ==> g@[t] != c,
        decreases m - k,
    {
        if g.get_char(k) == c {
            proof {
                assert(g@[k as int] == c);
            }
            return true;
        }
        k += 1;
    }
    false
}

impl Config {
    /// Compiles a raw pattern string into an ordered token sequence, in one
    /// left-to-right pass with one character of lookahead, or fails with the
    /// first error encountered: exactly the outcome of [`parse_from`].
    #[verifier::rlimit(100)]
    pub fn parse_pattern(pattern: String) -> (r: Result<Vec<Pattern>, PatternErr>)
        ensures
            match parse_from(pattern@, false) {
                Ok(toks) => r matches Ok(v) && seq_model(v@) == toks,
                Err(issue) => r matches Err(e) && e@ == issue_message(issue),
            },
    {
        let pat = pattern.as_str();
        let n = pat.unicode_len();
        let mut tokens: Vec<Pattern> = Vec::new();
        let mut i: usize = 0;
        proof {
            assert(seq_model(tokens@) =~= Seq::<PatternModel>::empty());
            assert(pattern@.skip(0) =~= pattern@);
            match parse_from(pattern@, false) {
                Ok(ts) => {
                    assert(Seq::<PatternModel>::empty() + ts =~= ts);
                },
                Err(_) => {
                },
            }
        }
        while i < n
            invariant
                i <= n,
                n == pattern@.len(),
                pat@ == pattern@,
                cons_all(
                    seq_model(tokens@),
                    parse_from(pattern@.skip(i as int), tokens@.len() > 0),
                ) == parse_from(pattern@, false),
            decreases n - i,
        {
            let ghost pre = seq_model(tokens@);
            let ghost rem = pattern@.skip(i as int);
            let ghost st = tokens@.len() > 0;
            let ghost prev = tokens@;
            let c = pat.get_char(i);
            proof {
                assert(rem[0] == c);
                assert(rem.len() == n - i);
            }
            match c {
                '\\' => {
                    if i + 1 == n {
                        // A trailing backslash is consumed without producing
                        // a token, and the pattern ends.
                        proof {
                            assert(parse_from(rem, st) == Ok::<Seq<PatternModel>, ParseIssue>(Seq::empty()));
                            assert(pattern@.skip(n as int) =~= Seq::<char>::empty());
                            assert(parse_from(pattern@.skip(n as int), st) == Ok::<Seq<PatternModel>, ParseIssue>(Seq::empty()));
                        }
                        i = n;
                    } else {
                        let c2 = pat.get_char(i + 1);
                        proof {
                            assert(rem[1] == c2);
                        }
                        if c2 == 'd' {
                            tokens.push(Pattern::Digit);
                            proof {
                                lemma_skip_skip(pattern@, i as int, 2);
                                assert(parse_from(rem, st) == cons_token(
                                    PatternModel::Digit,
                                    parse_from(pattern@.skip(i as int + 2), true),
                                ));
                                assert(seq_model(tokens@) =~= pre.push(PatternModel::Digit));
                                lemma_cons_shift(
                                    pre,
                                    PatternModel::Digit,
                                    parse_from(pattern@.skip(i as int + 2), true),
                                );
                            }
                            i = i + 2;
                        } else if c2 == 'w' {
                            tokens.push(Pattern::AlphaNumeric);
                            proof {
                                lemma_skip_skip(pattern@, i as int, 2);
                                assert(parse_from(rem, st) == cons_token(
                                    PatternModel::AlphaNumeric,
                                    parse_from(pattern@.skip(i as int + 2), true),
                                ));
                                assert(seq_model(tokens@) =~= pre.push(PatternModel::AlphaNumeric));
                                lemma_cons_shift(
                                    pre,
                                    PatternModel::AlphaNumeric,
                                    parse_from(pattern@.skip(i as int + 2), true),
                                );
                            }
                            i = i + 2;
                        } else {
                            proof {
                                assert(parse_from(rem, st) == Err::<
                                    Seq<PatternModel>,
                                    ParseIssue,
                                >(ParseIssue::UnsupportedEscape));
                            }
                            return Err(
                                PatternErr::InvalidPattern(
                                    String::from_str("Unsupported escape sequence"),
                                ),
                            );
                        }
                    }
                },
                '^' => {
                    if !tokens.is_empty() {
                        proof {
                            assert(parse_from(rem, st) == Err::<Seq<PatternModel>, ParseIssue>(
                                ParseIssue::StartAnchorNotFirst,
                            ));
                        }
                        return Err(
                            PatternErr::InvalidPattern(
                                String::from_str("Start anchor should be the first character"),
                            ),
                        );
                    }
                    tokens.push(Pattern::StartAnchor);
                    proof {
                        lemma_skip_skip(pattern@, i as int, 1);
                        assert(parse_from(rem, st) == cons_token(
                            PatternModel::StartAnchor,
                            parse_from(pattern@.skip(i as int + 1), true),
                        ));
                        assert(seq_model(tokens@) =~= pre.push(PatternModel::StartAnchor));
                        lemma_cons_shift(
                            pre,
                            PatternModel::StartAnchor,
                            parse_from(pattern@.skip(i as int + 1), true),
                        );
                    }
                    i = i + 1;
                },
                '$' => {
                    if i + 1 < n {
                        proof {
                            assert(parse_from(rem, st) == Err::<Seq<PatternModel>, ParseIssue>(
                                ParseIssue::EndAnchorNotLast,
                            ));
                        }
                        return Err(
                            PatternErr::InvalidPattern(
                                String::from_str("End anchor should be the last character"),
                            ),
                        );
                    }
                    tokens.push(Pattern::EndAnchor);
                    proof {
                        assert(parse_from(rem, st) == Ok::<Seq<PatternModel>, ParseIssue>(seq![PatternModel::EndAnchor]));
                        assert(pattern@.skip(n as int) =~= Seq::<char>::empty());
                        assert(parse_from(pattern@.skip(n as int), true) == Ok::<Seq<PatternModel>, ParseIssue>(Seq::empty()));
                        assert(seq_model(tokens@) =~= pre.push(PatternModel::EndAnchor));
                        assert(pre.push(PatternModel::EndAnchor) + Seq::<PatternModel>::empty()
                            =~= pre + seq![PatternModel::EndAnchor]);
                    }
                    i = i + 1;
                },
                '[' => {
                    let mut gi = i + 1;
                    let mut neg = false;
                    if gi < n && pat.get_char(gi) == '^' {
                        neg = true;
                        gi = gi + 1;
                    }
                    let mut j = gi;
                    while j < n && pat.get_char(j) != ']'
                        invariant
                            gi <= j <= n,
                            n == pattern@.len(),
                            pat@ == pattern@,
                            forall|k: int| gi <= k < j ==> pattern@[k] != ']',
                        decreases n - j,
                    {
                        j = j + 1;
                    }
                    let grp = String::from_str(pat.substring_char(gi, j));
                    let ghost gm = grp@;
                    let tok = if neg {
                        Pattern::NegativeCharGroup(grp)
                    } else {
                        Pattern::PositiveCharGroup(grp)
                    };
                    let ghost tm = tok@;
                    tokens.push(tok);
                    let ii = if j < n {
                        j + 1
                    } else {
                        n
                    };
                    proof {
                        lemma_skip_skip(pattern@, i as int, 1);
                        if neg {
                            lemma_skip_skip(pattern@, i as int + 1, 1);
                        }
                        let inner = pattern@.skip(gi as int);
                        assert(rem.skip(1) == pattern@.skip(i as int + 1));
                        lemma_split_at_char_is(inner, ']', (j - gi) as nat);
                        assert(inner.take(j - gi) =~= pattern@.subrange(gi as int, j as int));
                        assert(split_at_char(inner, ']').0 == gm);
                        if j < n {
                            lemma_skip_skip(pattern@, gi as int, j - gi + 1);
                            assert(split_at_char(inner, ']').1 == pattern@.skip(ii as int));
                        } else {
                            assert(pattern@.skip(n as int) =~= Seq::<char>::empty());
                            assert(split_at_char(inner, ']').1 == pattern@.skip(ii as int));
                        }
                        assert(parse_from(rem, st) == cons_token(
                            tm,
                            parse_from(pattern@.skip(ii as int), true),
                        ));
                        assert(seq_model(tokens@) =~= pre.push(tm));
                        lemma_cons_shift(pre, tm, parse_from(pattern@.skip(ii as int), true));
                    }
                    i = ii;
                },
                '(' => {
                    let mut j = i + 1;
                    while j < n && pat.get_char(j) != '|'
                        invariant
                            i + 1 <= j <= n,
                            n == pattern@.len(),
                            pat@ == pattern@,
                            forall|k: int| i + 1 <= k < j ==> pattern@[k] != '|',
                        decreases n - j,
                    {
                        j = j + 1;
                    }
                    let a = String::from_str(pat.substring_char(i + 1, j));
                    let ghost am = a@;
                    let a_end = if j < n {
                        j + 1
                    } else {
                        n
                    };
                    let mut j2 = a_end;
                    while j2 < n && pat.get_char(j2) != ')'
                        invariant
                            a_end <= j2 <= n,
                            n == pattern@.len(),
                            pat@ == pattern@,
                            forall|k: int| a_end <= k < j2 ==> pattern@[k] != ')',
                        decreases n - j2,
                    {
                        j2 = j2 + 1;
                    }
                    let b = String::from_str(pat.substring_char(a_end, j2));
                    let ghost bm = b@;
                    tokens.push(Pattern::Alternation(a, b));
                    let ii = if j2 < n {
                        j2 + 1
                    } else {
                        n
                    };
                    proof {
                        lemma_skip_skip(pattern@, i as int, 1);
                        let after = pattern@.skip(i as int + 1);
                        lemma_split_at_char_is(after, '|', (j - (i + 1)) as nat);
                        assert(after.take(j - (i + 1)) =~= pattern@.subrange(i as int + 1, j as int));
                        assert(split_at_char(after, '|').0 == am);
                        if j < n {
                            lemma_skip_skip(pattern@, i as int + 1, j - i);
                            assert(split_at_char(after, '|').1 == pattern@.skip(a_end as int));
                        } else {
                            assert(pattern@.skip(n as int) =~= Seq::<char>::empty());
                            assert(split_at_char(after, '|').1 == pattern@.skip(a_end as int));
                        }
                        let second = pattern@.skip(a_end as int);
                        lemma_split_at_char_is(second, ')', (j2 - a_end) as nat);
                        assert(second.take(j2 - a_end) =~= pattern@.subrange(
                            a_end as int,
                            j2 as int,
                        ));
                        assert(split_at_char(second, ')').0 == bm);
                        if j2 < n {
                            lemma_skip_skip(pattern@, a_end as int, j2 - a_end + 1);
                            assert(split_at_char(second, ')').1 == pattern@.skip(ii as int));
                        } else {
                            assert(pattern@.skip(n as int) =~= Seq::<char>::empty());
                            assert(split_at_char(second, ')').1 == pattern@.skip(ii as int));
                        }
                        assert(parse_from(rem, st) == cons_token(
                            PatternModel::Alternation(am, bm),
                            parse_from(pattern@.skip(ii as int), true),
                        ));
                        assert(seq_model(tokens@) =~= pre.push(PatternModel::Alternation(am, bm)));
                        lemma_cons_shift(
                            pre,
                            PatternModel::Alternation(am, bm),
                            parse_from(pattern@.skip(ii as int), true),
                        );
                    }
                    i = ii;
                },
                '.' => {
                    tokens.push(Pattern::Wildcard);
                    proof {
                        lemma_skip_skip(pattern@, i as int, 1);
                        assert(parse_from(rem, st) == cons_token(
                            PatternModel::Wildcard,
                            parse_from(pattern@.skip(i as int + 1), true),
                        ));
                        assert(seq_model(tokens@) =~= pre.push(PatternModel::Wildcard));
                        lemma_cons_shift(
                            pre,
                            PatternModel::Wildcard,
                            parse_from(pattern@.skip(i as int + 1), true),
                        );
                    }
                    i = i + 1;
                },
                _ => {
                    if i + 1 < n && pat.get_char(i + 1) == '+' {
                        tokens.push(Pattern::OneOrMore(c));
                        proof {
                            assert(rem[1] == '+');
                            lemma_skip_skip(pattern@, i as int, 2);
                            assert(parse_from(rem, st) == cons_token(
                                PatternModel::OneOrMore(c),
                                parse_from(pattern@.skip(i as int + 2), true),
                            ));
                            assert(seq_model(tokens@) =~= pre.push(PatternModel::OneOrMore(c)));
                            lemma_cons_shift(
                                pre,
                                PatternModel::OneOrMore(c),
                                parse_from(pattern@.skip(i as int + 2), true),
                            );
                        }
                        i = i + 2;
                    } else if i + 1 < n && pat.get_char(i + 1) == '?' {
                        tokens.push(Pattern::ZeroOrOne(c));
                        proof {
                            assert(rem[1] == '?');
                            lemma_skip_skip(pattern@, i as int, 2);
                            assert(parse_from(rem, st) == cons_token(
                                PatternModel::ZeroOrOne(c),
                                parse_from(pattern@.skip(i as int + 2), true),
                            ));
                            assert(seq_model(tokens@) =~= pre.push(PatternModel::ZeroOrOne(c)));
                            lemma_cons_shift(
                                pre,
                                PatternModel::ZeroOrOne(c),
                                parse_from(pattern@.skip(i as int + 2), true),
                            );
                        }
                        i = i + 2;
                    } else {
                        tokens.push(Pattern::Char(c));
                        proof {
                            lemma_skip_skip(pattern@, i as int, 1);
                            assert(parse_from(rem, st) == cons_token(
                                PatternModel::Char(c),
                                parse_from(pattern@.skip(i as int + 1), true),
                            ));
                            assert(seq_model(tokens@) =~= pre.push(PatternModel::Char(c)));
                            lemma_cons_shift(
                                pre,
                                PatternModel::Char(c),
                                parse_from(pattern@.skip(i as int + 1), true),
                            );
                        }
                        i = i + 1;
                    }
                },
            }
        }
        proof {
            assert(pattern@.skip(n as int) =~= Seq::<char>::empty());
            match parse_from(pattern@, false) {
                Ok(ts) => {
                    assert(seq_model(tokens@) + Seq::<PatternModel>::empty() =~= seq_model(
                        tokens@,
                    ));
                },
                Err(_) => {
                },
            }
        }
        Ok(tokens)
    }

    /// Whether the token sequence from index `pi` on matches the input from
    /// character offset `ii` on, starting exactly there: the recursive descent
    /// of the matching engine.
    pub fn matchhere(patterns: &Vec<Pattern>, pi: usize, input: &str, ii: usize) -> (r: bool)
        requires
            pi <= patterns@.len(),
            ii <= input@.len(),
        ensures
            r == match_here(seq_model(patterns@).skip(pi as int), input@.skip(ii as int)),
        decreases patterns@.len() - pi,
    {
        let ghost toks = seq_model(patterns@).skip(pi as int);
        let ghost inp = input@.skip(ii as int);
        if pi == patterns.len() {
            return true;
        }
        proof {
            assert(toks[0] == patterns@[pi as int]@);
            assert(toks.skip(1) =~= seq_model(patterns@).skip(pi as int + 1));
        }
        let n = input.unicode_len();
        match &patterns[pi] {
            Pattern::Char(c) => {
                if ii < n && input.get_char(ii) == *c {
                    proof {
                        lemma_skip_skip(input@, ii as int, 1);
                    }
                    Self::matchhere(patterns, pi + 1, input, ii + 1)
                } else {
                    false
                }
            },
            Pattern::Digit => {
                if ii < n && char_is_digit(input.get_char(ii)) {
                    proof {
                        lemma_skip_skip(input@, ii as int, 1);
                    }
                    Self::matchhere(patterns, pi + 1, input, ii + 1)
                } else {
                    false
                }
            },
            Pattern::AlphaNumeric => {
                if ii < n && char_is_alnum(input.get_char(ii)) {
                    proof {
                        lemma_skip_skip(input@, ii as int, 1);
                    }
                    Self::matchhere(patterns, pi + 1, input, ii + 1)
                } else {
                    false
                }
            },
            Pattern::PositiveCharGroup(g) => {
                if ii < n && str_contains_char(g.as_str(), input.get_char(ii)) {
                    proof {
                        lemma_skip_skip(input@, ii as int, 1);
                    }
                    Self::matchhere(patterns, pi + 1, input, ii + 1)
                } else {
                    false
                }
            },
            Pattern::NegativeCharGroup(g) => {
                if ii < n && !str_contains_char(g.as_str(), input.get_char(ii)) {
                    proof {
                        lemma_skip_skip(input@, ii as int, 1);
                    }
                    Self::matchhere(patterns, pi + 1, input, ii + 1)
                } else {
                    false
                }
            },
            Pattern::StartAnchor => false,
            Pattern::EndAnchor => ii == n || input.get_char(ii) == '\n',
            Pattern::OneOrMore(c) => {
                let rc: char = *c;
                if ii < n && input.get_char(ii) == rc {
                    let mut j = ii + 1;
                    while j < n && input.get_char(j) == rc
                        invariant
                            ii < j <= n,
                            n == input@.len(),
                            forall|k: int| ii <= k < j ==> input@[k] == rc,
                        decreases n - j,
                    {
                        j += 1;
                    }
                    proof {
                        assert(forall|k: int| 0 <= k < j - ii ==> inp[k] == rc);
                        lemma_count_leading_is(inp, rc, (j - ii) as nat);
                        lemma_skip_skip(input@, ii as int, (j - ii) as int);
                    }
                    Self::matchhere(patterns, pi + 1, input, j)
                } else {
                    false
                }
            },
            Pattern::ZeroOrOne(c) => {
                if ii < n && input.get_char(ii) == *c {
                    proof {
                        lemma_skip_skip(input@, ii as int, 1);
                    }
                    Self::matchhere(patterns, pi + 1, input, ii + 1)
                } else {
                    Self::matchhere(patterns, pi + 1, input, ii)
                }
            },
            Pattern::Wildcard => {
                if ii < n {
                    proof {
                        lemma_skip_skip(input@, ii as int, 1);
                    }
                    Self::matchhere(patterns, pi + 1, input, ii + 1)
                } else {
                    Self::matchhere(patterns, pi + 1, input, ii)
                }
            },
            Pattern::Alternation(a, b) => {
                str_suffix_eq(input, ii, a.as_str()) || str_suffix_eq(input, ii, b.as_str())
            },
        }
    }

    /// Whether the compiled pattern matches the input line: anchored patterns
    /// are tried at offset 0 only, all others at every start offset from left
    /// to right, accepting the first that matches.
    pub fn match_pattern(&self) -> (r: bool)
        requires
            self.patterns@.len() > 0,
        ensures
            r == pattern_matches(seq_model(self.patterns@), self.input@),
    {
        let ghost toks = seq_model(self.patterns@);
        if matches!(&self.patterns[0], Pattern::StartAnchor) {
            proof {
                assert(toks[0] is StartAnchor);
                assert(self.input@.skip(0) =~= self.input@);
                assert(toks.skip(1) =~= seq_model(self.patterns@).skip(1));
            }
            Self::matchhere(&self.patterns, 1, self.input.as_str(), 0)
        } else {
            proof {
                assert(!(toks[0] is StartAnchor));
            }
            let n = self.input.as_str().unicode_len();
            let mut i: usize = 0;
            while i < n
                invariant
                    i <= n,
                    n == self.input@.len(),
                    self.patterns@.len() > 0,
                    toks == seq_model(self.patterns@),
                    !(toks[0] is StartAnchor),
                    forall|t: int| 0 <= t < i ==> !match_here(toks, self.input@.skip(t)),
                decreases n - i,
            {
                proof {
                    assert(toks.skip(0) =~= toks);
                }
                if Self::matchhere(&self.patterns, 0, self.input.as_str(), i) {
                    proof {
                        assert(match_here(toks, self.input@.skip(i as int)));
                    }
                    return true;
                }
                i += 1;
            }
            false
        }
    }
}

} // verus!
