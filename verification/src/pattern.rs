//! Pattern tokens, their mathematical model, and the compiler that turns a
//! raw pattern string into a token sequence.

use vstd::prelude::*;

verus! {

/// One compiled unit of a pattern, in the order it appears in the pattern
/// string. A compiled pattern is an ordered `Vec<Pattern>`.
#[derive(Debug)]
pub enum Pattern {
    /// Matches one ASCII digit.
    Digit,
    /// Matches one ASCII letter or digit.
    AlphaNumeric,
    /// Matches one character contained in the stored set.
    PositiveCharGroup(String),
    /// Matches one character not contained in the stored set.
    NegativeCharGroup(String),
    /// Matches exactly the stored character.
    Char(char),
    /// Matches only at the beginning of the input; legal only as the first token.
    StartAnchor,
    /// Matches only at the end of the input (or right before a newline);
    /// legal only as the last token.
    EndAnchor,
    /// Greedily matches one or more consecutive occurrences of the stored character.
    OneOrMore(char),
    /// Matches zero or one occurrence of the stored character.
    ZeroOrOne(char),
    /// Matches any one character.
    Wildcard,
    /// Matches when the entire remaining input equals one of the two branches.
    Alternation(String, String),
}

/// The mathematical value of a `Pattern`: the same shape, with every stored
/// string abstracted to its character sequence.
pub ghost enum PatternModel {
    Digit,
    AlphaNumeric,
    PositiveCharGroup(Seq<char>),
    NegativeCharGroup(Seq<char>),
    Char(char),
    StartAnchor,
    EndAnchor,
    OneOrMore(char),
    ZeroOrOne(char),
    Wildcard,
    Alternation(Seq<char>, Seq<char>),
}

impl View for Pattern {
    type V = PatternModel;

    open spec fn view(&self) -> PatternModel {
        match self {
            Pattern::Digit => PatternModel::Digit,
            Pattern::AlphaNumeric => PatternModel::AlphaNumeric,
            Pattern::PositiveCharGroup(g) => PatternModel::PositiveCharGroup(g@),
            Pattern::NegativeCharGroup(g) => PatternModel::NegativeCharGroup(g@),
            Pattern::Char(c) => PatternModel::Char(*c),
            Pattern::StartAnchor => PatternModel::StartAnchor,
            Pattern::EndAnchor => PatternModel::EndAnchor,
            Pattern::OneOrMore(c) => PatternModel::OneOrMore(*c),
            Pattern::ZeroOrOne(c) => PatternModel::ZeroOrOne(*c),
            Pattern::Wildcard => PatternModel::Wildcard,
            Pattern::Alternation(a, b) => PatternModel::Alternation(a@, b@),
        }
    }
}

/// The model of a whole compiled pattern: each token abstracted to its model.
pub open spec fn seq_model(ps: Seq<Pattern>) -> Seq<PatternModel> {
    ps.map_values(|p: Pattern| p@)
}

impl PartialEq for Pattern {
    /// Two tokens are equal exactly when their models are.
    #[verifier::rlimit(50)]
    fn eq(&self, other: &Pattern) -> (r: bool) {
        match (self, other) {
            (Pattern::Digit, Pattern::Digit) => true,
            (Pattern::AlphaNumeric, Pattern::AlphaNumeric) => true,
            (Pattern::PositiveCharGroup(a), Pattern::PositiveCharGroup(b)) => *a == *b,
            (Pattern::NegativeCharGroup(a), Pattern::NegativeCharGroup(b)) => *a == *b,
            (Pattern::Char(a), Pattern::Char(b)) => *a == *b,
            (Pattern::StartAnchor, Pattern::StartAnchor) => true,
            (Pattern::EndAnchor, Pattern::EndAnchor) => true,
            (Pattern::OneOrMore(a), Pattern::OneOrMore(b)) => *a == *b,
            (Pattern::ZeroOrOne(a), Pattern::ZeroOrOne(b)) => *a == *b,
            (Pattern::Wildcard, Pattern::Wildcard) => true,
            (Pattern::Alternation(a1, b1), Pattern::Alternation(a2, b2)) => *a1 == *a2 && *b1 == *b2,
            _ => false,
        }
    }
}

impl vstd::std_specs::cmp::PartialEqSpecImpl for Pattern {
    open spec fn obeys_eq_spec() -> bool {
        true
    }

    open spec fn eq_spec(&self, other: &Pattern) -> bool {
        self@ == other@
    }
}

/// An ASCII digit, `'0'` through `'9'`.
pub open spec fn is_digit_char(c: char) -> bool {
    48 <= c as u32 && c as u32 <= 57
}

/// An ASCII letter or digit.
pub open spec fn is_alnum_char(c: char) -> bool {
    ||| is_digit_char(c)
    ||| 65 <= c as u32 && c as u32 <= 90
    ||| 97 <= c as u32 && c as u32 <= 122
}

/// Decides [`is_digit_char`].
pub fn char_is_digit(c: char) -> (r: bool)
    ensures
        r == is_digit_char(c),
{
    let u: u32 = c as u32;
    48 <= u && u <= 57
}

/// Decides [`is_alnum_char`].
pub fn char_is_alnum(c: char) -> (r: bool)
    ensures
        r == is_alnum_char(c),
{
    let u: u32 = c as u32;
    (48 <= u && u <= 57) || (65 <= u && u <= 90) || (97 <= u && u <= 122)
}

/// A failure of pattern compilation; the payload describes the cause.
#[derive(Debug)]
pub enum PatternErr {
    InvalidPattern(String),
}

impl View for PatternErr {
    type V = Seq<char>;

    open spec fn view(&self) -> Seq<char> {
        match self {
            PatternErr::InvalidPattern(m) => m@,
        }
    }
}

/// The three causes on which compilation fails.
pub ghost enum ParseIssue {
    /// A backslash followed by anything but `d` or `w`.
    UnsupportedEscape,
    /// A `^` after at least one token has already been produced.
    StartAnchorNotFirst,
    /// A `$` with pattern characters remaining after it.
    EndAnchorNotLast,
}

/// The message that [`PatternErr`] carries for each cause.
pub open spec fn issue_message(e: ParseIssue) -> Seq<char> {
    match e {
        ParseIssue::UnsupportedEscape => "Unsupported escape sequence"@,
        ParseIssue::StartAnchorNotFirst => "Start anchor should be the first character"@,
        ParseIssue::EndAnchorNotLast => "End anchor should be the last character"@,
    }
}

/// Splits `s` at the first occurrence of `c`: the characters before it, and
/// the characters after it. When `c` does not occur, the whole of `s` and the
/// empty sequence.
pub open spec fn split_at_char(s: Seq<char>, c: char) -> (Seq<char>, Seq<char>)
    decreases s.len(),
{
    if s.len() == 0 {
        (Seq::empty(), Seq::empty())
    } else if s[0] == c {
        (Seq::empty(), s.skip(1))
    } else {
        let pr = split_at_char(s.skip(1), c);
        (seq![s[0]] + pr.0, pr.1)
    }
}

/// Skipping `a` then `b` elements is skipping `a + b` elements.
pub proof fn lemma_skip_skip<T>(s: Seq<T>, a: int, b: int)
    requires
        0 <= a,
        0 <= b,
        a + b <= s.len(),
    ensures
        s.skip(a).skip(b) == s.skip(a + b),
{
    assert(s.skip(a).skip(b) =~= s.skip(a + b));
}

/// What remains after splitting is never longer than the whole, and strictly
/// shorter whenever the whole is non-empty.
pub proof fn lemma_split_at_char_len(s: Seq<char>, c: char)
    ensures
        split_at_char(s, c).1.len() <= s.len(),
        s.len() > 0 ==> split_at_char(s, c).1.len() < s.len(),
    decreases s.len(),
{
    if s.len() > 0 && s[0] != c {
        lemma_split_at_char_len(s.skip(1), c);
    }
}

/// `split_at_char` is pinned down by the position `m` of the first occurrence
/// of `c` (or the length of `s` when `c` does not occur): the prefix is the
/// first `m` characters and the remainder is everything after position `m`.
pub proof fn lemma_split_at_char_is(s: Seq<char>, c: char, m: nat)
    requires
        m <= s.len(),
        forall|k: int| 0 <= k < m ==> s[k] != c,
        m < s.len() ==> s[m as int] == c,
    ensures
        split_at_char(s, c).0 == s.take(m as int),
        split_at_char(s, c).1 == if m < s.len() {
            s.skip(m as int + 1)
        } else {
            Seq::<char>::empty()
        },
    decreases s.len(),
{
    if m == 0 {
        if s.len() == 0 {
            assert(s.take(0) =~= Seq::<char>::empty());
        } else {
            assert(s[0] == c);
            assert(s.take(0) =~= Seq::<char>::empty());
        }
    } else {
        assert(s[0] != c);
        lemma_split_at_char_is(s.skip(1), c, (m - 1) as nat);
        assert(seq![s[0]] + s.skip(1).take(m - 1) =~= s.take(m as int));
        if m < s.len() {
            lemma_skip_skip(s, 1, m as int);
        }
    }
}

/// Prepends a token to the outcome of parsing the rest of the pattern; an
/// error from the rest stands unchanged.
pub open spec fn cons_token(t: PatternModel, r: Result<Seq<PatternModel>, ParseIssue>) -> Result<
    Seq<PatternModel>,
    ParseIssue,
> {
    match r {
        Ok(ts) => Ok(seq![t] + ts),
        Err(e) => Err(e),
    }
}

/// Prepends an already-produced token sequence to the outcome of parsing the
/// rest of the pattern; an error from the rest stands unchanged.
pub open spec fn cons_all(pre: Seq<PatternModel>, r: Result<Seq<PatternModel>, ParseIssue>) -> Result<
    Seq<PatternModel>,
    ParseIssue,
> {
    match r {
        Ok(ts) => Ok(pre + ts),
        Err(e) => Err(e),
    }
}

/// Moving one token from the front of the parsed rest onto the end of the
/// already-produced prefix changes nothing.
pub proof fn lemma_cons_shift(
    pre: Seq<PatternModel>,
    t: PatternModel,
    r: Result<Seq<PatternModel>, ParseIssue>,
)
    ensures
        cons_all(pre.push(t), r) == cons_all(pre, cons_token(t, r)),
{
    match r {
        Ok(ts) => {
            assert(pre.push(t) + ts =~= pre + (seq![t] + ts));
        },
        Err(_) => {
        },
    }
}

/// What compiling the pattern text `s` yields, given whether any token has
/// already been produced (`started`): the token sequence, or the first error.
/// Mirrors the single left-to-right pass of the compiler with one character of
/// lookahead.
pub open spec fn parse_from(s: Seq<char>, started: bool) -> Result<Seq<PatternModel>, ParseIssue>
    decreases s.len(),
    via parse_from_decreases
{
    if s.len() == 0 {
        Ok(Seq::empty())
    } else if s[0] == '\\' {
        // A trailing backslash is consumed without producing a token.
        if s.len() == 1 {
            Ok(Seq::empty())
        } else if s[1] == 'd' {
            cons_token(PatternModel::Digit, parse_from(s.skip(2), true))
        } else if s[1] == 'w' {
            cons_token(PatternModel::AlphaNumeric, parse_from(s.skip(2), true))
        } else {
            Err(ParseIssue::UnsupportedEscape)
        }
    } else if s[0] == '^' {
        if started {
            Err(ParseIssue::StartAnchorNotFirst)
        } else {
            cons_token(PatternModel::StartAnchor, parse_from(s.skip(1), true))
        }
    } else if s[0] == '$' {
        if s.len() > 1 {
            Err(ParseIssue::EndAnchorNotLast)
        } else {
            Ok(seq![PatternModel::EndAnchor])
        }
    } else if s[0] == '[' {
        let body = s.skip(1);
        let neg = body.len() > 0 && body[0] == '^';
        let inner = if neg {
            body.skip(1)
        } else {
            body
        };
        let pr = split_at_char(inner, ']');
        let tok = if neg {
            PatternModel::NegativeCharGroup(pr.0)
        } else {
            PatternModel::PositiveCharGroup(pr.0)
        };
        cons_token(tok, parse_from(pr.1, true))
    } else if s[0] == '(' {
        let pa = split_at_char(s.skip(1), '|');
        let pb = split_at_char(pa.1, ')');
        cons_token(PatternModel::Alternation(pa.0, pb.0), parse_from(pb.1, true))
    } else if s[0] == '.' {
        cons_token(PatternModel::Wildcard, parse_from(s.skip(1), true))
    } else if s.len() > 1 && s[1] == '+' {
        cons_token(PatternModel::OneOrMore(s[0]), parse_from(s.skip(2), true))
    } else if s.len() > 1 && s[1] == '?' {
        cons_token(PatternModel::ZeroOrOne(s[0]), parse_from(s.skip(2), true))
    } else {
        cons_token(PatternModel::Char(s[0]), parse_from(s.skip(1), true))
    }
}

/// Compilation is a function of the pattern text alone: the same text always
/// yields the same token sequence or the same error, however often it is
/// compiled.
pub proof fn lemma_parse_deterministic(p1: Seq<char>, p2: Seq<char>)
    requires
        p1 == p2,
    ensures
        parse_from(p1, false) == parse_from(p2, false),
{
}

#[via_fn]
proof fn parse_from_decreases(s: Seq<char>, started: bool) {
    if s.len() > 0 && s[0] == '[' {
        let body = s.skip(1);
        let inner = if body.len() > 0 && body[0] == '^' {
            body.skip(1)
        } else {
            body
        };
        lemma_split_at_char_len(inner, ']');
    }
    if s.len() > 0 && s[0] == '(' {
        lemma_split_at_char_len(s.skip(1), '|');
        lemma_split_at_char_len(split_at_char(s.skip(1), '|').1, ')');
    }
}

} // verus!
