//! The lexer: a single left-to-right pass that turns source text into an
//! ordered sequence of tokens. Parentheses become one token each, whitespace
//! is skipped, digit runs become one number token (maximal munch), quoted
//! spans become one string token, letter runs become one name token, and any
//! other character is skipped. A digit run whose value does not fit in `u32`
//! and a quote that is never closed are reported as typed errors.

use vstd::prelude::*;

use crate::identify::{
    digit_char, digit_value, letter_char, parenthesis_char, quote_char, whitespace_char,
};

verus! {

/// The smallest classified unit of source text.
#[derive(Clone, Debug, PartialEq)]
pub enum Token {
    Parenthesis(char),
    Name(String),
    Number(u32),
    String(String),
}

/// The mathematical value of a token: strings are viewed as character
/// sequences.
pub ghost enum TokenView {
    Parenthesis(char),
    Name(Seq<char>),
    Number(u32),
    String(Seq<char>),
}

pub open spec fn token_view(t: Token) -> TokenView {
    match t {
        Token::Parenthesis(c) => TokenView::Parenthesis(c),
        Token::Name(s) => TokenView::Name(s@),
        Token::Number(v) => TokenView::Number(v),
        Token::String(s) => TokenView::String(s@),
    }
}

pub open spec fn tokens_view(ts: Seq<Token>) -> Seq<TokenView> {
    Seq::new(ts.len(), |k: int| token_view(ts[k]))
}

impl Token {
    pub fn string(s: &str) -> (t: Token)
        ensures
            token_view(t) == TokenView::String(s@),
    {
        Token::String(s.to_owned())
    }

    pub fn name(s: &str) -> (t: Token)
        ensures
            token_view(t) == TokenView::Name(s@),
    {
        Token::Name(s.to_owned())
    }

    pub fn parenthesis(c: char) -> (t: Token)
        ensures
            token_view(t) == TokenView::Parenthesis(c),
    {
        Token::Parenthesis(c)
    }

    pub fn number(v: u32) -> (t: Token)
        ensures
            token_view(t) == TokenView::Number(v),
    {
        Token::Number(v)
    }
}

/// A lexing failure, carrying the character index of the offending span.
#[derive(Clone, Copy, Debug, PartialEq, Eq, Structural)]
pub enum LexError {
    /// A digit run starting at `at` whose value does not fit in `u32`.
    NumericOverflow { at: usize },
    /// A quote at `at` that is never closed before the input ends.
    UnterminatedString { at: usize },
}

/// What lexing an input yields: either the full token sequence or a failure.
pub ghost enum LexOutcome {
    Tokens(Seq<TokenView>),
    NumericOverflow(int),
    UnterminatedString(int),
}

/// The first position at or after `i` that does not hold a digit.
pub open spec fn digit_run_end(s: Seq<char>, i: int) -> int
    decreases s.len() - i,
{
    if i < 0 || i >= s.len() {
        i
    } else if digit_char(s[i]) {
        digit_run_end(s, i + 1)
    } else {
        i
    }
}

/// The first position at or after `i` that does not hold a letter.
pub open spec fn letter_run_end(s: Seq<char>, i: int) -> int
    decreases s.len() - i,
{
    if i < 0 || i >= s.len() {
        i
    } else if letter_char(s[i]) {
        letter_run_end(s, i + 1)
    } else {
        i
    }
}

/// The position of the first quote character at or after `i`, if any.
pub open spec fn next_quote(s: Seq<char>, i: int) -> Option<int>
    decreases s.len() - i,
{
    if i < 0 || i >= s.len() {
        None
    } else if quote_char(s[i]) {
        Some(i)
    } else {
        next_quote(s, i + 1)
    }
}

/// The value of a digit run read as a decimal number.
pub open spec fn digits_value(s: Seq<char>) -> nat
    decreases s.len(),
{
    if s.len() == 0 {
        0
    } else {
        10 * digits_value(s.drop_last()) + digit_value(s.last())
    }
}

pub open spec fn lex_prepend(t: TokenView, r: LexOutcome) -> LexOutcome {
    match r {
        LexOutcome::Tokens(ts) => LexOutcome::Tokens(seq![t] + ts),
        _ => r,
    }
}

pub open spec fn lex_append(ts: Seq<TokenView>, r: LexOutcome) -> LexOutcome {
    match r {
        LexOutcome::Tokens(us) => LexOutcome::Tokens(ts + us),
        _ => r,
    }
}

/// What lexing the input from position `i` on yields, by the rules above.
pub open spec fn spec_lex(s: Seq<char>, i: int) -> LexOutcome
    decreases s.len() - i,
        via spec_lex_decreases
{
    if i < 0 || i >= s.len() {
        LexOutcome::Tokens(Seq::empty())
    } else {
        let c = s[i];
        if parenthesis_char(c) {
            lex_prepend(TokenView::Parenthesis(c), spec_lex(s, i + 1))
        } else if whitespace_char(c) {
            spec_lex(s, i + 1)
        } else if digit_char(c) {
            let j = digit_run_end(s, i);
            if digits_value(s.subrange(i, j)) > u32::MAX {
                LexOutcome::NumericOverflow(i)
            } else {
                lex_prepend(
                    TokenView::Number(digits_value(s.subrange(i, j)) as u32),
                    spec_lex(s, j),
                )
            }
        } else if quote_char(c) {
            match next_quote(s, i + 1) {
                Some(j) => lex_prepend(TokenView::String(s.subrange(i + 1, j)), spec_lex(s, j + 1)),
                None => LexOutcome::UnterminatedString(i),
            }
        } else if letter_char(c) {
            let j = letter_run_end(s, i);
            lex_prepend(TokenView::Name(s.subrange(i, j)), spec_lex(s, j))
        } else {
            spec_lex(s, i + 1)
        }
    }
}

#[via_fn]
proof fn spec_lex_decreases(s: Seq<char>, i: int) {
    if 0 <= i < s.len() {
        lemma_digit_run_end_bounds(s, i);
        lemma_letter_run_end_bounds(s, i);
        lemma_next_quote_bounds(s, i + 1);
    }
}

pub proof fn lemma_digit_run_end_bounds(s: Seq<char>, i: int)
    requires
        0 <= i <= s.len(),
    ensures
        i <= digit_run_end(s, i) <= s.len(),
        i < s.len() && digit_char(s[i]) ==> i < digit_run_end(s, i),
    decreases s.len() - i,
{
    if i < s.len() && digit_char(s[i]) {
        lemma_digit_run_end_bounds(s, i + 1);
    }
}

pub proof fn lemma_letter_run_end_bounds(s: Seq<char>, i: int)
    requires
        0 <= i <= s.len(),
    ensures
        i <= letter_run_end(s, i) <= s.len(),
        i < s.len() && letter_char(s[i]) ==> i < letter_run_end(s, i),
    decreases s.len() - i,
{
    if i < s.len() && letter_char(s[i]) {
        lemma_letter_run_end_bounds(s, i + 1);
    }
}

pub proof fn lemma_next_quote_bounds(s: Seq<char>, i: int)
    requires
        0 <= i,
    ensures
        match next_quote(s, i) {
            Some(j) => i <= j < s.len() && quote_char(s[j]),
            None => true,
        },
    decreases s.len() - i,
{
    if i < s.len() && !quote_char(s[i]) {
        lemma_next_quote_bounds(s, i + 1);
    }
}

proof fn lemma_digit_run_end_is(s: Seq<char>, i: int, j: int)
    requires
        0 <= i <= j <= s.len(),
        forall|k: int| i <= k < j ==> digit_char(s[k]),
        j == s.len() || !digit_char(s[j]),
    ensures
        digit_run_end(s, i) == j,
    decreases j - i,
{
    if i < j {
        lemma_digit_run_end_is(s, i + 1, j);
    }
}

proof fn lemma_digit_run_end_at_least(s: Seq<char>, i: int, j: int)
    requires
        0 <= i <= j <= s.len(),
        forall|k: int| i <= k < j ==> digit_char(s[k]),
    ensures
        digit_run_end(s, i) >= j,
    decreases j - i,
{
    lemma_digit_run_end_bounds(s, i);
    if i < j {
        lemma_digit_run_end_at_least(s, i + 1, j);
    }
}

proof fn lemma_letter_run_end_is(s: Seq<char>, i: int, j: int)
    requires
        0 <= i <= j <= s.len(),
        forall|k: int| i <= k < j ==> letter_char(s[k]),
        j == s.len() || !letter_char(s[j]),
    ensures
        letter_run_end(s, i) == j,
    decreases j - i,
{
    if i < j {
        lemma_letter_run_end_is(s, i + 1, j);
    }
}

proof fn lemma_next_quote_is(s: Seq<char>, i: int, j: int)
    requires
        0 <= i <= j < s.len(),
        forall|k: int| i <= k < j ==> !quote_char(s[k]),
        quote_char(s[j]),
    ensures
        next_quote(s, i) == Some(j),
    decreases j - i,
{
    if i < j {
        lemma_next_quote_is(s, i + 1, j);
    }
}

proof fn lemma_next_quote_none(s: Seq<char>, i: int)
    requires
        0 <= i,
        forall|k: int| i <= k < s.len() ==> !quote_char(s[k]),
    ensures
        next_quote(s, i) is None,
    decreases s.len() - i,
{
    if i < s.len() {
        lemma_next_quote_none(s, i + 1);
    }
}

proof fn lemma_digits_value_push(s: Seq<char>, c: char)
    ensures
        digits_value(s.push(c)) == 10 * digits_value(s) + digit_value(c),
{
    assert(s.push(c).drop_last() =~= s);
}

proof fn lemma_digits_value_prefix(s: Seq<char>, m: int)
    requires
        0 <= m <= s.len(),
    ensures
        digits_value(s.take(m)) <= digits_value(s),
    decreases s.len(),
{
    if m < s.len() {
        assert(s.take(m) =~= s.drop_last().take(m));
        lemma_digits_value_prefix(s.drop_last(), m);
    } else {
        assert(s.take(m) =~= s);
    }
}

proof fn lemma_lex_append_prepend(ts: Seq<TokenView>, t: TokenView, r: LexOutcome)
    ensures
        lex_append(ts, lex_prepend(t, r)) == lex_append(ts.push(t), r),
{
    match r {
        LexOutcome::Tokens(us) => {
            assert(ts + (seq![t] + us) =~= ts.push(t) + us);
        },
        _ => {},
    }
}

proof fn lemma_tokens_view_push(ts: Seq<Token>, t: Token)
    ensures
        tokens_view(ts.push(t)) == tokens_view(ts).push(token_view(t)),
{
    assert(tokens_view(ts.push(t)) =~= tokens_view(ts).push(token_view(t)));
}

/// The view of what `tokenize` returns, for comparison with `spec_lex`.
pub open spec fn lex_output_view(r: Result<Vec<Token>, LexError>) -> LexOutcome {
    match r {
        Ok(ts) => LexOutcome::Tokens(tokens_view(ts@)),
        Err(LexError::NumericOverflow { at }) => LexOutcome::NumericOverflow(at as int),
        Err(LexError::UnterminatedString { at }) => LexOutcome::UnterminatedString(at as int),
    }
}

/// Lexing is deterministic: any two results that meet `tokenize`'s contract
/// on equal character sequences are equal at the view level.
pub proof fn lemma_tokenize_deterministic(
    s1: Seq<char>,
    s2: Seq<char>,
    r1: Result<Vec<Token>, LexError>,
    r2: Result<Vec<Token>, LexError>,
)
    requires
        s1 == s2,
        lex_output_view(r1) == spec_lex(s1, 0),
        lex_output_view(r2) == spec_lex(s2, 0),
    ensures
        lex_output_view(r1) == lex_output_view(r2),
{
}

/// Scan the whole input and return its tokens in source order, or the first
/// lexing failure.
pub fn tokenize(input: &str) -> (r: Result<Vec<Token>, LexError>)
    ensures
        lex_output_view(r) == spec_lex(input@, 0),
{
    let ghost s = input@;
    let n = input.unicode_len();
    let mut tokens: Vec<Token> = Vec::new();
    let mut i: usize = 0;
    proof {
        match spec_lex(s, 0) {
            LexOutcome::Tokens(ts) => {
                assert(Seq::<TokenView>::empty() + ts =~= ts);
            },
            _ => {},
        }
        assert(tokens_view(tokens@) =~= Seq::<TokenView>::empty());
    }
    while i < n
        invariant
            n == s.len(),
            s == input@,
            i <= n,
            spec_lex(s, 0) == lex_append(tokens_view(tokens@), spec_lex(s, i as int)),
        decreases n - i,
    {
        let ghost i0 = i as int;
        let ghost pre = tokens@;
        let c = input.get_char(i);
        if crate::identify::is_parenthesis(&c) {
            let t = Token::parenthesis(c);
            proof {
                lemma_tokens_view_push(pre, t);
                lemma_lex_append_prepend(
                    tokens_view(pre),
                    TokenView::Parenthesis(c),
                    spec_lex(s, i0 + 1),
                );
            }
            tokens.push(t);
            i = i + 1;
        } else if crate::identify::is_whitespace(&c) {
            i = i + 1;
        } else if crate::identify::is_number(&c) {
            let start = i;
            let mut val: u32 = c as u32 - 48;
            i = i + 1;
            proof {
                lemma_digits_value_push(Seq::<char>::empty(), c);
                assert(Seq::<char>::empty().push(c) =~= s.subrange(start as int, i as int));
            }
            loop
                invariant
                    n == s.len(),
                    s == input@,
                    start < i <= n,
                    digit_char(s[start as int]),
                    !parenthesis_char(s[start as int]),
                    !whitespace_char(s[start as int]),
                    spec_lex(s, 0) == lex_append(tokens_view(tokens@), spec_lex(s, start as int)),
                    forall|k: int| start <= k < i ==> digit_char(s[k]),
                    val as nat == digits_value(s.subrange(start as int, i as int)),
                ensures
                    n == s.len(),
                    start < i <= n,
                    forall|k: int| start <= k < i ==> digit_char(s[k]),
                    val as nat == digits_value(s.subrange(start as int, i as int)),
                    i == n || !digit_char(s[i as int]),
                decreases n - i,
            {
                if i >= n {
                    break;
                }
                let d = input.get_char(i);
                if !crate::identify::is_number(&d) {
                    break;
                }
                let dv: u32 = d as u32 - 48;
                proof {
                    lemma_digits_value_push(s.subrange(start as int, i as int), d);
                    assert(s.subrange(start as int, i as int).push(d) =~= s.subrange(
                        start as int,
                        i as int + 1,
                    ));
                }
                if val > 429496729 || (val == 429496729 && dv > 5) {
                    proof {
                        let j = digit_run_end(s, start as int);
                        lemma_digit_run_end_bounds(s, start as int);
                        lemma_digit_run_end_at_least(s, start as int, i as int + 1);
                        assert(s.subrange(start as int, i as int + 1) =~= s.subrange(
                            start as int,
                            j,
                        ).take(i as int + 1 - start));
                        lemma_digits_value_prefix(s.subrange(start as int, j), i as int + 1 - start);
                        assert(digits_value(s.subrange(start as int, j)) > u32::MAX);
                        assert(spec_lex(s, start as int) == LexOutcome::NumericOverflow(
                            start as int,
                        ));
                    }
                    return Err(LexError::NumericOverflow { at: start });
                }
                val = val * 10 + dv;
                i = i + 1;
            }
            let t = Token::number(val);
            proof {
                lemma_digit_run_end_is(s, start as int, i as int);
                lemma_tokens_view_push(pre, t);
                lemma_lex_append_prepend(tokens_view(pre), TokenView::Number(val), spec_lex(s, i as int));
            }
            tokens.push(t);
        } else if crate::identify::is_quote(&c) {
            let start = i;
            i = i + 1;
            loop
                invariant
                    n == s.len(),
                    s == input@,
                    start < i <= n,
                    quote_char(s[start as int]),
                    !parenthesis_char(s[start as int]),
                    !whitespace_char(s[start as int]),
                    !digit_char(s[start as int]),
                    spec_lex(s, 0) == lex_append(tokens_view(tokens@), spec_lex(s, start as int)),
                    forall|k: int| start < k < i ==> !quote_char(s[k]),
                ensures
                    n == s.len(),
                    start < i <= n,
                    forall|k: int| start < k < i ==> !quote_char(s[k]),
                    i < n && quote_char(s[i as int]),
                decreases n - i,
            {
                if i >= n {
                    proof {
                        lemma_next_quote_none(s, start as int + 1);
                        assert(spec_lex(s, start as int) == LexOutcome::UnterminatedString(
                            start as int,
                        ));
                    }
                    return Err(LexError::UnterminatedString { at: start });
                }
                let d = input.get_char(i);
                if crate::identify::is_quote(&d) {
                    break;
                }
                i = i + 1;
            }
            proof {
                lemma_next_quote_is(s, start as int + 1, i as int);
            }
            let content = input.substring_char(start + 1, i);
            let t = Token::string(content);
            proof {
                lemma_tokens_view_push(pre, t);
                lemma_lex_append_prepend(
                    tokens_view(pre),
                    TokenView::String(s.subrange(start as int + 1, i as int)),
                    spec_lex(s, i as int + 1),
                );
            }
            tokens.push(t);
            i = i + 1;
        } else if crate::identify::is_letter(&c) {
            let start = i;
            i = i + 1;
            loop
                invariant
                    n == s.len(),
                    s == input@,
                    start < i <= n,
                    letter_char(s[start as int]),
                    forall|k: int| start <= k < i ==> letter_char(s[k]),
                ensures
                    n == s.len(),
                    start < i <= n,
                    forall|k: int| start <= k < i ==> letter_char(s[k]),
                    i == n || !letter_char(s[i as int]),
                decreases n - i,
            {
                if i >= n {
                    break;
                }
                let d = input.get_char(i);
                if !crate::identify::is_letter(&d) {
                    break;
                }
                i = i + 1;
            }
            let name = input.substring_char(start, i);
            let t = Token::name(name);
            proof {
                lemma_letter_run_end_is(s, start as int, i as int);
                lemma_tokens_view_push(pre, t);
                lemma_lex_append_prepend(
                    tokens_view(pre),
                    TokenView::Name(s.subrange(start as int, i as int)),
                    spec_lex(s, i as int),
                );
            }
            tokens.push(t);
        } else {
            i = i + 1;
        }
    }
    proof {
        match spec_lex(s, 0) {
            LexOutcome::Tokens(ts) => {
                assert(tokens_view(tokens@) + Seq::<TokenView>::empty() =~= tokens_view(tokens@));
            },
            _ => {},
        }
    }
    Ok(tokens)
}

} // verus!
