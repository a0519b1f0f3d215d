//! The JSON lexer: longest-match tokens outside strings, and text and
//! escape tokens inside them.

use vstd::prelude::*;
use vstd::string::StringSliceAdditionalSpecFns;
use crate::syntax::{Span, SyntaxError};
use crate::syntax::tree::{tiles, tokens_view};
use crate::syntax::scan::{
    boundary_end, boundary_from, is_digit, lemma_boundary_bound, lemma_run_bound, run, run_end,
    Class,
};

verus! {

/// The kinds of JSON tokens, including whitespace and invalid input.
#[derive(Clone, Copy, Debug, PartialEq, Eq, Structural)]
pub enum Token {
    EOF,
    True,
    False,
    Null,
    LBrace,
    RBrace,
    LBracket,
    RBracket,
    Comma,
    Colon,
    DoubleQuote,
    StringText,
    EscapeSequence,
    Number,
    Whitespace,
    Error,
}

/// The one way input fails to form a token.
#[derive(Clone, Copy, Debug, PartialEq, Eq, Structural)]
pub enum LexerError {
    Invalid,
}

impl LexerError {
    /// The diagnostic for an invalid token at `span`.
    pub fn into_diagnostic(self, span: Span) -> (e: SyntaxError)
        ensures
            e.message@ == "invalid token"@,
            e.span == span,
    {
        SyntaxError { message: String::from_str("invalid token"), span }
    }
}

pub open spec fn is_hex(b: u8) -> bool {
    is_digit(b) || (65 <= b <= 70) || (97 <= b <= 102)
}

/// `s[i..]` starts with `w`.
pub open spec fn starts_with(s: Seq<u8>, i: int, w: Seq<u8>) -> bool {
    0 <= i && i + w.len() <= s.len() && s.subrange(i, i + w.len() as int) == w
}

/// The end of the integer part `0` or `[1-9][0-9]*` at `j`.
pub open spec fn int_part_end(s: Seq<u8>, j: int) -> Option<int> {
    if 0 <= j < s.len() && s[j] == 48u8 {
        Some(j + 1)
    } else if 0 <= j < s.len() && 49u8 <= s[j] <= 57u8 {
        Some(j + run(s, j, Class::Digit))
    } else {
        None
    }
}

/// The end of the longest number `-?(0|[1-9][0-9]*)(\.[0-9]+)?([eE][+-]?[0-9]+)?`
/// at `i`, if one starts there.
pub open spec fn number_end(s: Seq<u8>, i: int) -> Option<int> {
    let j = if 0 <= i < s.len() && s[i] == 45u8 { i + 1 } else { i };
    match int_part_end(s, j) {
        None => None,
        Some(a) => {
            let b = if a + 1 < s.len() && s[a] == 46u8 && is_digit(s[a + 1]) {
                a + 1 + run(s, a + 1, Class::Digit)
            } else {
                a
            };
            let k = if b < s.len() && (s[b] == 101u8 || s[b] == 69u8) {
                if b + 1 < s.len() && (s[b + 1] == 43u8 || s[b + 1] == 45u8) {
                    b + 2
                } else {
                    b + 1
                }
            } else {
                b
            };
            if k > b && k < s.len() && is_digit(s[k]) {
                Some(k + run(s, k, Class::Digit))
            } else {
                Some(b)
            }
        },
    }
}

/// The single-byte punctuation token for `b`, if any.
pub open spec fn punctuation(b: u8) -> Option<Token> {
    if b == 123u8 {
        Some(Token::LBrace)
    } else if b == 125u8 {
        Some(Token::RBrace)
    } else if b == 91u8 {
        Some(Token::LBracket)
    } else if b == 93u8 {
        Some(Token::RBracket)
    } else if b == 44u8 {
        Some(Token::Comma)
    } else if b == 58u8 {
        Some(Token::Colon)
    } else if b == 34u8 {
        Some(Token::DoubleQuote)
    } else {
        None
    }
}

/// The longest token outside strings at `i < s.len()`, and its end. Input
/// that starts no token is one invalid character.
pub open spec fn normal_token(s: Seq<u8>, i: int) -> (Token, int) {
    let b = s[i];
    let invalid = (Token::Error, boundary_from(s, i + 1));
    if b == 116u8 {
        if starts_with(s, i, seq![116u8, 114, 117, 101]) { (Token::True, i + 4) } else { invalid }
    } else if b == 102u8 {
        if starts_with(s, i, seq![102u8, 97, 108, 115, 101]) { (Token::False, i + 5) } else { invalid }
    } else if b == 110u8 {
        if starts_with(s, i, seq![110u8, 117, 108, 108]) { (Token::Null, i + 4) } else { invalid }
    } else if b == 45u8 || is_digit(b) {
        match number_end(s, i) {
            Some(e) => (Token::Number, e),
            None => invalid,
        }
    } else if b == 32u8 || b == 9u8 || b == 13u8 || b == 10u8 {
        (Token::Whitespace, i + run(s, i, Class::Space))
    } else {
        match punctuation(b) {
            Some(t) => (t, i + 1),
            None => invalid,
        }
    }
}

/// The longest token inside a string at `i < s.len()`, and its end.
pub open spec fn string_token(s: Seq<u8>, i: int) -> (Token, int) {
    let b = s[i];
    if b == 34u8 {
        (Token::DoubleQuote, i + 1)
    } else if b == 92u8 {
        if i + 6 <= s.len() && s[i + 1] == 117u8 && is_hex(s[i + 2]) && is_hex(s[i + 3])
            && is_hex(s[i + 4]) && is_hex(s[i + 5]) {
            (Token::EscapeSequence, i + 6)
        } else if i + 1 < s.len() && s[i + 1] != 10u8 {
            (Token::EscapeSequence, boundary_from(s, i + 2))
        } else {
            (Token::Error, boundary_from(s, i + 1))
        }
    } else if b < 32u8 {
        (Token::Error, boundary_from(s, i + 1))
    } else {
        (Token::StringText, i + run(s, i, Class::JsonText))
    }
}

/// The tokens of `s[i..]`, inside a string or not, each with its span.
pub open spec fn lex_from(s: Seq<u8>, i: int, in_string: bool) -> Seq<(Token, int, int)>
    decreases s.len() - i,
{
    if i < 0 || i >= s.len() {
        Seq::empty()
    } else {
        let (t, e) = if in_string { string_token(s, i) } else { normal_token(s, i) };
        if e <= i || e > s.len() {
            Seq::empty()
        } else {
            seq![(t, i, e)] + lex_from(s, e, if t == Token::DoubleQuote { !in_string } else { in_string })
        }
    }
}

/// The tokens of a whole JSON text.
pub open spec fn lex(s: Seq<u8>) -> Seq<(Token, int, int)> {
    lex_from(s, 0, false)
}

/// One `invalid token` diagnostic per invalid token, in order.
pub open spec fn token_diagnostics(ts: Seq<(Token, int, int)>) -> Seq<(Seq<char>, int, int)>
    decreases ts.len(),
{
    if ts.len() == 0 {
        Seq::empty()
    } else {
        let rest = token_diagnostics(ts.drop_last());
        let (t, a, b) = ts.last();
        if t == Token::Error {
            rest.push(("invalid token"@, a, b))
        } else {
            rest
        }
    }
}

pub proof fn lemma_token_advances(s: Seq<u8>, i: int, in_string: bool)
    requires
        0 <= i < s.len(),
    ensures
        in_string ==> i < string_token(s, i).1 <= s.len(),
        !in_string ==> i < normal_token(s, i).1 <= s.len(),
{
    lemma_run_bound(s, i, Class::Space);
    lemma_run_bound(s, i, Class::JsonText);
    lemma_boundary_bound(s, i + 1);
    if i + 2 <= s.len() {
        lemma_boundary_bound(s, i + 2);
    }
    let j = if s[i] == 45u8 { i + 1 } else { i };
    if j < s.len() {
        lemma_run_bound(s, j, Class::Digit);
        if int_part_end(s, j) is Some {
            let a = int_part_end(s, j)->Some_0;
            if a + 1 < s.len() {
                lemma_run_bound(s, a + 1, Class::Digit);
            }
            let b = if a + 1 < s.len() && s[a] == 46u8 && is_digit(s[a + 1]) {
                a + 1 + run(s, a + 1, Class::Digit)
            } else {
                a
            };
            let k = if b < s.len() && (s[b] == 101u8 || s[b] == 69u8) {
                if b + 1 < s.len() && (s[b + 1] == 43u8 || s[b + 1] == 45u8) { b + 2 } else { b + 1 }
            } else {
                b
            };
            if k < s.len() {
                lemma_run_bound(s, k, Class::Digit);
            }
        }
    }
}

/// Lexing is lossless: the token spans of any text tile it exactly.
pub proof fn lemma_lex_tiles(s: Seq<u8>, i: int, in_string: bool)
    requires
        0 <= i <= s.len(),
    ensures
        tiles(lex_from(s, i, in_string), i, s.len() as int),
    decreases s.len() - i,
{
    if i < s.len() {
        lemma_token_advances(s, i, in_string);
        let (t, e) = if in_string { string_token(s, i) } else { normal_token(s, i) };
        let next = if t == Token::DoubleQuote { !in_string } else { in_string };
        lemma_lex_tiles(s, e, next);
        let rest = lex_from(s, e, next);
        let all = lex_from(s, i, in_string);
        assert(all == seq![(t, i, e)] + rest);
        assert forall|k: int| 0 <= k < all.len() - 1 implies #[trigger] all[k].2 == all[k + 1].1 by {
            if k > 0 {
                assert(all[k] == rest[k - 1]);
                assert(all[k + 1] == rest[k]);
            }
        }
        assert forall|k: int| 0 <= k < all.len() implies #[trigger] all[k].1 < all[k].2 by {
            if k > 0 {
                assert(all[k] == rest[k - 1]);
            }
        }
    }
}

// ---------------------------------------------------------------------------
// Executable lexer.

fn is_hex_exec(b: u8) -> (r: bool)
    ensures
        r == is_hex(b),
{
    (48 <= b && b <= 57) || (65 <= b && b <= 70) || (97 <= b && b <= 102)
}

fn starts_with_at(s: &[u8], i: usize, w: &[u8]) -> (r: bool)
    requires
        i <= s@.len(),
    ensures
        r == starts_with(s@, i as int, w@),
{
    if s.len() - i < w.len() {
        return false;
    }
    let mut k: usize = 0;
    let n = s.len();
    while k < w.len()
        invariant
            n == s@.len(),
            i + w@.len() <= s@.len(),
            k <= w@.len(),
            forall|q: int| 0 <= q < k ==> s@[i + q] == w@[q],
        decreases w@.len() - k,
    {
        if s[i + k] != w[k] {
            assert(s@.subrange(i as int, i + w@.len())[k as int] != w@[k as int]);
            return false;
        }
        k = k + 1;
    }
    assert(s@.subrange(i as int, i + w@.len()) =~= w@);
    true
}

fn number_end_at(s: &[u8], i: usize) -> (r: Option<usize>)
    requires
        i < s@.len(),
    ensures
        r matches Some(e) ==> number_end(s@, i as int) == Some(e as int),
        r is None ==> number_end(s@, i as int) is None,
{
    let n = s.len();
    let j = if s[i] == 45 {
        i + 1
    } else {
        i
    };
    let a = if j < n && s[j] == 48 {
        j + 1
    } else if j < n && 49 <= s[j] && s[j] <= 57 {
        run_end(s, j, Class::Digit)
    } else {
        return None;
    };
    assert(a <= n);
    let b = if a < n - 1 && s[a] == 46 && 48 <= s[a + 1] && s[a + 1] <= 57 {
        run_end(s, a + 1, Class::Digit)
    } else {
        a
    };
    proof {
        lemma_run_bound(s@, j as int, Class::Digit);
        if a < n - 1 {
            lemma_run_bound(s@, a + 1, Class::Digit);
        }
    }
    let k = if b < n && (s[b] == 101 || s[b] == 69) {
        if b + 1 < n && (s[b + 1] == 43 || s[b + 1] == 45) {
            b + 2
        } else {
            b + 1
        }
    } else {
        b
    };
    if k > b && k < n && 48 <= s[k] && s[k] <= 57 {
        Some(run_end(s, k, Class::Digit))
    } else {
        Some(b)
    }
}

fn punctuation_at(b: u8) -> (t: Option<Token>)
    ensures
        t == punctuation(b),
{
    if b == 123 { Some(Token::LBrace) }
    else if b == 125 { Some(Token::RBrace) }
    else if b == 91 { Some(Token::LBracket) }
    else if b == 93 { Some(Token::RBracket) }
    else if b == 44 { Some(Token::Comma) }
    else if b == 58 { Some(Token::Colon) }
    else if b == 34 { Some(Token::DoubleQuote) }
    else { None }
}

fn normal_token_at(s: &[u8], i: usize) -> (r: (Token, usize))
    requires
        i < s@.len(),
    ensures
        r.0 == normal_token(s@, i as int).0,
        r.1 == normal_token(s@, i as int).1,
{
    let b = s[i];
    let true_word: Vec<u8> = vec![116u8, 114u8, 117u8, 101u8];
    let false_word: Vec<u8> = vec![102u8, 97u8, 108u8, 115u8, 101u8];
    let null_word: Vec<u8> = vec![110u8, 117u8, 108u8, 108u8];
    assert(true_word@ =~= seq![116u8, 114, 117, 101]);
    assert(false_word@ =~= seq![102u8, 97, 108, 115, 101]);
    assert(null_word@ =~= seq![110u8, 117, 108, 108]);
    let invalid = (Token::Error, boundary_end(s, i + 1));
    if b == 116 {
        if starts_with_at(s, i, true_word.as_slice()) { (Token::True, i + 4) } else { invalid }
    } else if b == 102 {
        if starts_with_at(s, i, false_word.as_slice()) { (Token::False, i + 5) } else { invalid }
    } else if b == 110 {
        if starts_with_at(s, i, null_word.as_slice()) { (Token::Null, i + 4) } else { invalid }
    } else if b == 45 || (48 <= b && b <= 57) {
        match number_end_at(s, i) {
            Some(e) => (Token::Number, e),
            None => invalid,
        }
    } else if b == 32 || b == 9 || b == 13 || b == 10 {
        (Token::Whitespace, run_end(s, i, Class::Space))
    } else {
        match punctuation_at(b) {
            Some(t) => (t, i + 1),
            None => invalid,
        }
    }
}

fn string_token_at(s: &[u8], i: usize) -> (r: (Token, usize))
    requires
        i < s@.len(),
    ensures
        r.0 == string_token(s@, i as int).0,
        r.1 == string_token(s@, i as int).1,
{
    let b = s[i];
    let n = s.len();
    if b == 34 {
        (Token::DoubleQuote, i + 1)
    } else if b == 92 {
        if n - i >= 6 && s[i + 1] == 117 && is_hex_exec(s[i + 2]) && is_hex_exec(s[i + 3])
            && is_hex_exec(s[i + 4]) && is_hex_exec(s[i + 5]) {
            (Token::EscapeSequence, i + 6)
        } else if i + 1 < n && s[i + 1] != 10 {
            (Token::EscapeSequence, boundary_end(s, i + 2))
        } else {
            (Token::Error, boundary_end(s, i + 1))
        }
    } else if b < 32 {
        (Token::Error, boundary_end(s, i + 1))
    } else {
        (Token::StringText, run_end(s, i, Class::JsonText))
    }
}

/// Views of diagnostics as (message, start, end).
pub open spec fn errors_view(es: Seq<SyntaxError>) -> Seq<(Seq<char>, int, int)> {
    es.map_values(|e: SyntaxError| (e.message@, e.span.start as int, e.span.end as int))
}

/// Splits a JSON text into tokens with their byte spans, and appends an
/// `invalid token` diagnostic for every invalid token.
pub fn tokenize(source: &str, diags: &mut Vec<SyntaxError>) -> (r: (Vec<Token>, Vec<Span>))
    ensures
        r.0@.len() == r.1@.len(),
        tokens_view(r.0@, r.1@) == lex(source.spec_bytes()),
        tiles(lex(source.spec_bytes()), 0, source.spec_bytes().len() as int),
        errors_view(final(diags)@) == errors_view(old(diags)@) + token_diagnostics(
            lex(source.spec_bytes()),
        ),
{
    let s = source.as_bytes();
    let ghost sv = s@;
    let mut tokens: Vec<Token> = Vec::new();
    let mut spans: Vec<Span> = Vec::new();
    let mut in_string = false;
    let mut i: usize = 0;
    let ghost old_diags = errors_view(diags@);
    proof {
        lemma_lex_tiles(sv, 0, false);
        reveal_strlit("invalid token");
    }
    while i < s.len()
        invariant
            sv == s@,
            i <= s@.len(),
            tokens@.len() == spans@.len(),
            tokens_view(tokens@, spans@) + lex_from(sv, i as int, in_string) == lex(sv),
            errors_view(diags@) == old_diags + token_diagnostics(tokens_view(tokens@, spans@)),
        decreases s@.len() - i,
    {
        let ghost before = tokens_view(tokens@, spans@);
        let (t, e) = if in_string {
            string_token_at(s, i)
        } else {
            normal_token_at(s, i)
        };
        proof {
            lemma_token_advances(sv, i as int, in_string);
            let next = if t == Token::DoubleQuote { !in_string } else { in_string };
            assert(lex_from(sv, i as int, in_string) == seq![(t, i as int, e as int)] + lex_from(
                sv,
                e as int,
                next,
            ));
        }
        let span = Span { start: i, end: e };
        let ghost diags_before = diags@;
        if t == Token::Error {
            diags.push(LexerError::Invalid.into_diagnostic(span));
            proof {
                assert(errors_view(diags@) =~= errors_view(diags_before).push(
                    ("invalid token"@, i as int, e as int),
                ));
            }
        }
        tokens.push(t);
        spans.push(span);
        if t == Token::DoubleQuote {
            in_string = !in_string;
        }
        proof {
            let after = tokens_view(tokens@, spans@);
            assert(after =~= before.push((t, i as int, e as int)));
            assert(after.drop_last() == before);
            assert(errors_view(diags@) =~= old_diags + token_diagnostics(after));
            assert(before + seq![(t, i as int, e as int)] == after);
            assert((before + seq![(t, i as int, e as int)]) + lex_from(sv, e as int, in_string) == before
                + (seq![(t, i as int, e as int)] + lex_from(sv, e as int, in_string)));
        }
        i = e;
    }
    proof {
        assert(lex_from(sv, i as int, in_string) == Seq::<(Token, int, int)>::empty());
        assert(tokens_view(tokens@, spans@) == lex(sv));
    }
    (tokens, spans)
}

} // verus!
