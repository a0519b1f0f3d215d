//! The XL lexer: a longest-match tokenizer with a string mode and nested
//! string interpolation.

use vstd::prelude::*;
use vstd::string::StringSliceAdditionalSpecFns;
use crate::syntax::{Span, SyntaxError};
use crate::syntax::tree::{lemma_tiles_bounds, tiles, tokens_view};
use crate::syntax::scan::{
    boundary_end, boundary_from, is_digit, is_word_start, lemma_boundary_bound, lemma_run_bound,
    run, run_end, Class,
};

verus! {

/// The kinds of XL tokens, including trivia and error tokens.
#[derive(Clone, Copy, Debug, PartialEq, Eq, Structural)]
pub enum Token {
    EOF,
    Let,
    Decl,
    Def,
    Native,
    Type,
    Fn,
    If,
    Else,
    Match,
    Import,
    From,
    SectionLParen,
    LParen,
    RParen,
    LBrace,
    RBrace,
    LBracket,
    RBracket,
    Comma,
    Colon,
    Semicolon,
    Dot,
    At,
    Plus,
    Minus,
    Star,
    Slash,
    Less,
    EqualEqual,
    Equal,
    Arrow,
    FatArrow,
    Pipe,
    Int,
    Float,
    DoubleQuote,
    StringText,
    EscapeSequence,
    UnknownEscapeSequence,
    UnterminatedEscapeSequence,
    InterpolationStart,
    Bytes,
    Atom,
    Placeholder,
    IndexedPlaceholder,
    Identifier,
    Whitespace,
    Comment,
    Error,
}

/// The one way a byte sequence fails to form a token.
#[derive(Clone, Copy, Debug, PartialEq, Eq, Structural)]
pub enum LexerError {
    Invalid,
}

impl LexerError {
    /// The diagnostic for an invalid token at `span`.
    pub fn into_diagnostic(self, span: Span) -> (e: SyntaxError)
        ensures
            e.message@ == "invalid token"@,
            e.span == span,
    {
        SyntaxError { message: String::from_str("invalid token"), span }
    }
}

/// What the lexer is inside of: the top level, an interpolation `\{ ... }`
/// with its count of open braces, or a string literal.
#[derive(Clone, Copy, Debug, PartialEq, Eq, Structural)]
pub enum Context {
    Root,
    Interpolation { brace_depth: usize },
    Str,
}

// ---------------------------------------------------------------------------
// Token recognition.

/// The keyword spelled by `w`, if any.
pub open spec fn keyword(w: Seq<u8>) -> Option<Token> {
    if w == seq![108u8, 101, 116] {
        Some(Token::Let)
    } else if w == seq![100u8, 101, 99, 108] {
        Some(Token::Decl)
    } else if w == seq![100u8, 101, 102] {
        Some(Token::Def)
    } else if w == seq![110u8, 97, 116, 105, 118, 101] {
        Some(Token::Native)
    } else if w == seq![116u8, 121, 112, 101] {
        Some(Token::Type)
    } else if w == seq![102u8, 110] {
        Some(Token::Fn)
    } else if w == seq![105u8, 102] {
        Some(Token::If)
    } else if w == seq![101u8, 108, 115, 101] {
        Some(Token::Else)
    } else if w == seq![109u8, 97, 116, 99, 104] {
        Some(Token::Match)
    } else if w == seq![105u8, 109, 112, 111, 114, 116] {
        Some(Token::Import)
    } else if w == seq![102u8, 114, 111, 109] {
        Some(Token::From)
    } else {
        None
    }
}

/// The end (one past the closing quote) of the body of a bytes literal
/// `b"..."` whose body starts at `i`: characters other than `"` and `\`, or
/// a `\` followed by a character other than a newline.
pub open spec fn bytes_end(s: Seq<u8>, i: int) -> Option<int>
    decreases s.len() - i,
{
    if i < 0 || i >= s.len() {
        None
    } else if s[i] == 34u8 {
        Some(i + 1)
    } else if s[i] == 92u8 {
        if i + 1 < s.len() && s[i + 1] != 10u8 {
            bytes_end(s, i + 2)
        } else {
            None
        }
    } else {
        bytes_end(s, i + 1)
    }
}

/// The single-byte punctuation token for `b`, if any.
pub open spec fn single(b: u8) -> Option<Token> {
    if b == 40u8 {
        Some(Token::LParen)
    } else if b == 41u8 {
        Some(Token::RParen)
    } else if b == 123u8 {
        Some(Token::LBrace)
    } else if b == 125u8 {
        Some(Token::RBrace)
    } else if b == 91u8 {
        Some(Token::LBracket)
    } else if b == 93u8 {
        Some(Token::RBracket)
    } else if b == 44u8 {
        Some(Token::Comma)
    } else if b == 58u8 {
        Some(Token::Colon)
    } else if b == 59u8 {
        Some(Token::Semicolon)
    } else if b == 46u8 {
        Some(Token::Dot)
    } else if b == 64u8 {
        Some(Token::At)
    } else if b == 43u8 {
        Some(Token::Plus)
    } else if b == 42u8 {
        Some(Token::Star)
    } else if b == 60u8 {
        Some(Token::Less)
    } else if b == 34u8 {
        Some(Token::DoubleQuote)
    } else {
        None
    }
}

/// `s[i + 1] == b`
pub open spec fn next_is(s: Seq<u8>, i: int, b: u8) -> bool {
    i + 1 < s.len() && s[i + 1] == b
}

/// The longest token outside strings that starts at `i < s.len()`, and its
/// end. Keywords win over identifiers of the same length, placeholders over
/// identifiers of the same length; a byte that starts no token makes an
/// error token one character long.
pub open spec fn normal_token(s: Seq<u8>, i: int) -> (Token, int) {
    let b = s[i];
    if is_digit(b) {
        let d = run(s, i, Class::Digit);
        if next_is(s, i + d - 1, 46u8) && run(s, i + d + 1, Class::Digit) > 0 {
            (Token::Float, i + d + 1 + run(s, i + d + 1, Class::Digit))
        } else {
            (Token::Int, i + d)
        }
    } else if b == 95u8 {
        let w = run(s, i, Class::Word);
        let d = run(s, i + 1, Class::Digit);
        if w == 1 {
            (Token::Placeholder, i + 1)
        } else if d > 0 && w == d + 1 {
            (Token::IndexedPlaceholder, i + w)
        } else {
            (Token::Identifier, i + w)
        }
    } else if is_word_start(b) {
        if b == 98u8 && next_is(s, i, 34u8) && bytes_end(s, i + 2) is Some {
            (Token::Bytes, bytes_end(s, i + 2)->Some_0)
        } else {
            let w = run(s, i, Class::Word);
            match keyword(s.subrange(i, i + w)) {
                Some(k) => (k, i + w),
                None => (Token::Identifier, i + w),
            }
        }
    } else if b == 39u8 {
        if i + 1 < s.len() && is_word_start(s[i + 1]) {
            (Token::Atom, i + 1 + run(s, i + 1, Class::Word))
        } else {
            (Token::Error, i + 1)
        }
    } else if b == 32u8 || b == 9u8 || b == 13u8 || b == 10u8 {
        (Token::Whitespace, i + run(s, i, Class::Space))
    } else if b == 47u8 {
        if next_is(s, i, 47u8) {
            (Token::Comment, i + 2 + run(s, i + 2, Class::LineRest))
        } else {
            (Token::Slash, i + 1)
        }
    } else if b == 92u8 {
        if next_is(s, i, 40u8) {
            (Token::SectionLParen, i + 2)
        } else {
            (Token::Error, i + 1)
        }
    } else if b == 45u8 {
        if next_is(s, i, 62u8) {
            (Token::Arrow, i + 2)
        } else {
            (Token::Minus, i + 1)
        }
    } else if b == 61u8 {
        if next_is(s, i, 61u8) {
            (Token::EqualEqual, i + 2)
        } else if next_is(s, i, 62u8) {
            (Token::FatArrow, i + 2)
        } else {
            (Token::Equal, i + 1)
        }
    } else if b == 124u8 {
        if next_is(s, i, 62u8) {
            (Token::Pipe, i + 2)
        } else {
            (Token::Error, i + 1)
        }
    } else {
        match single(b) {
            Some(t) => (t, i + 1),
            None => (Token::Error, boundary_from(s, i + 1)),
        }
    }
}

/// The longest token inside a string literal that starts at `i < s.len()`,
/// and its end.
pub open spec fn string_token(s: Seq<u8>, i: int) -> (Token, int) {
    let b = s[i];
    if b == 34u8 {
        (Token::DoubleQuote, i + 1)
    } else if b == 92u8 {
        if i + 1 >= s.len() {
            (Token::UnterminatedEscapeSequence, i + 1)
        } else {
            let c = s[i + 1];
            if c == 123u8 {
                (Token::InterpolationStart, i + 2)
            } else if c == 110u8 || c == 114u8 || c == 116u8 || c == 34u8 || c == 92u8 {
                (Token::EscapeSequence, i + 2)
            } else if c == 13u8 || c == 10u8 {
                (Token::UnterminatedEscapeSequence, i + 1)
            } else {
                (Token::UnknownEscapeSequence, boundary_from(s, i + 2))
            }
        }
    } else {
        (Token::StringText, i + run(s, i, Class::Text))
    }
}

/// The context stack after a token: quotes open and close strings, `\{`
/// opens an interpolation, and braces inside an interpolation nest until the
/// brace that closes it.
pub open spec fn next_contexts(stack: Seq<Context>, t: Token) -> Seq<Context> {
    match stack.last() {
        Context::Str => {
            if t == Token::DoubleQuote {
                stack.drop_last()
            } else if t == Token::InterpolationStart {
                stack.push(Context::Interpolation { brace_depth: 0 })
            } else {
                stack
            }
        },
        Context::Root => {
            if t == Token::DoubleQuote {
                stack.push(Context::Str)
            } else {
                stack
            }
        },
        Context::Interpolation { brace_depth } => {
            if t == Token::DoubleQuote {
                stack.push(Context::Str)
            } else if t == Token::LBrace {
                stack.drop_last().push(
                    Context::Interpolation { brace_depth: (brace_depth + 1) as usize },
                )
            } else if t == Token::RBrace {
                if brace_depth == 0 {
                    stack.drop_last()
                } else {
                    stack.drop_last().push(
                        Context::Interpolation { brace_depth: (brace_depth - 1) as usize },
                    )
                }
            } else {
                stack
            }
        },
    }
}

/// The token starting at `i` in the context on top of `stack`.
pub open spec fn token_at(s: Seq<u8>, i: int, stack: Seq<Context>) -> (Token, int) {
    if stack.last() == Context::Str {
        string_token(s, i)
    } else {
        normal_token(s, i)
    }
}

/// The tokens of `s[i..]` lexed from context `stack`, each with its span.
pub open spec fn lex_from(s: Seq<u8>, i: int, stack: Seq<Context>) -> Seq<(Token, int, int)>
    decreases s.len() - i,
{
    if i < 0 || i >= s.len() || stack.len() == 0 {
        Seq::empty()
    } else {
        let (t, e) = token_at(s, i, stack);
        if e <= i || e > s.len() {
            Seq::empty()
        } else {
            seq![(t, i, e)] + lex_from(s, e, next_contexts(stack, t))
        }
    }
}

/// The tokens of the whole text, each with its span.
pub open spec fn lex(s: Seq<u8>) -> Seq<(Token, int, int)> {
    lex_from(s, 0, seq![Context::Root])
}

/// The message of the diagnostic reported for a token, if it is erroneous.
pub open spec fn token_message(t: Token) -> Option<Seq<char>> {
    if t == Token::UnknownEscapeSequence {
        Some("unsupported string escape"@)
    } else if t == Token::UnterminatedEscapeSequence {
        Some("unterminated string escape"@)
    } else if t == Token::Error {
        Some("invalid token"@)
    } else {
        None
    }
}

/// The diagnostics of a token sequence: one per erroneous token, in order.
pub open spec fn token_diagnostics(ts: Seq<(Token, int, int)>) -> Seq<(Seq<char>, int, int)>
    decreases ts.len(),
{
    if ts.len() == 0 {
        Seq::empty()
    } else {
        let rest = token_diagnostics(ts.drop_last());
        let (t, a, b) = ts.last();
        match token_message(t) {
            Some(m) => rest.push((m, a, b)),
            None => rest,
        }
    }
}

/// Views of diagnostics as (message, start, end).
pub open spec fn errors_view(es: Seq<SyntaxError>) -> Seq<(Seq<char>, int, int)> {
    es.map_values(|e: SyntaxError| (e.message@, e.span.start as int, e.span.end as int))
}

// ---------------------------------------------------------------------------
// Laws of the specification.

/// A well-formed context stack: the root at the bottom and only there.
pub open spec fn stack_wf(stack: Seq<Context>, bound: int) -> bool {
    &&& stack.len() >= 1
    &&& stack[0] == Context::Root
    &&& forall|k: int| 1 <= k < stack.len() ==> #[trigger] stack[k] != Context::Root
    &&& forall|k: int|
        0 <= k < stack.len() ==> match #[trigger] stack[k] {
            Context::Interpolation { brace_depth } => brace_depth <= bound,
            _ => true,
        }
}

pub proof fn lemma_token_advances(s: Seq<u8>, i: int, stack: Seq<Context>)
    requires
        0 <= i < s.len(),
    ensures
        i < token_at(s, i, stack).1 <= s.len(),
{
    lemma_run_bound(s, i, Class::Digit);
    lemma_run_bound(s, i, Class::Word);
    lemma_run_bound(s, i, Class::Space);
    lemma_run_bound(s, i, Class::Text);
    lemma_run_bound(s, i + 1, Class::Digit);
    if i + 1 <= s.len() {
        lemma_boundary_bound(s, i + 1);
        lemma_run_bound(s, i + 1, Class::Word);
    }
    if i + 2 <= s.len() {
        lemma_run_bound(s, i + 2, Class::LineRest);
        lemma_boundary_bound(s, i + 2);
        lemma_bytes_end_bound(s, i + 2);
    }
    let d = run(s, i, Class::Digit);
    if 0 < d && i + d + 1 <= s.len() {
        lemma_run_bound(s, i + d + 1, Class::Digit);
    }
}

pub proof fn lemma_bytes_end_bound(s: Seq<u8>, i: int)
    requires
        0 <= i,
    ensures
        bytes_end(s, i) matches Some(e) ==> i < e <= s.len(),
    decreases s.len() - i,
{
    if 0 <= i < s.len() {
        if s[i] == 92u8 {
            if i + 1 < s.len() && s[i + 1] != 10u8 {
                lemma_bytes_end_bound(s, i + 2);
            }
        } else if s[i] != 34u8 {
            lemma_bytes_end_bound(s, i + 1);
        }
    }
}

/// The root context stays at the bottom of the stack.
pub open spec fn rooted(stack: Seq<Context>) -> bool {
    stack.len() >= 1 && stack[0] == Context::Root
}

pub proof fn lemma_next_contexts_rooted(stack: Seq<Context>, t: Token)
    requires
        rooted(stack),
    ensures
        rooted(next_contexts(stack, t)),
        next_contexts(stack, t).len() <= stack.len() + 1,
{
    let n = next_contexts(stack, t);
    if stack.len() >= 2 {
        assert(stack.drop_last()[0] == stack[0]);
    }
}

/// Each step raises brace depths by at most one and keeps the root alone at
/// the bottom.
pub proof fn lemma_next_contexts_wf(stack: Seq<Context>, t: Token, bound: int)
    requires
        stack_wf(stack, bound),
        0 <= bound < usize::MAX,
    ensures
        stack_wf(next_contexts(stack, t), bound + 1),
{
    let n = next_contexts(stack, t);
    let p = stack.drop_last();
    let top = stack.last();
    assert(top == stack[stack.len() - 1]);
    let grows = (top != Context::Str && t == Token::DoubleQuote) || (top == Context::Str && t
        == Token::InterpolationStart);
    let pops = (top == Context::Str && t == Token::DoubleQuote) || (top
        == Context::Interpolation { brace_depth: 0 } && t == Token::RBrace);
    if grows {
        let last = n.last();
        assert(n == stack.push(last));
        assert(last == Context::Str || last == Context::Interpolation { brace_depth: 0 });
        assert forall|k: int| 0 <= k < n.len() implies match #[trigger] n[k] {
            Context::Interpolation { brace_depth } => brace_depth <= bound + 1,
            _ => true,
        } && (k >= 1 ==> n[k] != Context::Root) by {
            if k < stack.len() {
                assert(n[k] == stack[k]);
            } else {
                assert(k == stack.len());
                assert(n[k] == last);
            }
        }
    } else if pops {
        assert(stack.len() >= 2);
        assert(n == p);
        assert forall|k: int| 0 <= k < n.len() implies match #[trigger] n[k] {
            Context::Interpolation { brace_depth } => brace_depth <= bound + 1,
            _ => true,
        } && (k >= 1 ==> n[k] != Context::Root) by {
            assert(n[k] == stack[k]);
        }
    } else {
        assert(n.len() == stack.len());
        assert forall|k: int| 0 <= k < n.len() - 1 implies n[k] == stack[k] by {}
        match top {
            Context::Interpolation { brace_depth } => {
                assert(brace_depth <= bound);
                assert(stack.len() >= 2);
            },
            _ => {
                assert(n == stack);
            },
        }
        assert forall|k: int| 0 <= k < n.len() implies match #[trigger] n[k] {
            Context::Interpolation { brace_depth } => brace_depth <= bound + 1,
            _ => true,
        } && (k >= 1 ==> n[k] != Context::Root) by {
            if k < n.len() - 1 {
                assert(n[k] == stack[k]);
            }
        }
    }
}

/// Lexing is lossless: the token spans of any text tile it exactly.
pub proof fn lemma_lex_tiles(s: Seq<u8>, i: int, stack: Seq<Context>)
    requires
        0 <= i <= s.len(),
        rooted(stack),
    ensures
        tiles(lex_from(s, i, stack), i, s.len() as int),
    decreases s.len() - i,
{
    if i < s.len() {
        lemma_token_advances(s, i, stack);
        let (t, e) = token_at(s, i, stack);
        let n = next_contexts(stack, t);
        lemma_next_contexts_rooted(stack, t);
        lemma_lex_tiles(s, e, n);
        let rest = lex_from(s, e, n);
        let all = lex_from(s, i, stack);
        assert(all == seq![(t, i, e)] + rest);
        assert forall|k: int| 0 <= k < all.len() - 1 implies #[trigger] all[k].2 == all[k + 1].1 by {
            if k > 0 {
                assert(all[k] == rest[k - 1]);
                assert(all[k + 1] == rest[k]);
            }
        }
        assert forall|k: int| 0 <= k < all.len() implies #[trigger] all[k].1 < all[k].2 by {
            if k > 0 {
                assert(all[k] == rest[k - 1]);
            }
        }
    }
}

} // verus!

verus! {

// ---------------------------------------------------------------------------
// Executable lexer.

fn keyword_at(s: &[u8], i: usize, w: usize) -> (k: Option<Token>)
    requires
        i + w <= s@.len(),
    ensures
        k == keyword(s@.subrange(i as int, (i + w) as int)),
{
    let ghost word = s@.subrange(i as int, (i + w) as int);
    assert forall|j: int| 0 <= j < w implies word[j] == s@[i + j] by {}
    let c0 = if w > 0 { s[i] } else { 0 };
    let c1 = if w > 1 { s[i + 1] } else { 0 };
    let c2 = if w > 2 { s[i + 2] } else { 0 };
    let c3 = if w > 3 { s[i + 3] } else { 0 };
    let c4 = if w > 4 { s[i + 4] } else { 0 };
    let c5 = if w > 5 { s[i + 5] } else { 0 };
    if w == 3 && c0 == 108 && c1 == 101 && c2 == 116 {
        assert(word =~= seq![108u8, 101, 116]);
        return Some(Token::Let);
    }
    if w == 4 && c0 == 100 && c1 == 101 && c2 == 99 && c3 == 108 {
        assert(word =~= seq![100u8, 101, 99, 108]);
        return Some(Token::Decl);
    }
    if w == 3 && c0 == 100 && c1 == 101 && c2 == 102 {
        assert(word =~= seq![100u8, 101, 102]);
        return Some(Token::Def);
    }
    if w == 6 && c0 == 110 && c1 == 97 && c2 == 116 && c3 == 105 && c4 == 118 && c5 == 101 {
        assert(word =~= seq![110u8, 97, 116, 105, 118, 101]);
        return Some(Token::Native);
    }
    if w == 4 && c0 == 116 && c1 == 121 && c2 == 112 && c3 == 101 {
        assert(word =~= seq![116u8, 121, 112, 101]);
        return Some(Token::Type);
    }
    if w == 2 && c0 == 102 && c1 == 110 {
        assert(word =~= seq![102u8, 110]);
        return Some(Token::Fn);
    }
    if w == 2 && c0 == 105 && c1 == 102 {
        assert(word =~= seq![105u8, 102]);
        return Some(Token::If);
    }
    if w == 4 && c0 == 101 && c1 == 108 && c2 == 115 && c3 == 101 {
        assert(word =~= seq![101u8, 108, 115, 101]);
        return Some(Token::Else);
    }
    if w == 5 && c0 == 109 && c1 == 97 && c2 == 116 && c3 == 99 && c4 == 104 {
        assert(word =~= seq![109u8, 97, 116, 99, 104]);
        return Some(Token::Match);
    }
    if w == 6 && c0 == 105 && c1 == 109 && c2 == 112 && c3 == 111 && c4 == 114 && c5 == 116 {
        assert(word =~= seq![105u8, 109, 112, 111, 114, 116]);
        return Some(Token::Import);
    }
    if w == 4 && c0 == 102 && c1 == 114 && c2 == 111 && c3 == 109 {
        assert(word =~= seq![102u8, 114, 111, 109]);
        return Some(Token::From);
    }
    assert(word.len() == w);
    None
}

fn bytes_end_at(s: &[u8], i: usize) -> (e: Option<usize>)
    ensures
        e matches Some(x) ==> bytes_end(s@, i as int) == Some(x as int),
        e is None ==> bytes_end(s@, i as int) is None,
{
    let mut j = i;
    while j < s.len()
        invariant
            i <= j,
            bytes_end(s@, i as int) == bytes_end(s@, j as int),
        decreases s@.len() - j,
    {
        if s[j] == 34 {
            return Some(j + 1);
        } else if s[j] == 92 {
            if j + 1 < s.len() && s[j + 1] != 10 {
                j = j + 2;
            } else {
                return None;
            }
        } else {
            j = j + 1;
        }
    }
    None
}

fn single_at(b: u8) -> (t: Option<Token>)
    ensures
        t == single(b),
{
    if b == 40 { Some(Token::LParen) }
    else if b == 41 { Some(Token::RParen) }
    else if b == 123 { Some(Token::LBrace) }
    else if b == 125 { Some(Token::RBrace) }
    else if b == 91 { Some(Token::LBracket) }
    else if b == 93 { Some(Token::RBracket) }
    else if b == 44 { Some(Token::Comma) }
    else if b == 58 { Some(Token::Colon) }
    else if b == 59 { Some(Token::Semicolon) }
    else if b == 46 { Some(Token::Dot) }
    else if b == 64 { Some(Token::At) }
    else if b == 43 { Some(Token::Plus) }
    else if b == 42 { Some(Token::Star) }
    else if b == 60 { Some(Token::Less) }
    else if b == 34 { Some(Token::DoubleQuote) }
    else { None }
}

fn normal_token_at(s: &[u8], i: usize) -> (r: (Token, usize))
    requires
        i < s@.len(),
    ensures
        r.0 == normal_token(s@, i as int).0,
        r.1 == normal_token(s@, i as int).1,
{
    let ghost sv = s@;
    let b = s[i];
    let n = s.len();
    if 48 <= b && b <= 57 {
        let d_end = run_end(s, i, Class::Digit);
        if d_end < n && s[d_end] == 46 && d_end + 1 < n {
            let f_end = run_end(s, d_end + 1, Class::Digit);
            if f_end > d_end + 1 {
                return (Token::Float, f_end);
            }
        }
        proof {
            if d_end + 1 <= n {
                lemma_run_bound(sv, (d_end + 1) as int, Class::Digit);
            }
        }
        return (Token::Int, d_end);
    } else if b == 95 {
        let w_end = run_end(s, i, Class::Word);
        let d_end = run_end(s, i + 1, Class::Digit);
        proof {
            lemma_run_bound(sv, i as int, Class::Word);
            lemma_run_bound(sv, i + 1, Class::Digit);
        }
        if w_end == i + 1 {
            return (Token::Placeholder, i + 1);
        } else if d_end > i + 1 && w_end == d_end {
            return (Token::IndexedPlaceholder, w_end);
        } else {
            return (Token::Identifier, w_end);
        }
    } else if (65 <= b && b <= 90) || (97 <= b && b <= 122) {
        if b == 98 && i + 1 < n && s[i + 1] == 34 {
            match bytes_end_at(s, i + 2) {
                Some(e) => {
                    return (Token::Bytes, e);
                },
                None => {},
            }
        }
        let w_end = run_end(s, i, Class::Word);
        match keyword_at(s, i, w_end - i) {
            Some(k) => (k, w_end),
            None => (Token::Identifier, w_end),
        }
    } else if b == 39 {
        if i + 1 < n && ((65 <= s[i + 1] && s[i + 1] <= 90) || (97 <= s[i + 1] && s[i + 1] <= 122)
            || s[i + 1] == 95) {
            let w_end = run_end(s, i + 1, Class::Word);
            (Token::Atom, w_end)
        } else {
            (Token::Error, i + 1)
        }
    } else if b == 32 || b == 9 || b == 13 || b == 10 {
        (Token::Whitespace, run_end(s, i, Class::Space))
    } else if b == 47 {
        if i + 1 < n && s[i + 1] == 47 {
            (Token::Comment, run_end(s, i + 2, Class::LineRest))
        } else {
            (Token::Slash, i + 1)
        }
    } else if b == 92 {
        if i + 1 < n && s[i + 1] == 40 {
            (Token::SectionLParen, i + 2)
        } else {
            (Token::Error, i + 1)
        }
    } else if b == 45 {
        if i + 1 < n && s[i + 1] == 62 {
            (Token::Arrow, i + 2)
        } else {
            (Token::Minus, i + 1)
        }
    } else if b == 61 {
        if i + 1 < n && s[i + 1] == 61 {
            (Token::EqualEqual, i + 2)
        } else if i + 1 < n && s[i + 1] == 62 {
            (Token::FatArrow, i + 2)
        } else {
            (Token::Equal, i + 1)
        }
    } else if b == 124 {
        if i + 1 < n && s[i + 1] == 62 {
            (Token::Pipe, i + 2)
        } else {
            (Token::Error, i + 1)
        }
    } else {
        match single_at(b) {
            Some(t) => (t, i + 1),
            None => (Token::Error, boundary_end(s, i + 1)),
        }
    }
}

fn string_token_at(s: &[u8], i: usize) -> (r: (Token, usize))
    requires
        i < s@.len(),
    ensures
        r.0 == string_token(s@, i as int).0,
        r.1 == string_token(s@, i as int).1,
{
    let b = s[i];
    if b == 34 {
        (Token::DoubleQuote, i + 1)
    } else if b == 92 {
        if i + 1 >= s.len() {
            (Token::UnterminatedEscapeSequence, i + 1)
        } else {
            let c = s[i + 1];
            if c == 123 {
                (Token::InterpolationStart, i + 2)
            } else if c == 110 || c == 114 || c == 116 || c == 34 || c == 92 {
                (Token::EscapeSequence, i + 2)
            } else if c == 13 || c == 10 {
                (Token::UnterminatedEscapeSequence, i + 1)
            } else {
                (Token::UnknownEscapeSequence, boundary_end(s, i + 2))
            }
        }
    } else {
        (Token::StringText, run_end(s, i, Class::Text))
    }
}

fn advance_contexts(stack: &mut Vec<Context>, t: Token, Ghost(bound): Ghost<int>)
    requires
        stack_wf(old(stack)@, bound),
        0 <= bound < usize::MAX,
    ensures
        final(stack)@ == next_contexts(old(stack)@, t),
        stack_wf(final(stack)@, bound + 1),
{
    proof {
        lemma_next_contexts_wf(stack@, t, bound);
    }
    let top = stack[stack.len() - 1];
    match top {
        Context::Str => {
            if t == Token::DoubleQuote {
                stack.pop();
            } else if t == Token::InterpolationStart {
                stack.push(Context::Interpolation { brace_depth: 0 });
            }
        },
        Context::Root => {
            if t == Token::DoubleQuote {
                stack.push(Context::Str);
            }
        },
        Context::Interpolation { brace_depth } => {
            proof {
                assert(stack@[stack@.len() - 1] == top);
            }
            if t == Token::DoubleQuote {
                stack.push(Context::Str);
            } else if t == Token::LBrace {
                stack.pop();
                stack.push(Context::Interpolation { brace_depth: brace_depth + 1 });
            } else if t == Token::RBrace {
                stack.pop();
                if brace_depth != 0 {
                    stack.push(Context::Interpolation { brace_depth: brace_depth - 1 });
                }
            }
        },
    }
}

/// The diagnostic reported for an erroneous token, if any.
pub(crate) fn token_error(t: Token, span: Span) -> (e: Option<SyntaxError>)
    ensures
        match token_message(t) {
            Some(m) => e matches Some(x) && x.message@ == m && x.span == span,
            None => e is None,
        },
{
    proof {
        reveal_strlit("unsupported string escape");
        reveal_strlit("unterminated string escape");
        reveal_strlit("invalid token");
    }
    if t == Token::UnknownEscapeSequence {
        Some(SyntaxError { message: String::from_str("unsupported string escape"), span })
    } else if t == Token::UnterminatedEscapeSequence {
        Some(SyntaxError { message: String::from_str("unterminated string escape"), span })
    } else if t == Token::Error {
        Some(LexerError::Invalid.into_diagnostic(span))
    } else {
        None
    }
}

/// Splits `source` into tokens with their byte spans, and appends a
/// diagnostic for every invalid token and invalid string escape.
pub fn tokenize(source: &str, diags: &mut Vec<SyntaxError>) -> (r: (Vec<Token>, Vec<Span>))
    ensures
        r.0@.len() == r.1@.len(),
        tokens_view(r.0@, r.1@) == lex(source.spec_bytes()),
        tiles(lex(source.spec_bytes()), 0, source.spec_bytes().len() as int),
        errors_view(final(diags)@) == errors_view(old(diags)@) + token_diagnostics(
            lex(source.spec_bytes()),
        ),
{
    tokenize_bytes(source.as_bytes(), diags)
}

/// Splits the bytes `s` into tokens with their byte spans, and appends a
/// diagnostic for every invalid token.
pub fn tokenize_bytes(s: &[u8], diags: &mut Vec<SyntaxError>) -> (r: (Vec<Token>, Vec<Span>))
    ensures
        r.0@.len() == r.1@.len(),
        tokens_view(r.0@, r.1@) == lex(s@),
        tiles(lex(s@), 0, s@.len() as int),
        errors_view(final(diags)@) == errors_view(old(diags)@) + token_diagnostics(lex(s@)),
{
    let ghost sv = s@;
    let mut tokens: Vec<Token> = Vec::new();
    let mut spans: Vec<Span> = Vec::new();
    let mut stack: Vec<Context> = Vec::new();
    stack.push(Context::Root);
    let mut i: usize = 0;
    let ghost old_diags = errors_view(diags@);
    proof {
        lemma_lex_tiles(sv, 0, seq![Context::Root]);
    }
    while i < s.len()
        invariant
            sv == s@,
            i <= s@.len(),
            stack_wf(stack@, i as int),
            tokens@.len() == spans@.len(),
            tokens_view(tokens@, spans@) + lex_from(sv, i as int, stack@) == lex(sv),
            errors_view(diags@) == old_diags + token_diagnostics(tokens_view(tokens@, spans@)),
        decreases s@.len() - i,
    {
        let ghost before = tokens_view(tokens@, spans@);
        let in_string = stack[stack.len() - 1] == Context::Str;
        let (t, e) = if in_string {
            string_token_at(s, i)
        } else {
            normal_token_at(s, i)
        };
        proof {
            assert(stack@[stack@.len() - 1] == stack@.last());
            lemma_token_advances(sv, i as int, stack@);
            assert(token_at(sv, i as int, stack@) == (t, e as int));
            assert(lex_from(sv, i as int, stack@) == seq![(t, i as int, e as int)] + lex_from(
                sv,
                e as int,
                next_contexts(stack@, t),
            ));
        }
        let span = Span { start: i, end: e };
        let ghost diags_before = diags@;
        match token_error(t, span) {
            Some(err) => {
                diags.push(err);
                proof {
                    assert(errors_view(diags@) =~= errors_view(diags_before).push(
                        (err.message@, i as int, e as int),
                    ));
                }
            },
            None => {},
        }
        tokens.push(t);
        spans.push(span);
        advance_contexts(&mut stack, t, Ghost(i as int));
        proof {
            let after = tokens_view(tokens@, spans@);
            assert(after =~= before.push((t, i as int, e as int)));
            assert(after.drop_last() == before);
            assert(errors_view(diags@) =~= old_diags + token_diagnostics(after));
            assert(before + seq![(t, i as int, e as int)] == after);
            assert((before + seq![(t, i as int, e as int)]) + lex_from(sv, e as int, stack@) == before
                + (seq![(t, i as int, e as int)] + lex_from(sv, e as int, stack@)));
            lemma_stack_wf_weaken(stack@, i + 1, e as int);
        }
        i = e;
    }
    proof {
        assert(lex_from(sv, i as int, stack@) == Seq::<(Token, int, int)>::empty());
        assert(tokens_view(tokens@, spans@) == lex(sv));
    }
    (tokens, spans)
}

proof fn lemma_stack_wf_weaken(stack: Seq<Context>, a: int, b: int)
    requires
        stack_wf(stack, a),
        a <= b,
    ensures
        stack_wf(stack, b),
{
}

/// `true` for the two invalid string-escape tokens.
pub fn token_is_invalid_escape(token: Token) -> (b: bool)
    ensures
        b == (token == Token::UnknownEscapeSequence || token == Token::UnterminatedEscapeSequence),
{
    token == Token::UnknownEscapeSequence || token == Token::UnterminatedEscapeSequence
}

// ---------------------------------------------------------------------------
// Lexing text that arrives in fragments.

/// The context stack after the tokens `ts[..k]`, starting at the root.
pub open spec fn contexts_after(ts: Seq<Token>, k: int) -> Seq<Context>
    decreases k,
{
    if k <= 0 {
        seq![Context::Root]
    } else {
        next_contexts(contexts_after(ts, k - 1), ts[k - 1])
    }
}

/// The greatest `j <= k` such that the first `j` tokens end back at the
/// root context and at least eight tokens follow them; 0 if there is none.
pub open spec fn stable_prefix(ts: Seq<Token>, k: int) -> int
    decreases k,
{
    if k <= 0 {
        0
    } else if contexts_after(ts, k).len() == 1 && k + 8 <= ts.len() {
        k
    } else {
        stable_prefix(ts, k - 1)
    }
}

/// How many leading tokens can be kept however the text goes on: those up
/// to the last return to the root context that at least eight more tokens
/// follow.
pub fn stable_root_prefix(tokens: &[Token]) -> (n: usize)
    ensures
        n == stable_prefix(tokens@, tokens@.len() as int),
{
    let mut contexts: Vec<Context> = Vec::new();
    contexts.push(Context::Root);
    let mut last: usize = 0;
    let mut index: usize = 0;
    proof {
        assert(contexts@ =~= seq![Context::Root]);
    }
    while index < tokens.len()
        invariant
            index <= tokens@.len(),
            contexts@ == contexts_after(tokens@, index as int),
            stack_wf(contexts@, index as int),
            last == stable_prefix(tokens@, index as int),
        decreases tokens@.len() - index,
    {
        advance_contexts(&mut contexts, tokens[index], Ghost(index as int));
        if contexts.len() == 1 && tokens.len() - index >= 9 {
            last = index + 1;
        }
        index = index + 1;
    }
    last
}

/// The bytes of `fs`, one fragment after another.
pub open spec fn concat_fragments(fs: Seq<&str>) -> Seq<u8>
    decreases fs.len(),
{
    if fs.len() == 0 {
        Seq::empty()
    } else {
        concat_fragments(fs.drop_last()) + fs.last().spec_bytes()
    }
}

/// Appends `bytes` to `v`.
fn append_bytes(v: &mut Vec<u8>, bytes: &[u8])
    ensures
        final(v)@ == old(v)@ + bytes@,
{
    let mut k: usize = 0;
    while k < bytes.len()
        invariant
            k <= bytes@.len(),
            v@ == old(v)@ + bytes@.take(k as int),
        decreases bytes@.len() - k,
    {
        v.push(bytes[k]);
        proof {
            assert(bytes@.take(k + 1) =~= bytes@.take(k as int).push(bytes@[k as int]));
        }
        k = k + 1;
    }
    proof {
        assert(bytes@.take(bytes@.len() as int) =~= bytes@);
    }
}

/// Splits text given as fragments into tokens with their byte spans in the
/// whole text, and appends a diagnostic for every invalid token: the same
/// tokens, spans and diagnostics as lexing the fragments joined in one piece.
pub fn tokenize_fragments(fragments: &[&str], diags: &mut Vec<SyntaxError>) -> (r: (Vec<Token>, Vec<Span>))
    ensures
        r.0@.len() == r.1@.len(),
        tokens_view(r.0@, r.1@) == lex(concat_fragments(fragments@)),
        tiles(lex(concat_fragments(fragments@)), 0, concat_fragments(fragments@).len() as int),
        errors_view(final(diags)@) == errors_view(old(diags)@) + token_diagnostics(
            lex(concat_fragments(fragments@)),
        ),
{
    let mut text: Vec<u8> = Vec::new();
    let mut f: usize = 0;
    proof {
        assert(fragments@.take(0) =~= Seq::<&str>::empty());
    }
    while f < fragments.len()
        invariant
            f <= fragments@.len(),
            text@ == concat_fragments(fragments@.take(f as int)),
        decreases fragments@.len() - f,
    {
        proof {
            assert(fragments@.take(f + 1).drop_last() =~= fragments@.take(f as int));
            assert(fragments@.take(f + 1).last() == fragments@[f as int]);
        }
        append_bytes(&mut text, fragments[f].as_bytes());
        f = f + 1;
    }
    proof {
        assert(fragments@.take(f as int) =~= fragments@);
    }
    tokenize_bytes(text.as_slice(), diags)
}

} // verus!
