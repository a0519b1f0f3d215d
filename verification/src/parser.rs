//! Lowering of the concrete syntax tree to the located abstract syntax, and
//! the whole-program entry point.

use vstd::prelude::*;
use vstd::string::StringSliceAdditionalSpecFns;
use vstd::utf8::encode_utf8;
use crate::ast::{
    located, BinaryOperator, Binding, BindingData, BindingKind, Block, BlockKind, Decorator,
    DecoratorKind, DictField, DictFieldKind, Expr, ExprKind, Identifier, MatchArm, MatchArmKind,
    Pattern, PatternKind, Program, ProgramKind, StringPart, StringPartKind, UnaryOperator,
};
use crate::lexer::{FrontendError, SourceLocation};
use crate::source::{Diagnostic, Located, Location, SourceDatabase, SourceId, TextRange};
use crate::syntax::xl::lexer::Token;
use crate::syntax::xl::parser::{CstData, NodeKind, NodeRef, Rule};
use crate::syntax::tree::{child_walk, cst_leaves, subtree_end};
use crate::syntax::xl::lexer::{lex, token_message};
use crate::syntax::Parse;
use crate::text::{push_decimal, starts_char, str_slice};

verus! {

// ---------------------------------------------------------------------------
// Literal values.

/// The value of a decimal digit string.
pub open spec fn decimal_value(s: Seq<u8>) -> int
    decreases s.len(),
{
    if s.len() == 0 {
        0
    } else {
        decimal_value(s.drop_last()) * 10 + (s.last() - 48)
    }
}

pub open spec fn all_digits(s: Seq<u8>) -> bool {
    forall|i: int| 0 <= i < s.len() ==> 48 <= #[trigger] s[i] <= 57
}

proof fn lemma_decimal_value_nonneg(s: Seq<u8>)
    requires
        all_digits(s),
    ensures
        decimal_value(s) >= 0,
    decreases s.len(),
{
    if s.len() > 0 {
        assert(all_digits(s.drop_last()));
        lemma_decimal_value_nonneg(s.drop_last());
    }
}

/// The value of a non-empty digit string if it is at most `max`.
pub fn parse_decimal(s: &[u8], max: u64) -> (r: Option<u64>)
    ensures
        r is Some <==> (s@.len() > 0 && all_digits(s@) && decimal_value(s@) <= max),
        r is Some ==> r->Some_0 == decimal_value(s@),
{
    if s.len() == 0 {
        return None;
    }
    let mut value: u64 = 0;
    let mut i: usize = 0;
    while i < s.len()
        invariant
            i <= s@.len(),
            all_digits(s@.take(i as int)),
            value == decimal_value(s@.take(i as int)),
            value <= max,
        decreases s@.len() - i,
    {
        proof {
            assert(s@.take(i + 1).drop_last() =~= s@.take(i as int));
        }
        let b = s[i];
        if b < 48u8 || b > 57u8 {
            proof {
                assert(!all_digits(s@));
            }
            return None;
        }
        let d = (b - 48u8) as u64;
        if d > max || value > (max - d) / 10 {
            proof {
                assert(decimal_value(s@.take(i + 1)) == value * 10 + d);
                assert(value * 10 + d > max) by (nonlinear_arith)
                    requires
                        d > max || value > (max - d) / 10,
                        d <= 9,
                        value >= 0,
                ;
                if all_digits(s@) {
                    lemma_decimal_prefix_bound(s@, i + 1);
                }
            }
            return None;
        }
        proof {
            assert(value * 10 + d <= max) by (nonlinear_arith)
                requires
                    value <= (max - d) / 10,
                    d <= max,
            ;
        }
        value = value * 10 + d;
        i = i + 1;
    }
    proof {
        assert(s@.take(s@.len() as int) =~= s@);
    }
    Some(value)
}

/// A longer digit string is worth at least as much as its prefix.
proof fn lemma_decimal_prefix_bound(s: Seq<u8>, k: int)
    requires
        0 <= k <= s.len(),
        all_digits(s),
    ensures
        decimal_value(s.take(k)) <= decimal_value(s),
    decreases s.len() - k,
{
    if k < s.len() {
        lemma_decimal_prefix_bound(s.drop_last(), if k < s.len() { k } else { k - 1 });
        assert(s.drop_last().take(k) =~= s.take(k));
        assert(all_digits(s.drop_last()));
        lemma_decimal_value_nonneg(s.drop_last());
        if k == s.len() - 1 {
            assert(s.take(k) =~= s.drop_last());
        }
    } else {
        assert(s.take(k) =~= s);
    }
}

/// The byte an escape `\c` stands for: `n`, `r`, `t`, `"` and `\`.
pub open spec fn spec_escape(c: u8) -> Option<u8> {
    if c == 110u8 {
        Some(10u8)
    } else if c == 114u8 {
        Some(13u8)
    } else if c == 116u8 {
        Some(9u8)
    } else if c == 34u8 {
        Some(34u8)
    } else if c == 92u8 {
        Some(92u8)
    } else {
        None
    }
}

pub fn escape(c: u8) -> (r: Option<u8>)
    ensures
        r == spec_escape(c),
{
    if c == 110u8 {
        Some(10u8)
    } else if c == 114u8 {
        Some(13u8)
    } else if c == 116u8 {
        Some(9u8)
    } else if c == 34u8 {
        Some(34u8)
    } else if c == 92u8 {
        Some(92u8)
    } else {
        None
    }
}

/// How a byte is written in a string or bytes literal: the control
/// characters tab, newline and carriage return, the quote and the
/// backslash by their escapes, any other byte as itself.
pub open spec fn literal_byte(b: u8) -> Seq<u8> {
    if b == ('\t' as u8) {
        seq![('\\' as u8), ('t' as u8)]
    } else if b == ('\n' as u8) {
        seq![('\\' as u8), ('n' as u8)]
    } else if b == ('\r' as u8) {
        seq![('\\' as u8), ('r' as u8)]
    } else if b == ('"' as u8) {
        seq![('\\' as u8), ('"' as u8)]
    } else if b == ('\\' as u8) {
        seq![('\\' as u8), ('\\' as u8)]
    } else {
        seq![b]
    }
}

/// How a sequence of bytes is written as the body of a literal.
pub open spec fn literal_body(bs: Seq<u8>) -> Seq<u8>
    decreases bs.len(),
{
    if bs.len() == 0 {
        seq![]
    } else {
        literal_byte(bs[0]) + literal_body(bs.drop_first())
    }
}

/// Decoding gives back every byte sequence as it is written in a literal:
/// `\t` is a tab, `\n` a newline, `\r` a carriage return, `\"` a quote and
/// `\\` a backslash.
pub proof fn law_escapes_decode_what_they_write(bs: Seq<u8>)
    ensures
        decode_body(literal_body(bs)) == Ok::<Seq<u8>, EscapeError>(bs),
    decreases bs.len(),
{
    assert(('\t' as u8) == 9u8 && ('\n' as u8) == 10u8 && ('\r' as u8) == 13u8 && ('"' as u8) == 34u8
        && ('\\' as u8) == 92u8 && ('t' as u8) == 116u8 && ('n' as u8) == 110u8 && ('r' as u8) == 114u8);
    if bs.len() > 0 {
        law_escapes_decode_what_they_write(bs.drop_first());
        let w = literal_body(bs);
        let head = literal_byte(bs[0]);
        let rest = literal_body(bs.drop_first());
        assert(w == head + rest);
        assert(seq![bs[0]] + bs.drop_first() =~= bs);
        if head.len() == 1 {
            assert(w[0] == bs[0] && bs[0] != 92u8);
            assert(w.subrange(1, w.len() as int) =~= rest);
            assert(decode_body(w) == Ok::<Seq<u8>, EscapeError>(seq![bs[0]] + bs.drop_first()));
        } else {
            assert(w[0] == 92u8 && w.len() >= 2 && w[1] == head[1]);
            assert(spec_escape(head[1]) == Some(bs[0]));
            assert(w.subrange(2, w.len() as int) =~= rest);
            assert(decode_body(w) == Ok::<Seq<u8>, EscapeError>(seq![bs[0]] + bs.drop_first()));
        }
    } else {
        assert(bs =~= Seq::<u8>::empty());
        assert(literal_body(bs) =~= Seq::<u8>::empty());
    }
}

/// Why a string body fails to decode.
#[derive(Clone, Copy, Debug, PartialEq, Eq, Structural)]
pub enum EscapeError {
    Unsupported(u8),
    Unterminated,
}

/// The bytes a string body stands for, its escapes replaced.
pub open spec fn decode_body(s: Seq<u8>) -> Result<Seq<u8>, EscapeError>
    decreases s.len(),
{
    if s.len() == 0 {
        Ok(Seq::empty())
    } else if s[0] != 92u8 {
        match decode_body(s.subrange(1, s.len() as int)) {
            Ok(rest) => Ok(seq![s[0]] + rest),
            Err(e) => Err(e),
        }
    } else if s.len() == 1 {
        Err(EscapeError::Unterminated)
    } else {
        match spec_escape(s[1]) {
            None => Err(EscapeError::Unsupported(s[1])),
            Some(b) => match decode_body(s.subrange(2, s.len() as int)) {
                Ok(rest) => Ok(seq![b] + rest),
                Err(e) => Err(e),
            },
        }
    }
}

/// Decodes `s[i..]` as a string body.
pub fn decode_body_from(s: &[u8], i: usize) -> (r: Result<Vec<u8>, EscapeError>)
    requires
        i <= s@.len(),
    ensures
        match (r, decode_body(s@.subrange(i as int, s@.len() as int))) {
            (Ok(v), Ok(w)) => v@ == w,
            (Err(e), Err(f)) => e == f,
            _ => false,
        },
    decreases s@.len() - i,
{
    let ghost rest = s@.subrange(i as int, s@.len() as int);
    if i >= s.len() {
        return Ok(Vec::new());
    }
    if s[i] != 92u8 {
        proof {
            assert(rest.subrange(1, rest.len() as int) =~= s@.subrange(i + 1, s@.len() as int));
        }
        match decode_body_from(s, i + 1) {
            Ok(tail) => {
                let mut v: Vec<u8> = Vec::new();
                v.push(s[i]);
                let mut tail = tail;
                v.append(&mut tail);
                Ok(v)
            },
            Err(e) => Err(e),
        }
    } else if i + 1 >= s.len() {
        Err(EscapeError::Unterminated)
    } else {
        match escape(s[i + 1]) {
            None => Err(EscapeError::Unsupported(s[i + 1])),
            Some(b) => {
                proof {
                    assert(rest.subrange(2, rest.len() as int) =~= s@.subrange(
                        i + 2,
                        s@.len() as int,
                    ));
                }
                match decode_body_from(s, i + 2) {
                    Ok(tail) => {
                        let mut v: Vec<u8> = Vec::new();
                        v.push(b);
                        let mut tail = tail;
                        v.append(&mut tail);
                        Ok(v)
                    },
                    Err(e) => Err(e),
                }
            },
        }
    }
}

/// The bytes of the message for an unsupported escape of byte `c`.
pub open spec fn unsupported_escape_bytes(c: u8) -> Seq<u8> {
    encode_utf8("unsupported escape \\"@).push(c)
}

/// The message for an escape error: the unsupported byte is shown when it
/// is ASCII.
pub open spec fn escape_text(e: EscapeError) -> Seq<char> {
    match e {
        EscapeError::Unterminated => "unterminated string escape"@,
        EscapeError::Unsupported(c) => if c < 0x80 && (forall|i: int|
            0 <= i < unsupported_escape_bytes(c).len() ==> #[trigger] unsupported_escape_bytes(c)[i] < 0x80) {
            unsupported_escape_bytes(c).map_values(|b: u8| b as char)
        } else {
            "unsupported escape"@
        },
    }
}

/// The ASCII message for an escape error.
pub fn escape_message(e: EscapeError) -> (m: String)
    ensures
        m@ == escape_text(e),
{
    match e {
        EscapeError::Unterminated => String::from_str("unterminated string escape"),
        EscapeError::Unsupported(c) => {
            if c < 0x80u8 {
                let mut bytes: Vec<u8> = Vec::new();
                let prefix = "unsupported escape \\".as_bytes();
                let mut k: usize = 0;
                while k < prefix.len()
                    invariant
                        k <= prefix@.len(),
                        bytes@.len() == k,
                        forall|q: int| 0 <= q < k ==> bytes@[q] == prefix@[q],
                    decreases prefix@.len() - k,
                {
                    bytes.push(prefix[k]);
                    k = k + 1;
                }
                bytes.push(c);
                proof {
                    let lit = "unsupported escape \\";
                    assert(prefix@ == encode_utf8(lit@));
                    assert(bytes@ =~= unsupported_escape_bytes(c));
                }
                if ascii_bytes(&bytes) {
                    crate::text::ascii_string(bytes)
                } else {
                    String::from_str("unsupported escape")
                }
            } else {
                String::from_str("unsupported escape")
            }
        },
    }
}

/// `true` when every byte is ASCII.
pub fn ascii_bytes(b: &Vec<u8>) -> (r: bool)
    ensures
        r == (forall|i: int| 0 <= i < b@.len() ==> b@[i] < 0x80),
{
    let mut i: usize = 0;
    while i < b.len()
        invariant
            i <= b@.len(),
            forall|q: int| 0 <= q < i ==> b@[q] < 0x80,
        decreases b@.len() - i,
    {
        if b[i] >= 0x80u8 {
            return false;
        }
        i = i + 1;
    }
    true
}

/// The name an atom `'name` spells: its text without the leading quotes.
pub open spec fn atom_name(s: Seq<u8>) -> Seq<u8>
    decreases s.len(),
{
    if s.len() > 0 && s[0] == 39u8 {
        atom_name(s.subrange(1, s.len() as int))
    } else {
        s
    }
}

/// The number of leading quotes of an atom's text.
pub fn atom_quotes(s: &[u8]) -> (k: usize)
    ensures
        k <= s@.len(),
        atom_name(s@) == s@.subrange(k as int, s@.len() as int),
{
    let mut k: usize = 0;
    assert(s@.subrange(0, s@.len() as int) =~= s@);
    while k < s.len() && s[k] == 39u8
        invariant
            k <= s@.len(),
            atom_name(s@) == atom_name(s@.subrange(k as int, s@.len() as int)),
        decreases s@.len() - k,
    {
        proof {
            let t = s@.subrange(k as int, s@.len() as int);
            assert(t.subrange(1, t.len() as int) =~= s@.subrange(k + 1, s@.len() as int));
        }
        k = k + 1;
    }
    proof {
        let t = s@.subrange(k as int, s@.len() as int);
        assert(t.len() == 0 || t[0] != 39u8);
    }
    k
}

// ---------------------------------------------------------------------------
// Call sections.

/// One argument of a call section `f\( ... )`.
pub enum CallArgument {
    Expression(Expr),
    Bare { location: Location },
    Indexed { index: usize, location: Location },
}

/// The number of parameters a call section may have.
pub const MAX_PLACEHOLDER_PARAMETERS: usize = 65535;

/// The parameter name of placeholder `index`, which no source can spell.
pub fn placeholder_parameter(index: usize) -> (s: String)
    ensures
        s@ == seq!['\0', 'x', 'l', '_', 'p', 'l', 'a', 'c', 'e', 'h', 'o', 'l', 'd', 'e', 'r', '_']
            + crate::text::decimal(index as nat),
{
    let mut s = String::from_str("\0xl_placeholder_");
    proof {
        reveal_strlit("\0xl_placeholder_");
    }
    push_decimal(&mut s, index);
    s
}

/// The variable that reads placeholder `index`.
pub fn placeholder_variable(index: usize, location: Location) -> (e: Expr)
    ensures
        e.location == location,
        e.value matches ExprKind::Variable(name) && name.location == location && name.value@
            == placeholder_parameter_spec(index),
{
    located(ExprKind::Variable(located(placeholder_parameter(index), location)), location)
}

pub open spec fn placeholder_parameter_spec(index: usize) -> Seq<char> {
    seq!['\0', 'x', 'l', '_', 'p', 'l', 'a', 'c', 'e', 'h', 'o', 'l', 'd', 'e', 'r', '_']
        + crate::text::decimal(index as nat)
}

/// The argument kinds of a section: 0 an expression, 1 a bare `_`, 2 an
/// indexed `_k`.
pub open spec fn argument_kind(a: CallArgument) -> int {
    match a {
        CallArgument::Expression(_) => 0,
        CallArgument::Bare { .. } => 1,
        CallArgument::Indexed { .. } => 2,
    }
}

pub open spec fn has_kind(args: Seq<CallArgument>, k: int) -> bool {
    exists|i: int| 0 <= i < args.len() && argument_kind(#[trigger] args[i]) == k
}

pub open spec fn max_index(args: Seq<CallArgument>) -> int
    decreases args.len(),
{
    if args.len() == 0 {
        -1
    } else {
        let rest = max_index(args.drop_last());
        match args.last() {
            CallArgument::Indexed { index, .. } => if index > rest {
                index as int
            } else {
                rest
            },
            _ => rest,
        }
    }
}

pub open spec fn uses_index(args: Seq<CallArgument>, k: int) -> bool {
    exists|i: int|
        0 <= i < args.len() && (#[trigger] args[i] matches CallArgument::Indexed { index, .. }
            && index == k)
}

/// The number of bare `_` placeholders among `args`.
pub open spec fn bares_in(args: Seq<CallArgument>) -> nat
    decreases args.len(),
{
    if args.len() == 0 {
        0
    } else {
        bares_in(args.drop_last()) + if args.last() is Bare {
            1nat
        } else {
            0nat
        }
    }
}

/// The call argument that argument `i` of a section becomes: an expression
/// stays, the `j`-th bare `_` reads parameter `j`, and `_k` reads parameter
/// `k`.
pub open spec fn lowered_argument(args: Seq<CallArgument>, i: int, e: Expr) -> bool {
    match args[i] {
        CallArgument::Expression(x) => e == x,
        CallArgument::Bare { location } => {
            &&& e.location == location
            &&& e.value matches ExprKind::Variable(n)
            &&& n.value@ == placeholder_parameter_spec(bares_in(args.take(i)) as usize)
        },
        CallArgument::Indexed { index, location } => {
            &&& e.location == location
            &&& e.value matches ExprKind::Variable(n)
            &&& n.value@ == placeholder_parameter_spec(index)
        },
    }
}

/// How a call section fails, if it does: a mix of `_` and `_k`, no
/// placeholder, an index past the limit, or a gap in the indices.
pub open spec fn section_failure(args: Seq<CallArgument>) -> Option<int> {
    if has_kind(args, 1) && has_kind(args, 2) {
        Some(0)
    } else if !has_kind(args, 1) && !has_kind(args, 2) {
        Some(1)
    } else if has_kind(args, 2) && max_index(args) >= MAX_PLACEHOLDER_PARAMETERS {
        Some(2)
    } else if has_kind(args, 2) && exists|k: int|
        0 <= k <= max_index(args) && !uses_index(args, k) {
        Some(3)
    } else {
        None
    }
}

/// The smallest index up to `max_index` that no indexed placeholder uses.
pub open spec fn first_missing(args: Seq<CallArgument>) -> int {
    choose|k: int|
        0 <= k <= max_index(args) && !uses_index(args, k) && forall|j: int|
            0 <= j < k ==> uses_index(args, j)
}

/// `a` and `b` are arguments of one kind, with one index if indexed.
pub open spec fn same_shape(a: CallArgument, b: CallArgument) -> bool {
    &&& argument_kind(a) == argument_kind(b)
    &&& (a matches CallArgument::Indexed { index, .. } ==> b matches CallArgument::Indexed { index: j, .. } && j == index)
}

/// Whether a section fails, and how, depends only on the kinds and indices
/// of its arguments.
/// Arguments of the same shapes have the same kinds and count their `_`
/// alike, in every prefix.
proof fn lemma_same_shape_counts(a: Seq<CallArgument>, b: Seq<CallArgument>)
    requires
        a.len() == b.len(),
        forall|k: int| 0 <= k < a.len() ==> same_shape(#[trigger] a[k], b[k]),
    ensures
        has_kind(a, 1) == has_kind(b, 1),
        forall|i: int| 0 <= i <= a.len() ==> #[trigger] bares_in(a.take(i)) == bares_in(b.take(i)),
    decreases a.len(),
{
    if has_kind(a, 1) {
        let w = choose|i: int| 0 <= i < a.len() && argument_kind(#[trigger] a[i]) == 1;
        assert(argument_kind(b[w]) == 1);
    }
    if has_kind(b, 1) {
        let w = choose|i: int| 0 <= i < b.len() && argument_kind(#[trigger] b[i]) == 1;
        assert(same_shape(a[w], b[w]));
    }
    if a.len() > 0 {
        let a1 = a.drop_last();
        let b1 = b.drop_last();
        assert forall|k: int| 0 <= k < a1.len() implies same_shape(#[trigger] a1[k], b1[k]) by {
            assert(a1[k] == a[k] && b1[k] == b[k]);
        }
        lemma_same_shape_counts(a1, b1);
        assert forall|i: int| 0 <= i <= a.len() implies #[trigger] bares_in(a.take(i)) == bares_in(b.take(i)) by {
            if i < a.len() {
                assert(a.take(i) =~= a1.take(i));
                assert(b.take(i) =~= b1.take(i));
            } else {
                assert(a.take(i) =~= a);
                assert(b.take(i) =~= b);
                assert(a.drop_last() == a1);
                assert(same_shape(a[a.len() - 1], b[b.len() - 1]));
                assert(bares_in(a1.take(a1.len() as int)) == bares_in(b1.take(b1.len() as int)));
                assert(a1.take(a1.len() as int) =~= a1);
                assert(b1.take(b1.len() as int) =~= b1);
            }
        }
    }
}

/// Arguments of the same shapes, with the same placeholders, put each
/// parameter at the same place.
proof fn lemma_same_shape_locations(a: Seq<CallArgument>, b: Seq<CallArgument>)
    requires
        a.len() == b.len(),
        forall|k: int| 0 <= k < a.len() ==> same_shape(#[trigger] a[k], b[k]),
        forall|k: int| 0 <= k < a.len() && !(#[trigger] a[k] is Expression) ==> a[k] == b[k],
    ensures
        forall|j: int| 0 <= j < bares_in(a) ==> #[trigger] bare_location(a, j) == bare_location(b, j),
        forall|j: int| uses_index(a, j) ==> #[trigger] index_location(a, j) == index_location(b, j),
    decreases a.len(),
{
    if a.len() > 0 {
        let a1 = a.drop_last();
        let b1 = b.drop_last();
        assert forall|k: int| 0 <= k < a1.len() implies same_shape(#[trigger] a1[k], b1[k]) by {
            assert(a1[k] == a[k] && b1[k] == b[k]);
        }
        assert forall|k: int| 0 <= k < a1.len() && !(#[trigger] a1[k] is Expression) implies a1[k] == b1[k] by {
            assert(a1[k] == a[k] && b1[k] == b[k]);
        }
        lemma_same_shape_locations(a1, b1);
        lemma_same_shape_counts(a1, b1);
        assert(a1.take(a1.len() as int) =~= a1);
        assert(b1.take(b1.len() as int) =~= b1);
        let n = a.len() - 1;
        assert(same_shape(a[n], b[n]));
        assert forall|j: int| #[trigger] uses_index(a1, j) <==> uses_index(b1, j) by {
            if uses_index(a1, j) {
                let w = choose|w: int| 0 <= w < a1.len() && (#[trigger] a1[w] matches CallArgument::Indexed { index, .. } && index == j);
                assert(same_shape(a1[w], b1[w]));
            }
            if uses_index(b1, j) {
                let w = choose|w: int| 0 <= w < b1.len() && (#[trigger] b1[w] matches CallArgument::Indexed { index, .. } && index == j);
                assert(same_shape(a1[w], b1[w]));
            }
        }
        assert(a.last() == a[n] && b.last() == b[n]);
        assert(bares_in(a1) == bares_in(b1));
        assert(a.drop_last() == a1 && b.drop_last() == b1);
        assert(argument_kind(a[n]) == argument_kind(b[n]));
        assert forall|j: int| 0 <= j < bares_in(a) implies #[trigger] bare_location(a, j) == bare_location(b, j) by {
            if a.last() is Bare && bares_in(a1) == j {
                assert(a[n] == b[n]);
                assert(b.last() is Bare);
                assert(bare_location(a, j) == argument_location(a[n]));
                assert(bare_location(b, j) == argument_location(b[n]));
            } else {
                assert(j < bares_in(a1));
                assert(bare_location(a, j) == bare_location(a1, j));
                assert(bare_location(b, j) == bare_location(b1, j));
                assert(bare_location(a1, j) == bare_location(b1, j));
            }
        }
        assert forall|j: int| uses_index(a, j) implies #[trigger] index_location(a, j) == index_location(b, j) by {
            if !uses_index(a1, j) {
                let w = choose|w: int| 0 <= w < a.len() && (#[trigger] a[w] matches CallArgument::Indexed { index, .. } && index == j);
                if w < n {
                    assert(a1[w] == a[w]);
                }
                assert(w == n);
                assert(a[n] == b[n]);
                assert(!uses_index(b1, j));
                assert(index_location(a, j) == argument_location(a[n]));
                assert(index_location(b, j) == argument_location(b[n]));
            } else {
                assert(uses_index(b1, j));
                assert(index_location(a, j) == index_location(a1, j));
                assert(index_location(b, j) == index_location(b1, j));
                assert(index_location(a1, j) == index_location(b1, j));
            }
        }
    }
}

proof fn lemma_same_shape_failure(a: Seq<CallArgument>, b: Seq<CallArgument>)
    requires
        a.len() == b.len(),
        forall|k: int| 0 <= k < a.len() ==> same_shape(#[trigger] a[k], b[k]),
    ensures
        max_index(a) == max_index(b),
        section_failure(a) == section_failure(b),
    decreases a.len(),
{
    if a.len() > 0 {
        assert forall|k: int| 0 <= k < a.drop_last().len() implies same_shape(#[trigger] a.drop_last()[k], b.drop_last()[k]) by {
            assert(a.drop_last()[k] == a[k] && b.drop_last()[k] == b[k]);
        }
        lemma_same_shape_failure(a.drop_last(), b.drop_last());
        assert(same_shape(a[a.len() - 1], b[b.len() - 1]));
        assert(a.last() == a[a.len() - 1] && b.last() == b[b.len() - 1]);
    }
    assert forall|kind: int| has_kind(a, kind) <==> has_kind(b, kind) by {
        if has_kind(a, kind) {
            let w = choose|i: int| 0 <= i < a.len() && argument_kind(#[trigger] a[i]) == kind;
            assert(same_shape(a[w], b[w]));
        }
        if has_kind(b, kind) {
            let w = choose|i: int| 0 <= i < b.len() && argument_kind(#[trigger] b[i]) == kind;
            assert(same_shape(a[w], b[w]));
        }
    }
    assert forall|x: int| uses_index(a, x) <==> uses_index(b, x) by {
        if uses_index(a, x) {
            let w = choose|i: int|
                0 <= i < a.len() && (#[trigger] a[i] matches CallArgument::Indexed { index, .. } && index == x);
            assert(same_shape(a[w], b[w]));
        }
        if uses_index(b, x) {
            let w = choose|i: int|
                0 <= i < b.len() && (#[trigger] b[i] matches CallArgument::Indexed { index, .. } && index == x);
            assert(same_shape(a[w], b[w]));
        }
    }
}

/// Where an argument of a call section stands.
pub open spec fn argument_location(a: CallArgument) -> Location {
    match a {
        CallArgument::Expression(e) => e.location,
        CallArgument::Bare { location } => location,
        CallArgument::Indexed { location, .. } => location,
    }
}

/// Where the first indexed placeholder of `args` stands.
pub open spec fn first_indexed_location(args: Seq<CallArgument>) -> Location
    decreases args.len(),
{
    if args.len() == 0 {
        vstd::pervasive::arbitrary()
    } else if args[0] is Indexed {
        argument_location(args[0])
    } else {
        first_indexed_location(args.drop_first())
    }
}

/// Where the first indexed placeholder `_idx` of `args` stands.
pub open spec fn index_location(args: Seq<CallArgument>, idx: int) -> Location
    decreases args.len(),
{
    if args.len() == 0 {
        vstd::pervasive::arbitrary()
    } else if uses_index(args.drop_last(), idx) {
        index_location(args.drop_last(), idx)
    } else {
        argument_location(args.last())
    }
}

/// Where the `j`-th `_` placeholder of `args` stands.
pub open spec fn bare_location(args: Seq<CallArgument>, j: int) -> Location
    decreases args.len(),
{
    if args.len() == 0 {
        vstd::pervasive::arbitrary()
    } else if args.last() is Bare && bares_in(args.drop_last()) == j {
        argument_location(args.last())
    } else {
        bare_location(args.drop_last(), j)
    }
}

/// Where parameter `j` of the closure a call section elaborates to stands:
/// at the `j`-th `_`, or at the first `_j`.
pub open spec fn parameter_location(args: Seq<CallArgument>, j: int) -> Location {
    if has_kind(args, 1) {
        bare_location(args, j)
    } else {
        index_location(args, j)
    }
}

/// Appending an argument keeps the first indexed placeholder, or makes the
/// new one first when there was none.
proof fn lemma_first_indexed_push(t: Seq<CallArgument>, x: CallArgument)
    ensures
        has_kind(t, 2) ==> first_indexed_location(t.push(x)) == first_indexed_location(t),
        (!has_kind(t, 2) && x is Indexed) ==> first_indexed_location(t.push(x)) == argument_location(x),
    decreases t.len(),
{
    let s = t.push(x);
    if t.len() > 0 {
        assert(s[0] == t[0]);
        assert(s.drop_first() =~= t.drop_first().push(x));
        lemma_first_indexed_push(t.drop_first(), x);
        if has_kind(t, 2) && !(t[0] is Indexed) {
            let w = choose|i: int| 0 <= i < t.len() && argument_kind(#[trigger] t[i]) == 2;
            assert(t.drop_first()[w - 1] == t[w]);
        }
        if !has_kind(t, 2) {
            assert(argument_kind(t[0]) != 2);
            assert forall|i: int| 0 <= i < t.drop_first().len() implies argument_kind(#[trigger] t.drop_first()[i]) != 2 by {
                assert(t.drop_first()[i] == t[i + 1]);
            }
        }
    } else {
        assert(s =~= seq![x]);
        assert(s.drop_first() =~= Seq::<CallArgument>::empty());
    }
}

/// The first `_idx` is at `k` when `args[k]` is `_idx` and none before it.
proof fn lemma_index_location(args: Seq<CallArgument>, idx: int, k: int)
    requires
        0 <= k < args.len(),
        args[k] matches CallArgument::Indexed { index, .. } && index == idx,
        forall|q: int| 0 <= q < k ==> !(#[trigger] args[q] matches CallArgument::Indexed { index, .. } && index == idx),
    ensures
        index_location(args, idx) == argument_location(args[k]),
    decreases args.len(),
{
    let init = args.drop_last();
    if k < args.len() - 1 {
        assert(init[k] == args[k]);
        assert(uses_index(init, idx));
        assert forall|q: int| 0 <= q < k implies !(#[trigger] init[q] matches CallArgument::Indexed { index, .. } && index == idx) by {
            assert(init[q] == args[q]);
        }
        lemma_index_location(init, idx, k);
    } else {
        if uses_index(init, idx) {
            let w = choose|w: int| 0 <= w < init.len() && (#[trigger] init[w] matches CallArgument::Indexed { index, .. }
                && index == idx);
            assert(init[w] == args[w]);
        }
    }
}

proof fn lemma_max_index_bounds(args: Seq<CallArgument>)
    ensures
        max_index(args) >= -1,
        forall|i: int|
            0 <= i < args.len() ==> (#[trigger] args[i] matches CallArgument::Indexed { index, .. }
                ==> index <= max_index(args)),
        has_kind(args, 2) ==> uses_index(args, max_index(args)),
        !has_kind(args, 2) ==> max_index(args) == -1,
    decreases args.len(),
{
    if args.len() > 0 {
        let init = args.drop_last();
        lemma_max_index_bounds(init);
        assert forall|i: int|
            0 <= i < args.len() implies (#[trigger] args[i] matches CallArgument::Indexed {
            index,
            ..
        } ==> index <= max_index(args)) by {
            if i < args.len() - 1 {
                assert(args[i] == init[i]);
            }
        }
        if has_kind(args, 2) {
            if has_kind(init, 2) {
                let w = choose|i: int|
                    0 <= i < init.len() && (#[trigger] init[i] matches CallArgument::Indexed {
                        index,
                        ..
                    } && index == max_index(init));
                assert(args[w] == init[w]);
            } else {
                assert(!(init.len() > 0 && false));
                let i = choose|i: int| 0 <= i < args.len() && argument_kind(#[trigger] args[i]) == 2;
                if i < args.len() - 1 {
                    assert(args[i] == init[i]);
                    assert(has_kind(init, 2));
                }
            }
            assert(uses_index(args, max_index(args)) || args.last() is Indexed);
            if args.last() is Indexed && max_index(args) == args.last()->index {
                assert(args[args.len() - 1] == args.last());
            }
            if !(args.last() is Indexed) || max_index(args) != args.last()->index {
                if has_kind(init, 2) {
                    let w = choose|i: int|
                        0 <= i < init.len() && (#[trigger] init[i] matches CallArgument::Indexed {
                            index,
                            ..
                        } && index == max_index(init));
                    assert(args[w] == init[w]);
                }
            }
        } else {
            assert forall|i: int| 0 <= i < init.len() implies argument_kind(#[trigger] init[i]) != 2 by {
                assert(args[i] == init[i]);
            }
            assert(args[args.len() - 1] == args.last());
        }
    }
}

/// Elaborates the call section `callee\(arguments)` into a closure over its
/// placeholders: `_` placeholders become parameters in order, indexed ones
/// `_k` become parameter `k`, and the closure calls `callee` with the
/// arguments. Fails, with a location and a message, on a mix of the two
/// kinds, on no placeholder, on an index past the limit, and on a gap.
pub fn elaborate_call_section(
    callee: Expr,
    arguments: Vec<CallArgument>,
    section_location: Location,
    location: Location,
) -> (r: Result<Expr, (Location, String)>)
    ensures
        section_failure(arguments@) is None <==> r is Ok,
        section_failure(arguments@) == Some(0int) ==> r is Err && r->Err_0.1@
            == "cannot mix '_' and indexed placeholders in one call"@ && r->Err_0.0 == first_indexed_location(arguments@),
        section_failure(arguments@) == Some(1int) ==> r is Err && r->Err_0.1@
            == "call section requires at least one placeholder"@ && r->Err_0.0 == section_location,
        section_failure(arguments@) == Some(2int) ==> r is Err && r->Err_0.1@
            == "placeholder index exceeds the limit of 65535 parameters"@ && r->Err_0.0 == index_location(
            arguments@,
            max_index(arguments@),
        ),
        section_failure(arguments@) == Some(3int) ==> r is Err && r->Err_0.1@
            == "indexed placeholders are missing _"@ + crate::text::decimal(
            first_missing(arguments@) as nat,
        ) && r->Err_0.0 == first_indexed_location(arguments@),
        r is Ok ==> r->Ok_0.location == location && r->Ok_0.value is Closure,
        r matches Ok(e) ==> ({
            &&& e.value matches ExprKind::Closure { parameters, body }
            &&& parameters@.len() == (if has_kind(arguments@, 1) {
                bares_in(arguments@) as int
            } else {
                max_index(arguments@) + 1
            })
            &&& forall|j: int| 0 <= j < parameters@.len() ==> (#[trigger] parameters@[j]).value@
                == placeholder_parameter_spec(j as usize)
            &&& forall|j: int| 0 <= j < parameters@.len() ==> (#[trigger] parameters@[j]).location
                == parameter_location(arguments@, j)
            &&& body.location == location
            &&& body.value.bindings@.len() == 0
            &&& body.value.result.location == location
            &&& body.value.result.value matches ExprKind::Call { callee: c, arguments: la }
            &&& *c == callee
            &&& la@.len() == arguments@.len()
            &&& forall|i: int| 0 <= i < la@.len() ==> lowered_argument(arguments@, i, #[trigger] la@[i])
        }),
{
    let ghost args = arguments@;
    let mut first_bare: Option<Location> = None;
    let mut first_indexed: Option<Location> = None;
    let mut bare_count: usize = 0;
    let mut max: usize = 0;
    let mut i: usize = 0;
    while i < arguments.len()
        invariant
            args == arguments@,
            i <= args.len(),
            first_bare is Some <==> has_kind(args.take(i as int), 1),
            first_indexed is Some <==> has_kind(args.take(i as int), 2),
            first_indexed is Some ==> max == max_index(args.take(i as int)),
            first_indexed matches Some(l) ==> l == first_indexed_location(args.take(i as int)),
            bare_count <= i,
        decreases args.len() - i,
    {
        proof {
            let pre = args.take(i as int);
            let next = args.take(i + 1);
            assert(next.drop_last() =~= pre);
            assert(next.last() == args[i as int]);
            assert forall|k: int| 0 <= k < pre.len() implies #[trigger] next[k] == pre[k] by {}
            if has_kind(pre, 1) {
                let w = choose|q: int| 0 <= q < pre.len() && argument_kind(#[trigger] pre[q]) == 1;
                assert(next[w] == pre[w]);
            }
            if has_kind(pre, 2) {
                let w = choose|q: int| 0 <= q < pre.len() && argument_kind(#[trigger] pre[q]) == 2;
                assert(next[w] == pre[w]);
            }
            assert(argument_kind(next[i as int]) == argument_kind(args[i as int]));
            lemma_max_index_bounds(pre);
            assert(next =~= pre.push(args[i as int]));
            lemma_first_indexed_push(pre, args[i as int]);
        }
        match &arguments[i] {
            CallArgument::Expression(_) => {
                proof {
                    assert forall|k: int| 1 <= k <= 2 && has_kind(args.take(i + 1), k) implies has_kind(
                        args.take(i as int),
                        k,
                    ) by {
                        let q = choose|q: int|
                            0 <= q < i + 1 && argument_kind(#[trigger] args.take(i + 1)[q]) == k;
                        assert(q < i);
                        assert(args.take(i as int)[q] == args.take(i + 1)[q]);
                    }
                }
            },
            CallArgument::Bare { location } => {
                if first_bare.is_none() {
                    first_bare = Some(*location);
                }
                bare_count = bare_count + 1;
                proof {
                    assert(argument_kind(args.take(i + 1)[i as int]) == 1);
                    assert forall|k: int| k == 2 && has_kind(args.take(i + 1), k) implies has_kind(
                        args.take(i as int),
                        k,
                    ) by {
                        let q = choose|q: int|
                            0 <= q < i + 1 && argument_kind(#[trigger] args.take(i + 1)[q]) == k;
                        assert(q < i);
                        assert(args.take(i as int)[q] == args.take(i + 1)[q]);
                    }
                }
            },
            CallArgument::Indexed { index, location } => {
                if first_indexed.is_none() {
                    first_indexed = Some(*location);
                    max = *index;
                } else if *index > max {
                    max = *index;
                }
                proof {
                    assert(argument_kind(args.take(i + 1)[i as int]) == 2);
                    assert forall|k: int| k == 1 && has_kind(args.take(i + 1), k) implies has_kind(
                        args.take(i as int),
                        k,
                    ) by {
                        let q = choose|q: int|
                            0 <= q < i + 1 && argument_kind(#[trigger] args.take(i + 1)[q]) == k;
                        assert(q < i);
                        assert(args.take(i as int)[q] == args.take(i + 1)[q]);
                    }
                    if !has_kind(args.take(i as int), 2) {
                        lemma_max_index_bounds(args.take(i as int));
                    }
                }
            },
        }
        i = i + 1;
    }
    proof {
        assert(args.take(args.len() as int) =~= args);
        lemma_max_index_bounds(args);
    }
    if first_bare.is_some() && first_indexed.is_some() {
        proof {
            reveal_strlit("cannot mix '_' and indexed placeholders in one call");
        }
        let at = first_indexed.unwrap();
        return Err((at, String::from_str("cannot mix '_' and indexed placeholders in one call")));
    }
    if first_bare.is_none() && first_indexed.is_none() {
        return Err(
            (section_location, String::from_str("call section requires at least one placeholder")),
        );
    }
    // The location of each parameter, in order.
    let mut slots: Vec<Option<Location>> = Vec::new();
    if first_bare.is_some() {
        let mut k: usize = 0;
        proof {
            assert(args.take(0) =~= Seq::<CallArgument>::empty());
        }
        while k < arguments.len()
            invariant
                args == arguments@,
                k <= args.len(),
                slots@.len() == bares_in(args.take(k as int)),
                bares_in(args.take(k as int)) <= k,
                forall|q: int| 0 <= q < slots@.len() ==> #[trigger] slots@[q] == Some(bare_location(args.take(k as int), q)),
            decreases args.len() - k,
        {
            proof {
                assert(args.take(k + 1).drop_last() =~= args.take(k as int));
                assert(args.take(k + 1).last() == args[k as int]);
            }
            let ghost before = slots@;
            match &arguments[k] {
                CallArgument::Bare { location } => {
                    slots.push(Some(*location));
                },
                _ => {},
            }
            proof {
                assert forall|q: int| 0 <= q < slots@.len() implies #[trigger] slots@[q] == Some(bare_location(args.take(k + 1), q)) by {
                    if q < before.len() {
                        assert(slots@[q] == before[q]);
                    }
                }
            }
            k = k + 1;
        }
        proof {
            assert(args.take(k as int) =~= args);
        }
    } else {
        if max >= MAX_PLACEHOLDER_PARAMETERS {
            let mut at = first_indexed.unwrap();
            let mut k: usize = 0;
            proof {
                lemma_max_index_bounds(args);
            }
            while k < arguments.len()
                invariant_except_break
                    forall|q: int| 0 <= q < k ==> !(#[trigger] args[q] matches CallArgument::Indexed { index, .. } && index == max),
                invariant
                    args == arguments@,
                    k <= args.len(),
                    max == max_index(args),
                    uses_index(args, max as int),
                ensures
                    at == index_location(args, max as int),
                decreases args.len() - k,
            {
                match &arguments[k] {
                    CallArgument::Indexed { index, location } => {
                        if *index == max {
                            at = *location;
                            proof {
                                lemma_index_location(args, max as int, k as int);
                            }
                            break;
                        }
                    },
                    _ => {},
                }
                k = k + 1;
            }

            return Err(
                (at, String::from_str("placeholder index exceeds the limit of 65535 parameters")),
            );
        }
        let mut k: usize = 0;
        while k <= max
            invariant
                k <= max + 1,
                max < MAX_PLACEHOLDER_PARAMETERS,
                slots@.len() == k,
                forall|q: int| 0 <= q < k ==> slots@[q] is None,
            decreases max + 1 - k,
        {
            slots.push(None);
            k = k + 1;
        }
        let mut k: usize = 0;
        while k < arguments.len()
            invariant
                args == arguments@,
                k <= args.len(),
                slots@.len() == max + 1,
                max == max_index(args),
                forall|i: int|
                    0 <= i < args.len() ==> (#[trigger] args[i] matches CallArgument::Indexed {
                        index,
                        ..
                    } ==> index <= max_index(args)),
                forall|q: int| 0 <= q <= max ==> (#[trigger] slots@[q] is Some <==> uses_index(
                    args.take(k as int),
                    q,
                )),
                forall|q: int| 0 <= q <= max && (#[trigger] slots@[q]) is Some ==> slots@[q] == Some(index_location(args.take(k as int), q)),
            decreases args.len() - k,
        {
            proof {
                assert forall|q: int| 0 <= q <= max && uses_index(args.take(k as int), q) implies uses_index(
                    args.take(k + 1),
                    q,
                ) by {
                    let w = choose|w: int|
                        0 <= w < k && (#[trigger] args.take(k as int)[w] matches CallArgument::Indexed {
                            index,
                            ..
                        } && index == q);
                    assert(args.take(k + 1)[w] == args.take(k as int)[w]);
                }
            }
            match &arguments[k] {
                CallArgument::Indexed { index, location } => {
                    proof {
                        assert(args[k as int] matches CallArgument::Indexed { index: ix, .. } && ix
                            <= max);
                        assert(args.take(k + 1)[k as int] == args[k as int]);
                    }
                    let ghost before = slots@;
                    if slots[*index].is_none() {
                        slots.set(*index, Some(*location));
                    }
                    proof {
                        assert(args.take(k + 1).drop_last() =~= args.take(k as int));
                        assert(args.take(k + 1).last() == args[k as int]);
                        assert forall|q: int| 0 <= q <= max && (#[trigger] slots@[q]) is Some implies slots@[q] == Some(
                            index_location(args.take(k + 1), q),
                        ) by {
                            if q != *index as int {
                                assert(slots@[q] == before[q]);
                            }
                        }
                    }
                    proof {
                        assert forall|q: int| 0 <= q <= max && uses_index(args.take(k + 1), q) implies #[trigger] slots@[q] is Some by {
                            let w = choose|w: int|
                                0 <= w < k + 1 && (#[trigger] args.take(k + 1)[w] matches CallArgument::Indexed {
                                    index,
                                    ..
                                } && index == q);
                            if w < k {
                                assert(args.take(k as int)[w] == args.take(k + 1)[w]);
                            }
                        }
                    }
                },
                _ => {
                    proof {
                        assert(args.take(k + 1).drop_last() =~= args.take(k as int));
                        assert forall|q: int| 0 <= q <= max && uses_index(args.take(k + 1), q) implies uses_index(
                            args.take(k as int),
                            q,
                        ) by {
                            let w = choose|w: int|
                                0 <= w < k + 1 && (#[trigger] args.take(k + 1)[w] matches CallArgument::Indexed {
                                    index,
                                    ..
                                } && index == q);
                            assert(w < k);
                            assert(args.take(k as int)[w] == args.take(k + 1)[w]);
                        }
                    }
                },
            }
            k = k + 1;
        }
        proof {
            assert(args.take(args.len() as int) =~= args);
        }
        let mut k: usize = 0;
        while k < slots.len()
            invariant
                args == arguments@,
                slots@.len() == max + 1,
                max == max_index(args),
                max < MAX_PLACEHOLDER_PARAMETERS,
                first_indexed is Some,
                first_indexed matches Some(l) ==> l == first_indexed_location(args),
                forall|q: int| 0 <= q <= max && (#[trigger] slots@[q]) is Some ==> slots@[q] == Some(index_location(args, q)),
                has_kind(args, 2),
                !has_kind(args, 1),
                k <= slots@.len(),
                forall|q: int| 0 <= q < k ==> (#[trigger] slots@[q]) is Some,
                forall|q: int| 0 <= q <= max ==> (#[trigger] slots@[q] is Some <==> uses_index(args, q)),
            decreases slots@.len() - k,
        {
            if slots[k].is_none() {
                proof {
                    assert(!uses_index(args, k as int));
                    assert forall|j: int| 0 <= j < k implies uses_index(args, j) by {
                        assert(slots@[j] is Some);
                    }
                    let fm = first_missing(args);
                    assert(0 <= fm <= max_index(args) && !uses_index(args, fm) && forall|j: int|
                        0 <= j < fm ==> uses_index(args, j));
                    if fm < k {
                        assert(slots@[fm] is Some);
                    }
                    if fm > k {
                        assert(uses_index(args, k as int));
                    }
                    assert(fm == k);
                    assert(0 <= k <= max_index(args) && !uses_index(args, k as int));
                    assert(exists|j: int| 0 <= j <= max_index(args) && !uses_index(args, j));
                    assert(section_failure(args) == Some(3int));
                    reveal_strlit("indexed placeholders are missing _");
                }
                let mut message = String::from_str("indexed placeholders are missing _");
                push_decimal(&mut message, k);
                return Err((first_indexed.unwrap(), message));
            }
            k = k + 1;
        }
        proof {
            assert forall|q: int| 0 <= q <= max_index(args) implies uses_index(args, q) by {
                assert(slots@[q] is Some);
            }
        }
    }
    // Build the closure.
    let ghost count = slots@.len();
    proof {
        assert forall|q: int| 0 <= q < slots@.len() implies #[trigger] slots@[q] == Some(parameter_location(args, q)) by {
            if !has_kind(args, 1) {
                assert(slots@[q] is Some);
            }
        }
    }
    let mut parameters: Vec<Identifier> = Vec::new();
    let mut k: usize = 0;
    while k < slots.len()
        invariant
            k <= slots@.len(),
            parameters@.len() == k,
            forall|j: int| 0 <= j < k ==> (#[trigger] parameters@[j]).value@ == placeholder_parameter_spec(j as usize),
            forall|q: int| 0 <= q < slots@.len() ==> #[trigger] slots@[q] == Some(parameter_location(args, q)),
            forall|j: int| 0 <= j < k ==> (#[trigger] parameters@[j]).location == parameter_location(args, j),
        decreases slots@.len() - k,
    {
        let at = match slots[k] {
            Some(l) => l,
            None => location,
        };
        parameters.push(located(placeholder_parameter(k), at));
        k = k + 1;
    }
    let mut lowered: Vec<Expr> = Vec::new();
    let mut next_bare: usize = 0;
    let mut arguments = arguments;
    let mut rest: Vec<CallArgument> = Vec::new();
    let total: usize = arguments.len();
    let ghost n = total as int;
    // Take the arguments in order.
    while arguments.len() > 0
        invariant
            n == args.len(),
            rest@.len() + arguments@.len() == n,
            arguments@ == args.take(arguments@.len() as int),
            forall|j: int| 0 <= j < rest@.len() ==> #[trigger] rest@[j] == args[n - 1 - j],
        decreases arguments@.len(),
    {
        let ghost before = arguments@;
        let a = arguments.pop().unwrap();
        proof {
            assert(arguments@ =~= args.take(arguments@.len() as int));
        }
        rest.push(a);
    }
    proof {
        assert(args.take(0) =~= Seq::<CallArgument>::empty());
    }
    while rest.len() > 0
        invariant
            n == args.len(),
            n <= usize::MAX,
            rest@.len() <= n,
            forall|j: int| 0 <= j < rest@.len() ==> #[trigger] rest@[j] == args[n - 1 - j],
            lowered@.len() == n - rest@.len(),
            next_bare == bares_in(args.take(n - rest@.len())),
            bares_in(args.take(n - rest@.len())) <= n - rest@.len(),
            forall|i: int| 0 <= i < lowered@.len() ==> lowered_argument(args, i, #[trigger] lowered@[i]),
        decreases rest@.len(),
    {
        let ghost p = n - rest@.len();
        proof {
            assert(rest@[rest@.len() - 1] == args[p]);
            assert(args.take(p + 1).drop_last() =~= args.take(p));
            assert(args.take(p + 1).last() == args[p]);
        }
        let a = rest.pop().unwrap();
        match a {
            CallArgument::Expression(e) => {
                lowered.push(e);
            },
            CallArgument::Bare { location: at } => {
                lowered.push(placeholder_variable(next_bare, at));
                if next_bare < usize::MAX {
                    next_bare = next_bare + 1;
                }
            },
            CallArgument::Indexed { index, location: at } => {
                lowered.push(placeholder_variable(index, at));
            },
        }
    }
    proof {
        assert(lowered@.len() == n);
    }
    let call = located(ExprKind::Call { callee: Box::new(callee), arguments: lowered }, location);
    let body = located(BlockKind { bindings: Vec::new(), result: Box::new(call) }, location);
    Ok(located(ExprKind::Closure { parameters, body }, location))
}

// ---------------------------------------------------------------------------
// Searches among the children of a node.

/// A test on a tree node.
pub enum NodeTest {
    /// A token leaf of this kind.
    IsToken(Token),
    /// An interior node of this rule.
    IsRule(Rule),
    /// Any interior node.
    AnyRule,
    /// A contract of a type scheme.
    Contract,
    /// The key of a Dict field: an identifier or a string literal.
    Key,
    /// An expression starting after the first byte bound and ending by the
    /// second.
    Expression(Option<usize>, Option<usize>),
    /// The payload of a tagged pattern: a pattern other than an atom token.
    Payload,
    /// A pattern ending by the byte bound.
    PatternBefore(usize),
    /// A binding of one of the six binding rules.
    Binding,
}

/// Tokens and rules that stand for an expression.
pub open spec fn spec_is_expression(k: NodeKind) -> bool {
    match k {
        NodeKind::Token(t) => t == Token::Int || t == Token::Float || t == Token::Bytes || t
            == Token::Atom || t == Token::Identifier,
        NodeKind::Rule(r) => r == Rule::ArrayExpr || r == Rule::AtomExpr || r
            == Rule::BinaryExpr || r == Rule::Block || r == Rule::BytesExpr || r
            == Rule::CallExpr || r == Rule::Closure || r == Rule::DictExpr || r
            == Rule::FieldExpr || r == Rule::FloatExpr || r == Rule::FunctionContract || r
            == Rule::IfExpr || r == Rule::IntExpr || r == Rule::MatchExpr || r
            == Rule::ParenExpr || r == Rule::PipelineExpr || r == Rule::SectionExpr || r
            == Rule::StringExpr || r == Rule::UnaryExpr || r == Rule::VariableExpr,
    }
}

/// The rules of bindings.
pub open spec fn is_binding_rule(k: NodeKind) -> bool {
    k == NodeKind::Rule(Rule::LetBinding) || k == NodeKind::Rule(Rule::DeclBinding) || k == NodeKind::Rule(
        Rule::DefBinding,
    ) || k == NodeKind::Rule(Rule::NativeBinding) || k == NodeKind::Rule(Rule::TypeBinding) || k == NodeKind::Rule(
        Rule::ImportBinding,
    )
}

/// The binding kind each binding rule lowers to.
pub open spec fn binding_kind_of(k: NodeKind) -> Option<BindingKind> {
    if k == NodeKind::Rule(Rule::LetBinding) {
        Some(BindingKind::Let)
    } else if k == NodeKind::Rule(Rule::DeclBinding) {
        Some(BindingKind::Decl)
    } else if k == NodeKind::Rule(Rule::DefBinding) {
        Some(BindingKind::Def)
    } else if k == NodeKind::Rule(Rule::NativeBinding) {
        Some(BindingKind::Native)
    } else if k == NodeKind::Rule(Rule::TypeBinding) {
        Some(BindingKind::Type)
    } else if k == NodeKind::Rule(Rule::ImportBinding) {
        Some(BindingKind::Import)
    } else {
        None
    }
}

/// Tokens and rules that stand for a pattern.
pub open spec fn spec_is_pattern(k: NodeKind) -> bool {
    match k {
        NodeKind::Token(t) => t == Token::Identifier || t == Token::Placeholder || t
            == Token::Int || t == Token::Float || t == Token::Atom,
        NodeKind::Rule(r) => r == Rule::AtomPattern || r == Rule::FloatPattern || r
            == Rule::IdentifierPattern || r == Rule::IntPattern || r == Rule::StringPattern
            || r == Rule::TaggedPattern || r == Rule::TuplePattern,
    }
}

impl<'a> Lowerer<'a> {
    /// The children of `node`, in order.
    pub open spec fn spec_children(self, node: NodeRef) -> Seq<NodeRef> {
        child_walk(self.cst.nodes@, node.0 + 1, subtree_end(self.cst.nodes@, node.0 as int))
    }

    /// Whether node `c` passes `test`.
    pub open spec fn passes(self, c: NodeRef, test: NodeTest) -> bool {
        let n = self.cst.nodes@[c.0 as int];
        match test {
            NodeTest::IsToken(t) => n.kind == NodeKind::Token(t),
            NodeTest::IsRule(r) => n.kind == NodeKind::Rule(r),
            NodeTest::AnyRule => n.kind is Rule,
            NodeTest::Contract => n.kind == NodeKind::Rule(Rule::ContractExpr) || n.kind == NodeKind::Rule(
                Rule::FunctionContract,
            ),
            NodeTest::Key => n.kind == NodeKind::Token(Token::Identifier) || n.kind == NodeKind::Rule(
                Rule::StringLiteral,
            ),
            NodeTest::Expression(after, until) => (match after {
                Some(a) => n.start > a,
                None => true,
            }) && (match until {
                Some(u) => n.end <= u,
                None => true,
            }) && spec_is_expression(n.kind),
            NodeTest::Payload => n.kind != NodeKind::Token(Token::Atom) && spec_is_pattern(n.kind),
            NodeTest::PatternBefore(until) => spec_is_pattern(n.kind) && n.end <= until,
            NodeTest::Binding => is_binding_rule(n.kind),
        }
    }

    /// The first of `cs` that passes `test`.
    pub open spec fn first_passing(self, cs: Seq<NodeRef>, test: NodeTest) -> Option<NodeRef>
        decreases cs.len(),
    {
        if cs.len() == 0 {
            None
        } else if self.passes(cs[0], test) {
            Some(cs[0])
        } else {
            self.first_passing(cs.subrange(1, cs.len() as int), test)
        }
    }

    /// Those of `cs` that pass `test`, in order.
    pub open spec fn all_passing(self, cs: Seq<NodeRef>, test: NodeTest) -> Seq<NodeRef>
        decreases cs.len(),
    {
        if cs.len() == 0 {
            seq![]
        } else {
            (if self.passes(cs[0], test) {
                seq![cs[0]]
            } else {
                seq![]
            }) + self.all_passing(cs.subrange(1, cs.len() as int), test)
        }
    }

    /// The first child of `node` that is a token of kind `t`.
    pub open spec fn spec_first_token(self, node: NodeRef, t: Token) -> Option<NodeRef> {
        self.first_passing(self.spec_children(node), NodeTest::IsToken(t))
    }

    /// `node` has a `<` or `==` child.
    pub open spec fn spec_has_comparison(self, node: NodeRef) -> bool {
        self.spec_first_token(node, Token::Less) is Some || self.spec_first_token(node, Token::EqualEqual) is Some
    }

    /// The interior children of `node` of rule `r`.
    pub open spec fn spec_rules_of(self, node: NodeRef, r: Rule) -> Seq<NodeRef> {
        self.all_passing(self.all_passing(self.spec_children(node), NodeTest::AnyRule), NodeTest::IsRule(r))
    }

    /// The pieces of a string literal under `node`, in order: its text and
    /// escape tokens and its interpolations, which are not entered.
    pub open spec fn spec_pieces(self, node: NodeRef) -> Seq<NodeRef>
        decreases self.rank(node), 1int, 0int,
    {
        if node.0 >= self.cst.nodes@.len() {
            seq![]
        } else {
            match self.cst.nodes@[node.0 as int].kind {
                NodeKind::Token(t) => if t == Token::StringText || t == Token::EscapeSequence {
                    seq![node]
                } else {
                    seq![]
                },
                NodeKind::Rule(r) => if r == Rule::Interpolation {
                    seq![node]
                } else {
                    self.pieces_of(self.spec_children(node), node)
                },
            }
        }
    }

    /// The pieces under the children `cs` of `parent`, in order.
    pub open spec fn pieces_of(self, cs: Seq<NodeRef>, parent: NodeRef) -> Seq<NodeRef>
        decreases self.rank(parent), 0int, cs.len(),
    {
        if cs.len() == 0 || parent.0 >= self.cst.nodes@.len() {
            seq![]
        } else {
            (if parent.0 < cs[0].0 && cs[0].0 < self.cst.nodes@.len() {
                self.spec_pieces(cs[0])
            } else {
                seq![]
            }) + self.pieces_of(cs.subrange(1, cs.len() as int), parent)
        }
    }

    /// A contract node lowers: it is a contract, each contract among its
    /// interior children lowers, a plain contract has a name, and a function
    /// contract has a result.
    pub open spec fn contract_ok(self, node: NodeRef) -> bool
        decreases self.rank(node),
    {
        let rules = self.all_passing(self.spec_children(node), NodeTest::AnyRule);
        &&& node.0 < self.cst.nodes@.len()
        &&& self.passes(node, NodeTest::Contract)
        &&& forall|k: int|
            0 <= k < rules.len() && self.passes(rules[k], NodeTest::Contract) && node.0 < rules[k].0
                < self.cst.nodes@.len() ==> self.contract_ok(#[trigger] rules[k])
        &&& self.cst.nodes@[node.0 as int].kind == NodeKind::Rule(Rule::ContractExpr) ==> self.spec_first_token(
            node,
            Token::Identifier,
        ) is Some
        &&& self.cst.nodes@[node.0 as int].kind == NodeKind::Rule(Rule::FunctionContract) ==> self.first_passing(
            rules,
            NodeTest::Contract,
        ) is Some
    }

    /// The contracts nested in contract `node`, in order.
    pub open spec fn contract_parts(self, node: NodeRef) -> Seq<NodeRef> {
        self.all_passing(self.rule_kids(node), NodeTest::Contract)
    }

    /// The expression a contract lowers to, at the contract: `Name` a
    /// variable, `Name(a, b)` a call of the variable with the lowered inner
    /// contracts, and `Fn(a, b) -> c` the call `Fn([a, b], c)`.
    pub open spec fn contract_shape(self, node: NodeRef, e: Expr) -> bool
        decreases self.rank(node),
    {
        let parts = self.contract_parts(node);
        let here = self.spec_location(node);
        &&& e.location == here
        &&& forall|j: int| 0 <= j < parts.len() ==> #[trigger] self.below(node, parts[j])
        &&& if self.cst.nodes@[node.0 as int].kind == NodeKind::Rule(Rule::ContractExpr) {
            self.spec_first_token(node, Token::Identifier) matches Some(nm) && if parts.len() == 0 {
                e.value matches ExprKind::Variable(n) && self.names_of(seq![n], seq![nm])
            } else {
                e.value matches ExprKind::Call { callee, arguments } && callee.location == here
                    && (callee.value matches ExprKind::Variable(n) && self.names_of(seq![n], seq![nm]))
                    && arguments@.len() == parts.len() && forall|j: int|
                    0 <= j < parts.len() ==> self.below(node, parts[j]) && self.contract_shape(parts[j], #[trigger] arguments@[j])
            }
        } else {
            &&& parts.len() > 0
            &&& e.value matches ExprKind::Call { callee, arguments }
            &&& callee.location == here
            &&& callee.value matches ExprKind::Variable(n) && n.value@ == "Fn"@ && n.location == here
            &&& arguments@.len() == 2
            &&& arguments@[0].location == here
            &&& arguments@[0].value matches ExprKind::Array(ps) && ps@.len() == parts.len() - 1 && forall|j: int|
                0 <= j < ps@.len() ==> self.below(node, parts[j]) && self.contract_shape(parts[j], #[trigger] ps@[j])
            &&& self.below(node, parts.last()) && self.contract_shape(parts.last(), arguments@[1])
        }
    }

    /// The text of an Int literal token fits an `i64`.
    pub open spec fn int_ok(self, node: NodeRef) -> bool {
        let t = self.spec_text_bytes(node);
        t.len() > 0 && all_digits(t) && decimal_value(t) <= i64::MAX
    }

    /// A string literal without interpolations whose pieces all decode.
    pub open spec fn plain_ok(self, node: NodeRef) -> bool {
        &&& self.first_passing(self.spec_pieces(node), NodeTest::IsRule(Rule::Interpolation)) is None
        &&& self.spec_components(self.spec_pieces(node)) is Ok
    }

    /// A pattern node lowers: a pattern token (an Int one in range), or a
    /// pattern rule with the parts it needs, whose payload or items lower.
    pub open spec fn pattern_ok(self, node: NodeRef) -> bool
        decreases self.rank(node),
    {
        if node.0 >= self.cst.nodes@.len() {
            false
        } else {
            let cs = self.spec_children(node);
            match self.cst.nodes@[node.0 as int].kind {
                NodeKind::Token(t) => t == Token::Identifier || t == Token::Placeholder || (t == Token::Int
                    && self.int_ok(node)) || t == Token::Float || t == Token::Atom,
                NodeKind::Rule(r) => if r == Rule::IdentifierPattern {
                    self.spec_first_token(node, Token::Placeholder) is Some || self.spec_first_token(
                        node,
                        Token::Identifier,
                    ) is Some
                } else if r == Rule::IntPattern {
                    match self.spec_first_token(node, Token::Int) {
                        Some(n) => self.int_ok(n),
                        None => false,
                    }
                } else if r == Rule::FloatPattern {
                    self.spec_first_token(node, Token::Float) is Some
                } else if r == Rule::StringPattern {
                    match self.first_passing(cs, NodeTest::IsRule(Rule::StringLiteral)) {
                        Some(l) => self.plain_ok(l),
                        None => false,
                    }
                } else if r == Rule::AtomPattern {
                    self.spec_first_token(node, Token::Atom) is Some
                } else if r == Rule::TaggedPattern {
                    &&& self.spec_first_token(node, Token::Atom) is Some
                    &&& match self.first_passing(cs, NodeTest::Payload) {
                        Some(q) => node.0 < q.0 < self.cst.nodes@.len() && self.pattern_ok(q),
                        None => false,
                    }
                } else if r == Rule::TuplePattern {
                    forall|k: int|
                        0 <= k < cs.len() && spec_is_pattern(self.cst.nodes@[cs[k].0 as int].kind) && node.0
                            < cs[k].0 < self.cst.nodes@.len() ==> self.pattern_ok(#[trigger] cs[k])
                } else {
                    false
                },
            }
        }
    }

    /// `ids` are the identifier nodes `ns`, each with its text and location.
    pub open spec fn names_of(self, ids: Seq<Identifier>, ns: Seq<NodeRef>) -> bool {
        &&& ids.len() == ns.len()
        &&& forall|k: int| 0 <= k < ids.len() ==> {
            &&& (#[trigger] ids[k]).location == self.spec_location(ns[k])
            &&& ids[k].value@ == vstd::utf8::decode_utf8(self.spec_text_bytes(ns[k]))
        }
    }

    /// What a lowered binding of `node` carries besides its value: the kind
    /// of its rule, the name of its first identifier, the type parameters of
    /// its type scheme (for a declaration or definition) and an annotation
    /// for a declaration.
    pub open spec fn binding_shape(self, node: NodeRef, b: Binding) -> bool
        decreases self.rank(node), 13int,
    {
        let scheme = self.first_passing(self.spec_children(node), NodeTest::IsRule(Rule::TypeScheme));
        &&& b.location == self.spec_location(node)
        &&& binding_kind_of(self.cst.nodes@[node.0 as int].kind) == Some(b.value.kind)
        &&& self.spec_first_token(node, Token::Identifier) matches Some(n) && self.names_of(seq![b.value.name], seq![n])
        &&& if b.value.kind is Decl || b.value.kind is Native || b.value.kind is Def {
            self.names_of(b.value.type_parameters@, self.spec_type_parameter_nodes(scheme))
        } else {
            b.value.type_parameters@.len() == 0
        }
        &&& (b.value.kind is Decl || b.value.kind is Native) ==> (b.value.annotation matches Some(a) && scheme matches Some(sch)
            && self.first_passing(self.rule_kids(sch), NodeTest::Contract) matches Some(c) && self.below(node, c)
            && self.contract_shape(c, a) && self.contract_shape(c, b.value.value))
        &&& b.value.kind is Import ==> (self.first_passing(self.spec_children(node), NodeTest::IsRule(Rule::StringLiteral)) matches Some(p)
            && b.value.value.location == self.spec_location(p) && (b.value.value.value matches ExprKind::String(t)
            && self.spec_components(self.spec_pieces(p)) == Ok::<Seq<char>, (Seq<char>, NodeRef)>(t@)))
        &&& b.value.kind is Type ==> (self.spec_first_token(node, Token::Equal) matches Some(eq) && self.decorators_shape(
            node,
            b.value.decorators@,
        ) && self.decorated_value(node, eq, "Type"@, b.value.name, b.value.value) && b.value.annotation is None)
        &&& !(b.value.kind is Type) ==> b.value.decorators@.len() == 0
        &&& b.value.kind is Import ==> b.value.annotation is None
        &&& b.value.kind is Def ==> ((b.value.annotation is Some <==> scheme is Some) && (b.value.annotation matches Some(a)
            ==> scheme matches Some(sch) && self.first_passing(self.rule_kids(sch), NodeTest::Contract) matches Some(c)
            && self.below(node, c) && self.contract_shape(c, a)))
        &&& (b.value.kind is Let || b.value.kind is Def) ==> (self.spec_first_token(node, Token::Equal) matches Some(eq)
            && self.expr_after(node, Some(self.spec_start(eq)), None) matches Some(v)
            && self.below(node, v) && self.lowered_shape(v, b.value.value))
        &&& b.value.kind is Let ==> (b.value.annotation is Some <==> (self.spec_first_token(node, Token::Colon) matches Some(c)
            && self.spec_first_token(node, Token::Equal) matches Some(eq)
            && self.expr_after(node, Some(self.spec_start(c)), Some(self.spec_start(eq))) is Some))
        &&& (b.value.kind is Let && b.value.annotation is Some) ==> (self.spec_first_token(node, Token::Colon) matches Some(c)
            && self.spec_first_token(node, Token::Equal) matches Some(eq)
            && self.expr_after(node, Some(self.spec_start(c)), Some(self.spec_start(eq))) matches Some(a)
            && self.below(node, a) && self.lowered_shape(a, b.value.annotation->Some_0))
    }

    /// The body node of the program: the root's `Body` child, or else its
    /// first interior child.
    pub open spec fn program_body(self) -> Option<NodeRef> {
        match self.first_passing(self.spec_children(NodeRef(0)), NodeTest::IsRule(Rule::Body)) {
            Some(b) => Some(b),
            None => self.first_passing(self.spec_children(NodeRef(0)), NodeTest::AnyRule),
        }
    }

    /// A child of the root body that recovery lowers on its own and that
    /// fails: a binding that does not lower, or an expression that does not.
    pub open spec fn recovery_fails(self, c: NodeRef) -> bool {
        let k = self.cst.nodes@[c.0 as int].kind;
        if is_binding_rule(k) {
            !self.binding_ok(c)
        } else {
            spec_is_expression(k) && !self.expr_ok(c)
        }
    }

    /// The bindings among `cs` that lower, in order.
    pub open spec fn lowered_binding_nodes(self, cs: Seq<NodeRef>) -> Seq<NodeRef>
        decreases cs.len(),
    {
        if cs.len() == 0 {
            Seq::empty()
        } else {
            self.lowered_binding_nodes(cs.drop_last()) + if is_binding_rule(self.cst.nodes@[cs.last().0 as int].kind)
                && self.binding_ok(cs.last()) {
                seq![cs.last()]
            } else {
                Seq::empty()
            }
        }
    }

    /// The children of the root's `Body` child, which recovery visits.
    pub open spec fn recovery_nodes(self) -> Seq<NodeRef> {
        match self.first_passing(self.spec_children(NodeRef(0)), NodeTest::IsRule(Rule::Body)) {
            Some(b) => self.spec_children(b),
            None => seq![],
        }
    }

    /// The expression children of `node`, in order.
    pub open spec fn expr_nodes(self, node: NodeRef) -> Seq<NodeRef> {
        self.all_passing(self.spec_children(node), NodeTest::Expression(None, None))
    }

    /// Where the expression lowered from `node` is located: at the node,
    /// except that parentheses around one expression and no comma give that
    /// expression itself.
    pub open spec fn expr_location(self, node: NodeRef) -> Location
        decreases self.rank(node),
    {
        if node.0 < self.cst.nodes@.len() && self.cst.nodes@[node.0 as int].kind == NodeKind::Rule(Rule::ParenExpr)
            && self.expr_nodes(node).len() == 1 && self.spec_first_token(node, Token::Comma) is None
            && self.below(node, self.expr_nodes(node)[0]) {
            self.expr_location(self.expr_nodes(node)[0])
        } else {
            self.spec_location(node)
        }
    }

    /// The operator of a binary expression node: its first operator token,
    /// tried in the order `+ - * / < ==`.
    pub open spec fn spec_binary_operator(self, node: NodeRef) -> Option<BinaryOperator> {
        if self.spec_first_token(node, Token::Plus) is Some {
            Some(BinaryOperator::Add)
        } else if self.spec_first_token(node, Token::Minus) is Some {
            Some(BinaryOperator::Subtract)
        } else if self.spec_first_token(node, Token::Star) is Some {
            Some(BinaryOperator::Multiply)
        } else if self.spec_first_token(node, Token::Slash) is Some {
            Some(BinaryOperator::Divide)
        } else if self.spec_first_token(node, Token::Less) is Some {
            Some(BinaryOperator::LessThan)
        } else if self.spec_first_token(node, Token::EqualEqual) is Some {
            Some(BinaryOperator::Equal)
        } else {
            None
        }
    }

    /// The value of a literal or name token `leaf`: an Int's decimal value,
    /// a Float's text, a variable's name.
    pub open spec fn leaf_value(self, leaf: NodeRef, v: ExprKind) -> bool {
        let k = self.cst.nodes@[leaf.0 as int].kind;
        let t = self.spec_text_bytes(leaf);
        &&& k == NodeKind::Token(Token::Int) ==> v == ExprKind::Int(decimal_value(t) as i64)
        &&& k == NodeKind::Token(Token::Float) ==> (v matches ExprKind::Float(s) && s@ == vstd::utf8::decode_utf8(t))
        &&& k == NodeKind::Token(Token::Identifier) ==> (v matches ExprKind::Variable(n) && n.value@
            == vstd::utf8::decode_utf8(t) && n.location == self.spec_location(leaf))
        &&& k == NodeKind::Token(Token::Atom) ==> (v matches ExprKind::Atom(a) && encode_utf8(a@) == atom_text_spec(t))
        &&& k == NodeKind::Token(Token::Bytes) ==> (v matches ExprKind::Bytes(w) && decode_body(bytes_body(t)) == Ok::<Seq<u8>, EscapeError>(w@))
    }

    /// The shape of the expression `e` lowered from `node`: its location,
    /// and for arrays, binary operators and pipelines, its operands in the
    /// order of the expression children.
    pub open spec fn lowered_shape(self, node: NodeRef, e: Expr) -> bool
        decreases self.rank(node), 3int,
    {
        let k = self.cst.nodes@[node.0 as int].kind;
        let xs = self.expr_nodes(node);
        &&& e.location == self.expr_location(node)
        &&& k is Token ==> self.leaf_value(node, e.value)
        &&& k == NodeKind::Rule(Rule::IntExpr) ==> (self.spec_first_token(node, Token::Int) matches Some(l)
            && self.leaf_value(l, e.value))
        &&& k == NodeKind::Rule(Rule::FloatExpr) ==> (self.spec_first_token(node, Token::Float) matches Some(l)
            && self.leaf_value(l, e.value))
        &&& k == NodeKind::Rule(Rule::VariableExpr) ==> (self.spec_first_token(node, Token::Identifier) matches Some(l)
            && self.leaf_value(l, e.value))
        &&& k == NodeKind::Rule(Rule::AtomExpr) ==> (self.spec_first_token(node, Token::Atom) matches Some(l)
            && self.leaf_value(l, e.value))
        &&& k == NodeKind::Rule(Rule::BytesExpr) ==> (self.spec_first_token(node, Token::Bytes) matches Some(l)
            && self.leaf_value(l, e.value))
        &&& k == NodeKind::Rule(Rule::SectionExpr) ==> self.section_shape(node, e)
        &&& k == NodeKind::Rule(Rule::FunctionContract) ==> self.contract_shape(node, e)
        &&& k == NodeKind::Rule(Rule::DictExpr) ==> (e.value matches ExprKind::Dict(fields)
            && fields@.len() == self.spec_rules_of(node, Rule::DictField).len() && forall|j: int|
            0 <= j < fields@.len() ==> self.below(node, self.spec_rules_of(node, Rule::DictField)[j]) && self.field_shape(
                self.spec_rules_of(node, Rule::DictField)[j],
                #[trigger] fields@[j],
            ))
        &&& k == NodeKind::Rule(Rule::StringExpr) ==> self.string_shape(node, e)
        &&& k == NodeKind::Rule(Rule::ArrayExpr) ==> (e.value matches ExprKind::Array(items) && items@.len() == xs.len()
            && forall|j: int| 0 <= j < xs.len() ==> self.below(node, xs[j]) && self.lowered_shape(xs[j], #[trigger] items@[j]))
        &&& k == NodeKind::Rule(Rule::ParenExpr) ==> if xs.len() == 1 && self.spec_first_token(node, Token::Comma) is None {
            self.below(node, xs[0]) && self.lowered_shape(xs[0], e)
        } else {
            e.value matches ExprKind::Tuple(items) && items@.len() == xs.len()
                && forall|j: int| 0 <= j < xs.len() ==> self.below(node, xs[j]) && self.lowered_shape(xs[j], #[trigger] items@[j])
        }
        &&& k == NodeKind::Rule(Rule::BinaryExpr) ==> (e.value matches ExprKind::Binary { operator, left, right }
            && self.spec_binary_operator(node) == Some(operator.value) && xs.len() >= 2
            && self.below(node, xs[0]) && self.lowered_shape(xs[0], *left)
            && self.below(node, xs[1]) && self.lowered_shape(xs[1], *right))
        &&& k == NodeKind::Rule(Rule::PipelineExpr) ==> (e.value matches ExprKind::Call { callee, arguments }
            && xs.len() >= 2 && arguments@.len() == 1
            && self.below(node, xs[1]) && self.lowered_shape(xs[1], *callee)
            && self.below(node, xs[0]) && self.lowered_shape(xs[0], arguments@[0]))
        &&& k == NodeKind::Rule(Rule::UnaryExpr) ==> (e.value matches ExprKind::Unary { operand, .. }
            && xs.len() > 0 && self.below(node, xs[0]) && self.lowered_shape(xs[0], *operand))
        &&& k == NodeKind::Rule(Rule::FieldExpr) ==> (e.value matches ExprKind::Field { receiver, field }
            && xs.len() > 0 && self.below(node, xs[0]) && self.lowered_shape(xs[0], *receiver)
            && self.all_passing(self.spec_children(node), NodeTest::IsToken(Token::Identifier)).len() > 0
            && self.names_of(seq![field], seq![self.all_passing(self.spec_children(node), NodeTest::IsToken(Token::Identifier)).last()]))
        &&& k == NodeKind::Rule(Rule::Block) ==> (e.value matches ExprKind::Block(b) && self.block_shape(node, b))
        &&& k == NodeKind::Rule(Rule::Closure) ==> match (
            e.value,
            self.first_passing(self.spec_children(node), NodeTest::IsRule(Rule::Parameters)),
            self.first_passing(self.spec_children(node), NodeTest::IsRule(Rule::Block)),
        ) {
            (ExprKind::Closure { parameters, body }, Some(ps), Some(bn)) => self.names_of(
                parameters@,
                self.all_passing(self.spec_children(ps), NodeTest::IsToken(Token::Identifier)),
            ) && self.below(node, bn) && self.block_shape(bn, body),
            _ => false,
        }
        &&& k == NodeKind::Rule(Rule::IfExpr) ==> (e.value matches ExprKind::If { condition, then_branch, else_branch }
            && xs.len() > 0 && self.below(node, xs[0]) && self.lowered_shape(xs[0], *condition)
            && self.spec_rules_of(node, Rule::Block).len() >= 2
            && self.below(node, self.spec_rules_of(node, Rule::Block)[0])
            && self.block_shape(self.spec_rules_of(node, Rule::Block)[0], then_branch)
            && self.below(node, self.spec_rules_of(node, Rule::Block)[1])
            && self.block_shape(self.spec_rules_of(node, Rule::Block)[1], else_branch))
        &&& k == NodeKind::Rule(Rule::MatchExpr) ==> (e.value matches ExprKind::Match { value, arms }
            && xs.len() > 0 && self.below(node, xs[0]) && self.lowered_shape(xs[0], *value)
            && arms@.len() == self.spec_rules_of(node, Rule::MatchArm).len()
            && forall|j: int| 0 <= j < arms@.len() ==> self.below(node, self.spec_rules_of(node, Rule::MatchArm)[j])
                && self.arm_shape(self.spec_rules_of(node, Rule::MatchArm)[j], #[trigger] arms@[j]))
        &&& k == NodeKind::Rule(Rule::CallExpr) ==> (e.value matches ExprKind::Call { callee, arguments }
            && xs.len() > 0 && self.below(node, xs[0]) && self.lowered_shape(xs[0], *callee) && match self.first_passing(
            self.spec_children(node),
            NodeTest::IsRule(Rule::Arguments),
        ) {
            Some(a) => arguments@.len() == self.expr_nodes(a).len() && forall|j: int|
                0 <= j < arguments@.len() ==> self.below(node, self.expr_nodes(a)[j]) && self.lowered_shape(
                    self.expr_nodes(a)[j],
                    #[trigger] arguments@[j],
                ),
            None => arguments@.len() == 0,
        })
    }

    /// The block lowered from `node`: at the node, with one binding for each
    /// binding of its body, in order, and the body's last expression as its
    /// result.
    pub open spec fn block_shape(self, node: NodeRef, b: Block) -> bool
        decreases self.rank(node), 2int,
    {
        &&& b.location == self.spec_location(node)
        &&& self.block_body_node(node) matches Some(body) && {
            let bs = self.all_passing(self.spec_children(body), NodeTest::Binding);
            let xs = self.expr_nodes(body);
            &&& b.value.bindings@.len() == bs.len()
            &&& forall|k: int| 0 <= k < bs.len() ==> self.below(node, #[trigger] bs[k]) && self.binding_shape(bs[k], b.value.bindings@[k])
            &&& xs.len() > 0 && self.below(node, xs.last()) && self.lowered_shape(xs.last(), *b.value.result)
        }
    }

    /// The string lowered from the string expression `node`: the decoded
    /// text of a literal without interpolations, else one part per piece.
    pub open spec fn string_shape(self, node: NodeRef, e: Expr) -> bool
        decreases self.rank(node), 2int,
    {
        match self.first_passing(self.spec_children(node), NodeTest::IsRule(Rule::StringLiteral)) {
            None => false,
            Some(l) => {
                let ps = self.spec_pieces(l);
                if self.first_passing(ps, NodeTest::IsRule(Rule::Interpolation)) is None {
                    e.value matches ExprKind::String(t) && self.spec_components(ps) == Ok::<Seq<char>, (Seq<char>, NodeRef)>(t@)
                } else {
                    e.value matches ExprKind::InterpolatedString(parts) && parts@.len() == ps.len() && forall|j: int|
                        0 <= j < parts@.len() ==> node.0 < ps[j].0 < self.cst.nodes@.len() && self.piece_shape(ps[j], #[trigger] parts@[j])
                }
            },
        }
    }

    /// The part of an interpolated string lowered from the piece `p`: an
    /// interpolation gives the lowering of its expression, any other piece
    /// its decoded text.
    pub open spec fn piece_shape(self, p: NodeRef, part: StringPart) -> bool
        decreases self.rank(p), 1int,
    {
        if p.0 < self.cst.nodes@.len() && self.passes(p, NodeTest::IsRule(Rule::Interpolation)) {
            match (part.value, self.expr_after(p, None, None)) {
                (StringPartKind::Expression(x), Some(c)) => self.below(p, c) && self.lowered_shape(c, x),
                _ => false,
            }
        } else {
            part.value matches StringPartKind::Text(t) && self.spec_component(p) == Ok::<Seq<char>, Seq<char>>(t@)
        }
    }

    /// The match arm lowered from `node`: at the node, with the pattern
    /// before its `=>` and the lowering of the value after it.
    pub open spec fn arm_shape(self, node: NodeRef, a: MatchArm) -> bool
        decreases self.rank(node), 1int,
    {
        &&& a.location == self.spec_location(node)
        &&& self.spec_first_token(node, Token::FatArrow) matches Some(arrow)
        &&& self.first_passing(self.spec_children(node), NodeTest::PatternBefore(self.spec_start(arrow))) matches Some(pn)
        &&& a.value.pattern.location == self.spec_location(pn)
        &&& self.expr_after(node, Some(self.spec_start(arrow)), None) matches Some(v)
        &&& self.below(node, v) && self.lowered_shape(v, a.value.value)
    }

    /// Where node `n` starts.
    pub open spec fn spec_start(self, n: NodeRef) -> usize {
        self.cst.nodes@[n.0 as int].start
    }

    /// `c` is a node of the tree after `node`, so of smaller rank.
    pub open spec fn below(self, node: NodeRef, c: NodeRef) -> bool {
        node.0 < c.0 < self.cst.nodes@.len()
    }

    /// The first expression child of `node` in the byte bounds, if any.
    pub open spec fn expr_after(self, node: NodeRef, after: Option<usize>, until: Option<usize>) -> Option<NodeRef> {
        self.first_passing(self.spec_children(node), NodeTest::Expression(after, until))
    }

    /// The number of expression children of `node`.
    pub open spec fn expression_count(self, node: NodeRef) -> int {
        self.all_passing(self.spec_children(node), NodeTest::Expression(None, None)).len() as int
    }

    /// A bytes literal token's body decodes.
    pub open spec fn bytes_ok(self, node: NodeRef) -> bool {
        let t = self.spec_text_bytes(node);
        let skip: int = if t.len() > 0 && t[0] == 98u8 { 1 } else { 0 };
        t.len() >= skip + 2 && decode_body(t.subrange(skip + 1, t.len() - 1)) is Ok
    }

    /// The text of an indexed placeholder `_k` gives an index that fits.
    pub open spec fn index_ok(self, node: NodeRef) -> bool {
        let t = self.spec_text_bytes(node);
        t.len() > 1 && all_digits(t.subrange(1, t.len() as int)) && decimal_value(t.subrange(1, t.len() as int))
            <= usize::MAX
    }

    /// The argument a section argument node stands for, with an arbitrary
    /// expression in place of a lowered one: only its kind and index matter.
    pub open spec fn argument_shape(self, node: NodeRef) -> CallArgument {
        match self.spec_first_token(node, Token::Placeholder) {
            Some(p) => CallArgument::Bare { location: self.spec_location(p) },
            None => match self.spec_first_token(node, Token::IndexedPlaceholder) {
                Some(p) => CallArgument::Indexed {
                    index: decimal_value(self.spec_text_bytes(p).subrange(1, self.spec_text_bytes(p).len() as int)) as usize,
                    location: self.spec_location(p),
                },
                None => CallArgument::Expression(vstd::pervasive::arbitrary()),
            },
        }
    }

    /// The argument nodes of a call section.
    pub open spec fn section_argument_nodes(self, node: NodeRef) -> Seq<NodeRef> {
        match self.first_passing(self.spec_children(node), NodeTest::IsRule(Rule::SectionArguments)) {
            Some(a) => self.spec_rules_of(a, Rule::Argument),
            None => seq![],
        }
    }

    /// The interior children of `node`.
    pub open spec fn rule_kids(self, node: NodeRef) -> Seq<NodeRef> {
        self.all_passing(self.spec_children(node), NodeTest::AnyRule)
    }

    /// The children of `node` lower as expressions where they are ones.
    pub open spec fn expression_children_ok(self, node: NodeRef) -> bool
        decreases self.rank(node), 9int,
    {
        let cs = self.spec_children(node);
        node.0 < self.cst.nodes@.len() && forall|k: int|
            0 <= k < cs.len() && spec_is_expression(self.cst.nodes@[cs[k].0 as int].kind) && self.below(node, cs[k])
                ==> self.expr_ok(#[trigger] cs[k])
    }

    /// A decorator has a path with a name, and its arguments, if any, lower.
    pub open spec fn decorator_ok(self, node: NodeRef) -> bool
        decreases self.rank(node), 8int,
    {
        let cs = self.spec_children(node);
        node.0 < self.cst.nodes@.len() && match self.first_passing(cs, NodeTest::IsRule(Rule::DecoratorPath)) {
            None => false,
            Some(p) => self.all_passing(self.spec_children(p), NodeTest::IsToken(Token::Identifier)).len() > 0
                && match self.first_passing(cs, NodeTest::IsRule(Rule::Arguments)) {
                None => true,
                Some(a) => self.below(node, a) && self.expression_children_ok(a),
            },
        }
    }

    /// The argument of a call section lowered from `an`: a placeholder at
    /// its token, or the lowering of its expression.
    pub open spec fn section_argument_shape(self, an: NodeRef, a: CallArgument) -> bool
        decreases self.rank(an), 4int,
    {
        match a {
            CallArgument::Expression(x) => self.argument_shape(an) is Expression && (self.expr_after(an, None, None)
                matches Some(en) && self.below(an, en) && self.lowered_shape(en, x)),
            _ => a == self.argument_shape(an),
        }
    }

    /// The closure a call section `node` elaborates to: one parameter per
    /// `_` in order, or `_0` up to the largest index, and a body at the
    /// section calling the lowered callee with each argument: the lowering
    /// of an expression argument, or the parameter a placeholder reads.
    pub open spec fn section_shape(self, node: NodeRef, e: Expr) -> bool
        decreases self.rank(node), 2int,
    {
        let an = self.section_argument_nodes(node);
        let shapes = an.map_values(|a: NodeRef| self.argument_shape(a));
        &&& self.expr_after(node, None, None) matches Some(cn)
        &&& self.below(node, cn)
        &&& e.location == self.spec_location(node)
        &&& e.value matches ExprKind::Closure { parameters, body }
        &&& parameters@.len() == (if has_kind(shapes, 1) {
            bares_in(shapes) as int
        } else {
            max_index(shapes) + 1
        })
        &&& forall|j: int| 0 <= j < parameters@.len() ==> (#[trigger] parameters@[j]).value@ == placeholder_parameter_spec(j as usize)
            && parameters@[j].location == parameter_location(shapes, j)
        &&& body.location == self.spec_location(node)
        &&& body.value.bindings@.len() == 0
        &&& body.value.result.location == self.spec_location(node)
        &&& body.value.result.value matches ExprKind::Call { callee: c, arguments: la }
        &&& self.lowered_shape(cn, *c)
        &&& la@.len() == an.len()
        &&& forall|i: int| 0 <= i < la@.len() ==> self.below(node, an[i]) && if shapes[i] is Expression {
            self.section_argument_shape(an[i], CallArgument::Expression(#[trigger] la@[i]))
        } else {
            lowered_argument(shapes, i, la@[i])
        }
    }

    /// `ds` are the decorators lowered from the decorator nodes of `node`.
    pub open spec fn decorators_shape(self, node: NodeRef, ds: Seq<Decorator>) -> bool
        decreases self.rank(node), 10int,
    {
        &&& ds.len() == self.decorator_nodes(node).len()
        &&& forall|j: int| 0 <= j < ds.len() ==> self.below(node, self.decorator_nodes(node)[j]) && self.decorator_shape(
            self.decorator_nodes(node)[j],
            #[trigger] ds[j],
        )
    }

    /// `v` is the lowering of the value node after the `=` or `:` at `sep`
    /// of `node`, wrapped in the decorators of `node` for a target of
    /// `kind` named `name` at the node.
    pub open spec fn decorated_value(self, node: NodeRef, sep: NodeRef, kind: Seq<char>, name: Identifier, v: Expr) -> bool
        decreases self.rank(node), 11int,
    {
        &&& self.expr_after(node, Some(self.spec_start(sep)), None) matches Some(x)
        &&& self.below(node, x)
        &&& self.lowered_shape(x, layer(v, self.decorator_nodes(node).len()))
        &&& self.decorations(node, kind, name, self.spec_location(node), v)
    }

    /// The Dict field lowered from `f`: at the node, named by its key (an
    /// identifier, or the text of a plain string literal), with its
    /// decorators, and the lowering of the value after its `:` wrapped in
    /// those decorators for a `Field` target.
    pub open spec fn field_shape(self, f: NodeRef, df: DictField) -> bool
        decreases self.rank(f), 12int,
    {
        &&& df.location == self.spec_location(f)
        &&& self.first_passing(self.spec_children(f), NodeTest::Key) matches Some(key) && if self.cst.nodes@[key.0 as int].kind
            == NodeKind::Rule(Rule::StringLiteral) {
            df.value.name.location == self.spec_location(key) && self.spec_components(self.spec_pieces(key))
                == Ok::<Seq<char>, (Seq<char>, NodeRef)>(df.value.name.value@)
        } else {
            self.names_of(seq![df.value.name], seq![key])
        }
        &&& self.decorators_shape(f, df.value.decorators@)
        &&& self.spec_first_token(f, Token::Colon) matches Some(c) && self.decorated_value(f, c, "Field"@, df.value.name, df.value.value)
    }

    /// The decorator nodes among the interior children of `node`, in order.
    pub open spec fn decorator_nodes(self, node: NodeRef) -> Seq<NodeRef> {
        self.all_passing(self.rule_kids(node), NodeTest::IsRule(Rule::Decorator))
    }

    /// The name tokens of a decorator's path.
    pub open spec fn path_names(self, dn: NodeRef) -> Seq<NodeRef> {
        match self.first_passing(self.spec_children(dn), NodeTest::IsRule(Rule::DecoratorPath)) {
            Some(p) => self.all_passing(self.spec_children(p), NodeTest::IsToken(Token::Identifier)),
            None => seq![],
        }
    }

    /// The callee a decorator path `a.b.c` names: a variable for its first
    /// name, then a field access for each further name, each spanning from
    /// the first name to its own.
    pub open spec fn path_shape(self, ids: Seq<NodeRef>, e: Expr) -> bool
        decreases ids.len(),
    {
        if ids.len() == 0 {
            false
        } else if ids.len() == 1 {
            &&& e.location == self.spec_location(ids[0])
            &&& e.value matches ExprKind::Variable(n) && self.names_of(seq![n], seq![ids[0]])
        } else {
            &&& e.value matches ExprKind::Field { receiver, field }
            &&& self.names_of(seq![field], seq![ids.last()])
            &&& self.path_shape(ids.drop_last(), *receiver)
            &&& e.location == joined(receiver.location, field.location)
        }
    }

    /// `args` are the lowerings of the expression children of the argument
    /// list `a` of decorator `dn`, in order.
    pub open spec fn arguments_shape(self, dn: NodeRef, a: NodeRef, args: Seq<Expr>) -> bool
        decreases self.rank(dn), 8int,
    {
        &&& args.len() == self.expr_nodes(a).len()
        &&& forall|j: int| 0 <= j < args.len() ==> self.below(dn, self.expr_nodes(a)[j]) && self.lowered_shape(
            self.expr_nodes(a)[j],
            #[trigger] args[j],
        )
    }

    /// The decorator lowered from `dn`: at the node, calling the callee its
    /// path names, configured exactly when it has an argument list, with
    /// the lowerings of those arguments.
    pub open spec fn decorator_shape(self, dn: NodeRef, d: Decorator) -> bool
        decreases self.rank(dn), 9int,
    {
        let args = self.first_passing(self.spec_children(dn), NodeTest::IsRule(Rule::Arguments));
        &&& d.location == self.spec_location(dn)
        &&& self.path_shape(self.path_names(dn), d.value.callee)
        &&& d.value.configured == args is Some
        &&& match args {
            Some(a) => self.arguments_shape(dn, a, d.value.arguments@),
            None => d.value.arguments@.len() == 0,
        }
    }

    /// The function a decorator `dn` applies: its callee, called with its
    /// arguments at the decorator when it has an argument list.
    pub open spec fn decorator_call_shape(self, dn: NodeRef, c: Expr) -> bool
        decreases self.rank(dn), 9int,
    {
        match self.first_passing(self.spec_children(dn), NodeTest::IsRule(Rule::Arguments)) {
            None => self.path_shape(self.path_names(dn), c),
            Some(a) => {
                &&& c.location == self.spec_location(dn)
                &&& c.value matches ExprKind::Call { callee, arguments }
                &&& self.path_shape(self.path_names(dn), *callee)
                &&& self.arguments_shape(dn, a, arguments@)
            },
        }
    }

    /// `r` wraps a value in the decorators of `node`, the first outermost:
    /// layer `j` calls what decorator `j` applies, at that decorator, with
    /// the context of the target and layer `j + 1`.
    pub open spec fn decorations(self, node: NodeRef, kind: Seq<char>, name: Identifier, target: Location, r: Expr) -> bool
        decreases self.rank(node), 10int,
    {
        let dn = self.decorator_nodes(node);
        forall|j: int|
            0 <= j < dn.len() ==> self.below(node, dn[j]) && (#[trigger] layer(r, j as nat)).location == self.spec_location(dn[j])
                && (layer(r, j as nat).value matches ExprKind::Call { callee, arguments } && arguments@.len() == 2
                && context_shape(arguments@[0], kind, name, target) && self.decorator_call_shape(dn[j], *callee))
    }

    /// Every decorator among the interior children of `node` lowers.
    pub open spec fn decorators_ok(self, node: NodeRef) -> bool
        decreases self.rank(node), 8int,
    {
        let rules = self.rule_kids(node);
        node.0 < self.cst.nodes@.len() && forall|k: int|
            0 <= k < rules.len() && self.passes(rules[k], NodeTest::IsRule(Rule::Decorator)) && self.below(
                node,
                rules[k],
            ) ==> self.decorator_ok(#[trigger] rules[k])
    }

    /// A binding node lowers: it has a name, and the parts its kind needs
    /// lower.
    pub open spec fn binding_ok(self, node: NodeRef) -> bool
        decreases self.rank(node), 9int,
    {
        if node.0 >= self.cst.nodes@.len() || self.spec_first_token(node, Token::Identifier) is None {
            false
        } else {
            let cs = self.spec_children(node);
            match self.cst.nodes@[node.0 as int].kind {
                NodeKind::Token(_) => false,
                NodeKind::Rule(r) => if r == Rule::LetBinding {
                    match self.spec_first_token(node, Token::Equal) {
                        None => false,
                        Some(eq) => match self.expr_after(node, Some(self.spec_start(eq)), None) {
                            None => false,
                            Some(v) => {
                                &&& match self.spec_first_token(node, Token::Colon) {
                                    Some(c) => match self.expr_after(node, Some(self.spec_start(c)), Some(self.spec_start(eq))) {
                                        Some(a) => self.below(node, a) && self.expr_ok(a),
                                        None => true,
                                    },
                                    None => true,
                                }
                                &&& self.below(node, v)
                                &&& self.expr_ok(v)
                            },
                        },
                    }
                } else if r == Rule::DeclBinding || r == Rule::NativeBinding {
                    match self.first_passing(cs, NodeTest::IsRule(Rule::TypeScheme)) {
                        None => false,
                        Some(sch) => match self.first_passing(self.rule_kids(sch), NodeTest::Contract) {
                            None => false,
                            Some(c) => self.contract_ok(c),
                        },
                    }
                } else if r == Rule::DefBinding {
                    match self.spec_first_token(node, Token::Equal) {
                        None => false,
                        Some(eq) => {
                            &&& match self.first_passing(cs, NodeTest::IsRule(Rule::TypeScheme)) {
                                Some(sch) => match self.first_passing(self.rule_kids(sch), NodeTest::Contract) {
                                    None => false,
                                    Some(c) => self.contract_ok(c),
                                },
                                None => true,
                            }
                            &&& match self.expr_after(node, Some(self.spec_start(eq)), None) {
                                None => false,
                                Some(v) => self.below(node, v) && self.expr_ok(v),
                            }
                        },
                    }
                } else if r == Rule::TypeBinding {
                    &&& self.decorators_ok(node)
                    &&& match self.spec_first_token(node, Token::Equal) {
                        None => false,
                        Some(eq) => match self.expr_after(node, Some(self.spec_start(eq)), None) {
                            None => false,
                            Some(v) => self.below(node, v) && self.expr_ok(v),
                        },
                    }
                } else if r == Rule::ImportBinding {
                    match self.first_passing(cs, NodeTest::IsRule(Rule::StringLiteral)) {
                        Some(l) => self.plain_ok(l),
                        None => false,
                    }
                } else {
                    false
                },
            }
        }
    }

    /// The body node of a block node, or the node itself for a body.
    pub open spec fn block_body_node(self, node: NodeRef) -> Option<NodeRef> {
        if self.cst.nodes@[node.0 as int].kind == NodeKind::Rule(Rule::Block) {
            self.first_passing(self.spec_children(node), NodeTest::IsRule(Rule::Body))
        } else {
            Some(node)
        }
    }

    /// A block lowers: it has a body whose bindings and expressions lower,
    /// with no error node, and with an expression for its result.
    pub open spec fn block_ok(self, node: NodeRef) -> bool
        decreases self.rank(node), 9int,
    {
        if node.0 >= self.cst.nodes@.len() {
            false
        } else {
            match self.block_body_node(node) {
                None => false,
                Some(b) => {
                    let bc = self.spec_children(b);
                    &&& node.0 <= b.0 < self.cst.nodes@.len()
                    &&& forall|k: int| 0 <= k < bc.len() && self.below(b, bc[k]) ==> {
                        &&& self.cst.nodes@[bc[k].0 as int].kind != NodeKind::Rule(Rule::Error)
                        &&& is_binding_rule(self.cst.nodes@[bc[k].0 as int].kind) ==> self.binding_ok(#[trigger] bc[k])
                        &&& spec_is_expression(self.cst.nodes@[bc[k].0 as int].kind) ==> self.expr_ok(bc[k])
                    }
                    &&& exists|k: int| 0 <= k < bc.len() && spec_is_expression(self.cst.nodes@[(#[trigger] bc[k]).0 as int].kind)
                },
            }
        }
    }

    /// A field of a Dict lowers: it has a key (a plain string, if a
    /// literal), a colon and a value after it, and its decorators lower.
    pub open spec fn field_ok(self, f: NodeRef) -> bool
        decreases self.rank(f), 9int,
    {
        let cs = self.spec_children(f);
        f.0 < self.cst.nodes@.len() && match self.first_passing(cs, NodeTest::Key) {
            None => false,
            Some(key) => {
                &&& self.cst.nodes@[key.0 as int].kind == NodeKind::Rule(Rule::StringLiteral) ==> self.plain_ok(key)
                &&& match self.spec_first_token(f, Token::Colon) {
                    None => false,
                    Some(c) => match self.expr_after(f, Some(self.spec_start(c)), None) {
                        None => false,
                        Some(v) => self.decorators_ok(f) && self.below(f, v) && self.expr_ok(v),
                    },
                }
            },
        }
    }

    /// Every field of a Dict node lowers.
    pub open spec fn dict_fields_ok(self, node: NodeRef) -> bool
        decreases self.rank(node), 9int,
    {
        let fs = self.spec_rules_of(node, Rule::DictField);
        node.0 < self.cst.nodes@.len() && forall|k: int| 0 <= k < fs.len() && self.below(node, fs[k]) ==> self.field_ok(#[trigger] fs[k])
    }

    /// A match arm lowers: a `=>`, a pattern before it and a value after it.
    pub open spec fn match_arm_ok(self, node: NodeRef) -> bool
        decreases self.rank(node), 9int,
    {
        let cs = self.spec_children(node);
        node.0 < self.cst.nodes@.len() && match self.spec_first_token(node, Token::FatArrow) {
            None => false,
            Some(arrow) => match self.first_passing(cs, NodeTest::PatternBefore(self.spec_start(arrow))) {
                None => false,
                Some(p) => match self.expr_after(node, Some(self.spec_start(arrow)), None) {
                    None => false,
                    Some(v) => self.pattern_ok(p) && self.below(node, v) && self.expr_ok(v),
                },
            },
        }
    }

    /// A call section argument lowers: a placeholder, an index that fits,
    /// or an expression.
    pub open spec fn call_argument_ok(self, node: NodeRef) -> bool
        decreases self.rank(node), 9int,
    {
        node.0 < self.cst.nodes@.len() && match self.spec_first_token(node, Token::Placeholder) {
            Some(_) => true,
            None => match self.spec_first_token(node, Token::IndexedPlaceholder) {
                Some(p) => self.index_ok(p),
                None => match self.expr_after(node, None, None) {
                    Some(e) => self.below(node, e) && self.expr_ok(e),
                    None => false,
                },
            },
        }
    }

    /// A call section lowers: its callee and arguments lower and the
    /// placeholders elaborate.
    pub open spec fn section_ok(self, node: NodeRef) -> bool
        decreases self.rank(node), 9int,
    {
        let args = self.section_argument_nodes(node);
        &&& node.0 < self.cst.nodes@.len()
        &&& match self.expr_after(node, None, None) {
            Some(c) => self.below(node, c) && self.expr_ok(c),
            None => false,
        }
        &&& self.first_passing(self.spec_children(node), NodeTest::IsRule(Rule::SectionArguments)) is Some
        &&& forall|k: int| 0 <= k < args.len() && self.below(node, args[k]) ==> self.call_argument_ok(#[trigger] args[k])
        &&& section_failure(args.map_values(|a: NodeRef| self.argument_shape(a))) is None
    }

    /// A string expression lowers: a literal whose interpolations have
    /// expressions that lower and whose other pieces decode.
    pub open spec fn string_expr_ok(self, node: NodeRef) -> bool
        decreases self.rank(node), 9int,
    {
        node.0 < self.cst.nodes@.len() && match self.first_passing(self.spec_children(node), NodeTest::IsRule(Rule::StringLiteral)) {
            None => false,
            Some(l) => {
                let ps = self.spec_pieces(l);
                if self.first_passing(ps, NodeTest::IsRule(Rule::Interpolation)) is None {
                    self.spec_components(ps) is Ok
                } else {
                    forall|k: int| 0 <= k < ps.len() ==> if self.passes(#[trigger] ps[k], NodeTest::IsRule(Rule::Interpolation)) {
                        match self.expr_after(ps[k], None, None) {
                            Some(e) => self.below(node, e) && self.expr_ok(e),
                            None => false,
                        }
                    } else {
                        self.spec_component(ps[k]) is Ok
                    }
                }
            },
        }
    }

    /// An expression node lowers, as [`Lowerer::expression`] decides rule by
    /// rule.
    pub open spec fn expr_ok(self, node: NodeRef) -> bool
        decreases self.rank(node), 10int,
    {
        if node.0 >= self.cst.nodes@.len() {
            false
        } else {
            let cs = self.spec_children(node);
            match self.cst.nodes@[node.0 as int].kind {
                NodeKind::Token(t) => if t == Token::Int {
                    self.int_ok(node)
                } else if t == Token::Bytes {
                    self.bytes_ok(node)
                } else {
                    t == Token::Float || t == Token::Atom || t == Token::Identifier
                },
                NodeKind::Rule(r) => if r == Rule::IntExpr {
                    match self.spec_first_token(node, Token::Int) {
                        Some(l) => self.int_ok(l),
                        None => false,
                    }
                } else if r == Rule::BytesExpr {
                    match self.spec_first_token(node, Token::Bytes) {
                        Some(l) => self.bytes_ok(l),
                        None => false,
                    }
                } else if r == Rule::FloatExpr {
                    self.spec_first_token(node, Token::Float) is Some
                } else if r == Rule::AtomExpr {
                    self.spec_first_token(node, Token::Atom) is Some
                } else if r == Rule::VariableExpr {
                    self.spec_first_token(node, Token::Identifier) is Some
                } else if r == Rule::StringExpr {
                    self.string_expr_ok(node)
                } else if r == Rule::FunctionContract {
                    self.contract_ok(node)
                } else if r == Rule::ArrayExpr || r == Rule::ParenExpr {
                    self.expression_children_ok(node)
                } else if r == Rule::DictExpr {
                    self.dict_fields_ok(node)
                } else if r == Rule::Block {
                    self.block_ok(node)
                } else if r == Rule::Closure {
                    &&& self.first_passing(cs, NodeTest::IsRule(Rule::Parameters)) is Some
                    &&& match self.first_passing(cs, NodeTest::IsRule(Rule::Block)) {
                        Some(b) => self.below(node, b) && self.block_ok(b),
                        None => false,
                    }
                } else if r == Rule::UnaryExpr {
                    &&& self.spec_first_token(node, Token::Minus) is Some
                    &&& match self.expr_after(node, None, None) {
                        Some(o) => self.below(node, o) && self.expr_ok(o),
                        None => false,
                    }
                } else if r == Rule::BinaryExpr {
                    &&& !(self.spec_has_comparison(node) && exists|k: int|
                        0 <= k < self.spec_rules_of(node, Rule::BinaryExpr).len()
                            && self.spec_has_comparison(#[trigger] self.spec_rules_of(node, Rule::BinaryExpr)[k]))
                    &&& self.expression_children_ok(node)
                    &&& self.expression_count(node) >= 2
                    &&& (self.spec_first_token(node, Token::Plus) is Some || self.spec_first_token(node, Token::Minus)
                        is Some || self.spec_first_token(node, Token::Star) is Some || self.spec_first_token(
                        node,
                        Token::Slash,
                    ) is Some || self.spec_first_token(node, Token::Less) is Some || self.spec_first_token(
                        node,
                        Token::EqualEqual,
                    ) is Some)
                } else if r == Rule::FieldExpr {
                    &&& match self.expr_after(node, None, None) {
                        Some(o) => self.below(node, o) && self.expr_ok(o),
                        None => false,
                    }
                    &&& self.all_passing(cs, NodeTest::IsToken(Token::Identifier)).len() > 0
                } else if r == Rule::CallExpr {
                    &&& match self.expr_after(node, None, None) {
                        Some(c) => self.below(node, c) && self.expr_ok(c),
                        None => false,
                    }
                    &&& match self.first_passing(cs, NodeTest::IsRule(Rule::Arguments)) {
                        Some(a) => self.below(node, a) && self.expression_children_ok(a),
                        None => true,
                    }
                } else if r == Rule::SectionExpr {
                    self.section_ok(node)
                } else if r == Rule::PipelineExpr {
                    self.expression_children_ok(node) && self.expression_count(node) >= 2
                } else if r == Rule::IfExpr {
                    &&& match self.expr_after(node, None, None) {
                        Some(c) => self.below(node, c) && self.expr_ok(c),
                        None => false,
                    }
                    &&& self.spec_rules_of(node, Rule::Block).len() >= 2
                    &&& self.below(node, self.spec_rules_of(node, Rule::Block)[0])
                    &&& self.block_ok(self.spec_rules_of(node, Rule::Block)[0])
                    &&& self.below(node, self.spec_rules_of(node, Rule::Block)[1])
                    &&& self.block_ok(self.spec_rules_of(node, Rule::Block)[1])
                } else if r == Rule::MatchExpr {
                    &&& match self.expr_after(node, None, None) {
                        Some(v) => self.below(node, v) && self.expr_ok(v),
                        None => false,
                    }
                    &&& forall|k: int|
                        0 <= k < self.spec_rules_of(node, Rule::MatchArm).len() && self.below(
                            node,
                            self.spec_rules_of(node, Rule::MatchArm)[k],
                        ) ==> self.match_arm_ok(#[trigger] self.spec_rules_of(node, Rule::MatchArm)[k])
                } else {
                    false
                },
            }
        }
    }

    /// What a string piece decodes to, or the message of its error.
    pub open spec fn spec_component(self, node: NodeRef) -> Result<Seq<char>, Seq<char>> {
        let t = self.spec_text_bytes(node);
        if self.passes(node, NodeTest::IsToken(Token::StringText)) {
            Ok(vstd::utf8::decode_utf8(t))
        } else if self.passes(node, NodeTest::IsToken(Token::EscapeSequence)) {
            if t.len() < 2 {
                Err("unsupported escape"@)
            } else {
                match spec_escape(t[1]) {
                    Some(b) => Ok(seq![b as char]),
                    None => Err(escape_text(EscapeError::Unsupported(t[1]))),
                }
            }
        } else {
            Err("expected string text or escape"@)
        }
    }

    /// An escape sequence `\c` of a string decodes to the one character
    /// that is written `\c`: a tab for `\t`, a newline for `\n`, a carriage
    /// return for `\r`, a quote for `\"` and a backslash for `\\`.
    pub proof fn law_escape_sequences(self, node: NodeRef)
        requires
            self.passes(node, NodeTest::IsToken(Token::EscapeSequence)),
            self.spec_component(node) is Ok,
        ensures
            self.spec_component(node)->Ok_0.len() == 1,
            literal_byte(self.spec_component(node)->Ok_0[0] as u8) == seq![92u8, self.spec_text_bytes(node)[1]],
    {
        assert(('\t' as u8) == 9u8 && ('\n' as u8) == 10u8 && ('\r' as u8) == 13u8 && ('"' as u8) == 34u8
            && ('\\' as u8) == 92u8 && ('t' as u8) == 116u8 && ('n' as u8) == 110u8 && ('r' as u8) == 114u8);
        let t = self.spec_text_bytes(node);
        let b = spec_escape(t[1])->Some_0;
        assert(self.spec_component(node)->Ok_0 == seq![b as char]);
        assert((b as char) as u8 == b);
    }

    /// The pieces decoded and concatenated, or the first failure: its
    /// message and piece.
    pub open spec fn spec_components(self, cs: Seq<NodeRef>) -> Result<Seq<char>, (Seq<char>, NodeRef)>
        decreases cs.len(),
    {
        if cs.len() == 0 {
            Ok(seq![])
        } else {
            match self.spec_component(cs[0]) {
                Err(m) => Err((m, cs[0])),
                Ok(c) => match self.spec_components(cs.subrange(1, cs.len() as int)) {
                    Ok(rest) => Ok(c + rest),
                    Err(e) => Err(e),
                },
            }
        }
    }

    /// The identifier tokens of the type parameters of a type scheme.
    pub open spec fn spec_type_parameter_nodes(self, scheme: Option<NodeRef>) -> Seq<NodeRef> {
        match scheme {
            None => seq![],
            Some(s) => match self.first_passing(self.spec_children(s), NodeTest::IsRule(Rule::TypeParameters)) {
                None => seq![],
                Some(p) => self.all_passing(self.spec_children(p), NodeTest::IsToken(Token::Identifier)),
            },
        }
    }

    /// Skipping a prefix none of which passes leaves the first passing one.
    pub proof fn lemma_first_passing_skip(self, cs: Seq<NodeRef>, test: NodeTest, i: int)
        requires
            0 <= i <= cs.len(),
            forall|k: int| 0 <= k < i ==> !self.passes(#[trigger] cs[k], test),
        ensures
            self.first_passing(cs, test) == self.first_passing(cs.subrange(i, cs.len() as int), test),
        decreases i,
    {
        if i > 0 {
            let rest = cs.subrange(1, cs.len() as int);
            assert forall|k: int| 0 <= k < i - 1 implies !self.passes(#[trigger] rest[k], test) by {
                assert(rest[k] == cs[k + 1]);
            }
            self.lemma_first_passing_skip(rest, test, i - 1);
            assert(rest.subrange(i - 1, rest.len() as int) =~= cs.subrange(i, cs.len() as int));
        } else {
            assert(cs.subrange(0, cs.len() as int) =~= cs);
        }
    }

    /// The filter of a prefix one longer adds its last element if it passes.
    /// What passes a test among nodes after `node` is after `node` too.
    pub proof fn lemma_all_passing_below(self, node: NodeRef, cs: Seq<NodeRef>, test: NodeTest)
        requires
            forall|k: int| 0 <= k < cs.len() ==> self.below(node, #[trigger] cs[k]),
        ensures
            forall|k: int| 0 <= k < self.all_passing(cs, test).len() ==> self.below(node, #[trigger] self.all_passing(cs, test)[k]),
        decreases cs.len(),
    {
        if cs.len() > 0 {
            let rest = cs.subrange(1, cs.len() as int);
            assert forall|k: int| 0 <= k < rest.len() implies self.below(node, #[trigger] rest[k]) by {
                assert(rest[k] == cs[k + 1]);
            }
            self.lemma_all_passing_below(node, rest, test);
            let head: Seq<NodeRef> = if self.passes(cs[0], test) { seq![cs[0]] } else { seq![] };
            assert(self.all_passing(cs, test) == head + self.all_passing(rest, test));
            assert forall|k: int| 0 <= k < self.all_passing(cs, test).len() implies self.below(node, #[trigger] self.all_passing(cs, test)[k]) by {
                if k < head.len() {
                    assert(self.all_passing(cs, test)[k] == cs[0]);
                } else {
                    assert(self.all_passing(cs, test)[k] == self.all_passing(rest, test)[k - head.len()]);
                }
            }
        }
    }

    pub proof fn lemma_all_passing_push(self, cs: Seq<NodeRef>, test: NodeTest, i: int)
        requires
            0 <= i < cs.len(),
        ensures
            self.all_passing(cs.subrange(0, i + 1), test) == self.all_passing(cs.subrange(0, i), test) + (
            if self.passes(cs[i], test) {
                seq![cs[i]]
            } else {
                seq![]
            }),
        decreases i,
    {
        let a = cs.subrange(0, i + 1);
        let b = cs.subrange(0, i);
        if i == 0 {
            assert(a.subrange(1, a.len() as int) =~= Seq::<NodeRef>::empty());
            assert(b =~= Seq::<NodeRef>::empty());
            assert(self.all_passing(a.subrange(1, a.len() as int), test) =~= Seq::<NodeRef>::empty());
            assert(self.all_passing(a, test) =~= self.all_passing(b, test) + (if self.passes(cs[i], test) {
                seq![cs[i]]
            } else {
                seq![]
            }));
        } else {
            let rest = cs.subrange(1, cs.len() as int);
            self.lemma_all_passing_push(rest, test, i - 1);
            assert(a.subrange(1, a.len() as int) =~= rest.subrange(0, i));
            assert(b.subrange(1, b.len() as int) =~= rest.subrange(0, i - 1));
            assert(a[0] == cs[0] && b[0] == cs[0]);
            assert(rest[i - 1] == cs[i]);
            let h: Seq<NodeRef> = if self.passes(cs[0], test) {
                seq![cs[0]]
            } else {
                seq![]
            };
            let t: Seq<NodeRef> = if self.passes(cs[i], test) {
                seq![cs[i]]
            } else {
                seq![]
            };
            assert(self.all_passing(a, test) == h + self.all_passing(rest.subrange(0, i), test));
            assert(self.all_passing(b, test) == h + self.all_passing(rest.subrange(0, i - 1), test));
            assert(self.all_passing(a, test) =~= self.all_passing(b, test) + t);
        }
    }

    /// Where some element passes, there is a first passing one.
    pub proof fn lemma_first_passing_some(self, cs: Seq<NodeRef>, test: NodeTest, i: int)
        requires
            0 <= i < cs.len(),
            self.passes(cs[i], test),
        ensures
            self.first_passing(cs, test) is Some,
        decreases i,
    {
        if i > 0 && !self.passes(cs[0], test) {
            let rest = cs.subrange(1, cs.len() as int);
            assert(rest[i - 1] == cs[i]);
            self.lemma_first_passing_some(rest, test, i - 1);
        }
    }

    /// The first passing element heads the filter.
    pub proof fn lemma_first_is_head(self, cs: Seq<NodeRef>, test: NodeTest)
        ensures
            self.first_passing(cs, test) == (if self.all_passing(cs, test).len() > 0 {
                Some(self.all_passing(cs, test)[0])
            } else {
                None
            }),
        decreases cs.len(),
    {
        if cs.len() > 0 {
            self.lemma_first_is_head(cs.subrange(1, cs.len() as int), test);
        }
    }
}

// ---------------------------------------------------------------------------
// The lowering.

/// Lowers the concrete syntax tree of one registered source.
pub struct Lowerer<'a> {
    pub source_id: SourceId,
    pub src: &'a str,
    pub cst: &'a CstData,
}

impl<'a> Lowerer<'a> {
    /// The tree's spans lie in the source, which fits the location model.
    pub open spec fn wf(self) -> bool {
        &&& self.src.spec_bytes().len() <= u32::MAX
        &&& forall|q: int|
            0 <= q < self.cst.nodes@.len() ==> (#[trigger] self.cst.nodes@[q]).start
                <= self.cst.nodes@[q].end <= self.src.spec_bytes().len()
    }

    /// `node` is a node of the tree.
    pub open spec fn has(self, node: NodeRef) -> bool {
        node.0 < self.cst.nodes@.len()
    }

    /// The location of `node` in the source.
    pub open spec fn spec_location(self, node: NodeRef) -> Location {
        Location {
            source: self.source_id,
            range: TextRange {
                start: self.cst.nodes@[node.0 as int].start as u32,
                end: self.cst.nodes@[node.0 as int].end as u32,
            },
        }
    }

    /// The source bytes of `node`, or none when its span does not fall on
    /// character boundaries.
    pub open spec fn spec_text_bytes(self, node: NodeRef) -> Seq<u8> {
        let n = self.cst.nodes@[node.0 as int];
        if starts_char(self.src.spec_bytes(), n.start as int) && starts_char(self.src.spec_bytes(), n.end as int) {
            self.src.spec_bytes().subrange(n.start as int, n.end as int)
        } else {
            seq![]
        }
    }

    /// The measure of recursion over the tree: later nodes are smaller.
    pub open spec fn rank(self, node: NodeRef) -> int {
        self.cst.nodes@.len() - node.0
    }

    pub fn location(&self, node: NodeRef) -> (l: Location)
        requires
            self.wf(),
            self.has(node),
        ensures
            l == self.spec_location(node),
    {
        let n = self.cst.nodes[node.0];
        Location::new(self.source_id, TextRange { start: n.start as u32, end: n.end as u32 })
    }

    /// An error at `node`.
    pub fn error(&self, node: NodeRef, message: &str) -> (d: Diagnostic)
        requires
            self.wf(),
            self.has(node),
        ensures
            d.message@ == message@,
            d.labels@.len() == 1,
            d.labels@[0].location == self.spec_location(node),
    {
        Diagnostic::error(String::from_str(message), self.location(node))
    }

    /// The source text of `node`.
    pub fn text(&self, node: NodeRef) -> (t: &'a str)
        requires
            self.wf(),
            self.has(node),
        ensures
            starts_char(self.src.spec_bytes(), self.cst.nodes@[node.0 as int].start as int)
                && starts_char(self.src.spec_bytes(), self.cst.nodes@[node.0 as int].end as int)
                ==> t.spec_bytes() == self.src.spec_bytes().subrange(
                self.cst.nodes@[node.0 as int].start as int,
                self.cst.nodes@[node.0 as int].end as int,
            ),
            t.spec_bytes() == self.spec_text_bytes(node),
    {
        proof {
            reveal_strlit("");
            assert(""@.len() == 0);
            vstd::utf8::encode_utf8_valid_utf8(""@);
        }
        let n = self.cst.nodes[node.0];
        let src: &'a str = self.src;
        let b = src.as_bytes();
        if char_starts_at(b, n.start) && char_starts_at(b, n.end) {
            str_slice(src, n.start, n.end)
        } else {
            ""
        }
    }

    /// The text of `node` as a located name.
    pub fn identifier(&self, node: NodeRef) -> (i: Identifier)
        requires
            self.wf(),
            self.has(node),
        ensures
            i.location == self.spec_location(node),
            i.value@ == vstd::utf8::decode_utf8(self.spec_text_bytes(node)),
    {
        let t = self.text(node);
        proof {
            vstd::utf8::encode_utf8_decode_utf8(t@);
        }
        located(String::from_str(t), self.location(node))
    }

    pub fn kind(&self, node: NodeRef) -> (k: NodeKind)
        requires
            self.has(node),
        ensures
            k == self.cst.nodes@[node.0 as int].kind,
    {
        self.cst.nodes[node.0].kind
    }

    pub fn rule(&self, node: NodeRef) -> (r: Option<Rule>)
        requires
            self.has(node),
        ensures
            match self.cst.nodes@[node.0 as int].kind {
                NodeKind::Rule(k) => r == Some(k),
                NodeKind::Token(_) => r is None,
            },
    {
        self.cst.rule(node)
    }

    /// `true` when `node` is a token leaf of kind `t`.
    pub fn is_token(&self, node: NodeRef, t: Token) -> (b: bool)
        requires
            self.has(node),
        ensures
            b == (self.cst.nodes@[node.0 as int].kind == NodeKind::Token(t)),
    {
        match self.cst.nodes[node.0].kind {
            NodeKind::Token(k) => k == t,
            NodeKind::Rule(_) => false,
        }
    }

    pub fn children(&self, node: NodeRef) -> (cs: Vec<NodeRef>)
        requires
            self.has(node),
        ensures
            cs@ == self.spec_children(node),
            forall|k: int| 0 <= k < cs@.len() ==> node.0 < (#[trigger] cs@[k]).0 < self.cst.nodes@.len(),
    {
        self.cst.children(node)
    }

    /// The children of `node` that are tokens of kind `t`, in order.
    pub fn token_children(&self, node: NodeRef, t: Token) -> (cs: Vec<NodeRef>)
        requires
            self.has(node),
        ensures
            cs@ == self.all_passing(self.spec_children(node), NodeTest::IsToken(t)),
            forall|k: int| 0 <= k < cs@.len() ==> node.0 < (#[trigger] cs@[k]).0 < self.cst.nodes@.len(),
    {
        let all = self.children(node);
        let mut out: Vec<NodeRef> = Vec::new();
        let mut i: usize = 0;
        proof {
            assert(all@.subrange(0, 0) =~= Seq::<NodeRef>::empty());
        }
        while i < all.len()
            invariant
                self.has(node),
                i <= all@.len(),
                all@ == self.spec_children(node),
                out@ == self.all_passing(all@.subrange(0, i as int), NodeTest::IsToken(t)),
                forall|k: int| 0 <= k < all@.len() ==> node.0 < (#[trigger] all@[k]).0 < self.cst.nodes@.len(),
                forall|k: int| 0 <= k < out@.len() ==> node.0 < (#[trigger] out@[k]).0 < self.cst.nodes@.len(),
            decreases all@.len() - i,
        {
            proof {
                self.lemma_all_passing_push(all@, NodeTest::IsToken(t), i as int);
            }
            if self.is_token(all[i], t) {
                out.push(all[i]);
            }
            proof {
                assert(out@ =~= self.all_passing(all@.subrange(0, i + 1), NodeTest::IsToken(t)));
            }
            i = i + 1;
        }
        proof {
            assert(all@.subrange(0, i as int) =~= all@);
        }
        out
    }

    /// The children of `node` that are interior nodes, in order.
    pub fn rule_children(&self, node: NodeRef) -> (cs: Vec<NodeRef>)
        requires
            self.has(node),
        ensures
            cs@ == self.all_passing(self.spec_children(node), NodeTest::AnyRule),
            forall|k: int| 0 <= k < cs@.len() ==> node.0 < (#[trigger] cs@[k]).0 < self.cst.nodes@.len(),
    {
        let all = self.children(node);
        let mut out: Vec<NodeRef> = Vec::new();
        let mut i: usize = 0;
        proof {
            assert(all@.subrange(0, 0) =~= Seq::<NodeRef>::empty());
        }
        while i < all.len()
            invariant
                self.has(node),
                i <= all@.len(),
                all@ == self.spec_children(node),
                out@ == self.all_passing(all@.subrange(0, i as int), NodeTest::AnyRule),
                forall|k: int| 0 <= k < all@.len() ==> node.0 < (#[trigger] all@[k]).0 < self.cst.nodes@.len(),
                forall|k: int| 0 <= k < out@.len() ==> node.0 < (#[trigger] out@[k]).0 < self.cst.nodes@.len(),
            decreases all@.len() - i,
        {
            proof {
                self.lemma_all_passing_push(all@, NodeTest::AnyRule, i as int);
            }
            if self.rule(all[i]).is_some() {
                out.push(all[i]);
            }
            proof {
                assert(out@ =~= self.all_passing(all@.subrange(0, i + 1), NodeTest::AnyRule));
            }
            i = i + 1;
        }
        proof {
            assert(all@.subrange(0, i as int) =~= all@);
        }
        out
    }

    /// The first child of `node` that is a token of kind `t`.
    pub fn first_token(&self, node: NodeRef, t: Token, missing: &str) -> (r: Result<NodeRef, Diagnostic>)
        requires
            self.wf(),
            self.has(node),
        ensures
            r is Ok ==> node.0 < r->Ok_0.0 < self.cst.nodes@.len() && self.cst.nodes@[r->Ok_0.0 as int].kind == NodeKind::Token(t),
            match self.spec_first_token(node, t) {
                Some(c) => r == Ok::<NodeRef, Diagnostic>(c),
                None => r is Err && r->Err_0.message@ == missing@ && r->Err_0.labels@.len() == 1
                    && r->Err_0.labels@[0].location == self.spec_location(node),
            },
    {
        let all = self.children(node);
        let mut i: usize = 0;
        while i < all.len()
            invariant
                self.has(node),
                i <= all@.len(),
                all@ == self.spec_children(node),
                forall|k: int| 0 <= k < i ==> !self.passes(#[trigger] all@[k], NodeTest::IsToken(t)),
                forall|k: int| 0 <= k < all@.len() ==> node.0 < (#[trigger] all@[k]).0 < self.cst.nodes@.len(),
            decreases all@.len() - i,
        {
            if self.is_token(all[i], t) {
                proof {
                    self.lemma_first_passing_skip(all@, NodeTest::IsToken(t), i as int);
                }
                return Ok(all[i]);
            }
            i = i + 1;
        }
        proof {
            self.lemma_first_passing_skip(all@, NodeTest::IsToken(t), i as int);
        }
        Err(self.error(node, missing))
    }

    /// The first interior child of `node`.
    pub fn first_rule(&self, node: NodeRef) -> (r: Option<NodeRef>)
        requires
            self.has(node),
        ensures
            r is Some ==> node.0 < r->Some_0.0 < self.cst.nodes@.len(),
            r == self.first_passing(self.spec_children(node), NodeTest::AnyRule),
    {
        proof {
            self.lemma_first_is_head(self.spec_children(node), NodeTest::AnyRule);
        }
        let rules = self.rule_children(node);
        if rules.len() > 0 {
            Some(rules[0])
        } else {
            None
        }
    }

    /// The first child of `node` of rule `r`.
    pub fn find_rule(&self, node: NodeRef, r: Rule) -> (found: Option<NodeRef>)
        requires
            self.has(node),
        ensures
            found is Some ==> node.0 < found->Some_0.0 < self.cst.nodes@.len() && self.cst.nodes@[found->Some_0.0 as int].kind == NodeKind::Rule(r),
            found == self.first_passing(self.spec_children(node), NodeTest::IsRule(r)),
    {
        let all = self.children(node);
        let mut i: usize = 0;
        while i < all.len()
            invariant
                self.has(node),
                i <= all@.len(),
                all@ == self.spec_children(node),
                forall|k: int| 0 <= k < i ==> !self.passes(#[trigger] all@[k], NodeTest::IsRule(r)),
                forall|k: int| 0 <= k < all@.len() ==> node.0 < (#[trigger] all@[k]).0 < self.cst.nodes@.len(),
            decreases all@.len() - i,
        {
            if self.rule(all[i]) == Some(r) {
                proof {
                    self.lemma_first_passing_skip(all@, NodeTest::IsRule(r), i as int);
                }
                return Some(all[i]);
            }
            i = i + 1;
        }
        proof {
            self.lemma_first_passing_skip(all@, NodeTest::IsRule(r), i as int);
        }
        None
    }

    /// Tokens and rules that stand for an expression.
    pub fn is_expression(&self, node: NodeRef) -> (b: bool)
        requires
            self.has(node),
        ensures
            b == spec_is_expression(self.cst.nodes@[node.0 as int].kind),
    {
        match self.cst.nodes[node.0].kind {
            NodeKind::Token(t) => t == Token::Int || t == Token::Float || t == Token::Bytes || t
                == Token::Atom || t == Token::Identifier,
            NodeKind::Rule(r) => r == Rule::ArrayExpr || r == Rule::AtomExpr || r
                == Rule::BinaryExpr || r == Rule::Block || r == Rule::BytesExpr || r
                == Rule::CallExpr || r == Rule::Closure || r == Rule::DictExpr || r
                == Rule::FieldExpr || r == Rule::FloatExpr || r == Rule::FunctionContract || r
                == Rule::IfExpr || r == Rule::IntExpr || r == Rule::MatchExpr || r
                == Rule::ParenExpr || r == Rule::PipelineExpr || r == Rule::SectionExpr || r
                == Rule::StringExpr || r == Rule::UnaryExpr || r == Rule::VariableExpr,
        }
    }

    /// Tokens and rules that stand for a pattern.
    pub fn is_pattern(&self, node: NodeRef) -> (b: bool)
        requires
            self.has(node),
        ensures
            b == spec_is_pattern(self.cst.nodes@[node.0 as int].kind),
    {
        match self.cst.nodes[node.0].kind {
            NodeKind::Token(t) => t == Token::Identifier || t == Token::Placeholder || t
                == Token::Int || t == Token::Float || t == Token::Atom,
            NodeKind::Rule(r) => r == Rule::AtomPattern || r == Rule::FloatPattern || r
                == Rule::IdentifierPattern || r == Rule::IntPattern || r == Rule::StringPattern
                || r == Rule::TaggedPattern || r == Rule::TuplePattern,
        }
    }

    /// The first expression child of `node` starting after byte `after`
    /// (or anywhere, when `after` is `None`) and ending by `until`.
    pub fn find_expression(&self, node: NodeRef, after: Option<usize>, until: Option<usize>) -> (r: Option<NodeRef>)
        requires
            self.has(node),
        ensures
            r is Some ==> node.0 < r->Some_0.0 < self.cst.nodes@.len(),
            r == self.first_passing(self.spec_children(node), NodeTest::Expression(after, until)),
    {
        let all = self.children(node);
        let mut i: usize = 0;
        while i < all.len()
            invariant
                self.has(node),
                i <= all@.len(),
                all@ == self.spec_children(node),
                forall|k: int| 0 <= k < i ==> !self.passes(#[trigger] all@[k], NodeTest::Expression(after, until)),
                forall|k: int| 0 <= k < all@.len() ==> node.0 < (#[trigger] all@[k]).0 < self.cst.nodes@.len(),
            decreases all@.len() - i,
        {
            let c = all[i];
            let n = self.cst.nodes[c.0];
            let after_ok = match after {
                Some(a) => n.start > a,
                None => true,
            };
            let until_ok = match until {
                Some(u) => n.end <= u,
                None => true,
            };
            if after_ok && until_ok && self.is_expression(c) {
                proof {
                    self.lemma_first_passing_skip(all@, NodeTest::Expression(after, until), i as int);
                }
                return Some(c);
            }
            i = i + 1;
        }
        proof {
            self.lemma_first_passing_skip(all@, NodeTest::Expression(after, until), i as int);
        }
        None
    }

    /// The byte where `node` starts.
    pub fn start(&self, node: NodeRef) -> (s: usize)
        requires
            self.has(node),
        ensures
            s == self.cst.nodes@[node.0 as int].start,
    {
        self.cst.nodes[node.0].start
    }
}

/// `true` when a character of `b` starts at `i` (or `i` is the end).
pub fn char_starts_at(b: &[u8], i: usize) -> (r: bool)
    ensures
        r == (i <= b@.len() && starts_char(b@, i as int)),
{
    if i > b.len() {
        false
    } else if i == b.len() {
        true
    } else {
        !(b[i] >= 0x80u8 && b[i] < 0xC0u8)
    }
}

impl<'a> Lowerer<'a> {
    /// A block from a `Block` node or a `Body` node: its bindings in order,
    /// and its last expression as the result.
    pub fn block_body(&self, node: NodeRef) -> (r: Result<Block, Diagnostic>)
        requires
            self.wf(),
            self.has(node),
        ensures
            r is Ok <==> self.block_ok(node),
            r is Ok ==> r->Ok_0.location == self.spec_location(node),
            r matches Ok(b) ==> self.block_shape(node, b),
        decreases self.rank(node), 9int,
    {
        let body = if self.rule(node) == Some(Rule::Block) {
            match self.find_rule(node, Rule::Body) {
                Some(b) => b,
                None => return Err(self.error(node, "block has no body")),
            }
        } else {
            node
        };
        let children = self.children(body);
        let mut bindings: Vec<Binding> = Vec::new();
        let mut result: Option<Expr> = None;
        let mut i: usize = 0;
        while i < children.len()
            invariant
                self.wf(),
                self.has(body),
                body.0 >= node.0,
                i <= children@.len(),
                children@ == self.spec_children(body),
                self.has(node),
                self.block_body_node(node) == Some(body),
                forall|k: int| 0 <= k < children@.len() ==> body.0 < (#[trigger] children@[k]).0 < self.cst.nodes@.len(),
                forall|k: int| 0 <= k < i ==> {
                    &&& self.cst.nodes@[children@[k].0 as int].kind != NodeKind::Rule(Rule::Error)
                    &&& is_binding_rule(self.cst.nodes@[children@[k].0 as int].kind) ==> self.binding_ok(#[trigger] children@[k])
                    &&& spec_is_expression(self.cst.nodes@[children@[k].0 as int].kind) ==> self.expr_ok(children@[k])
                },
                result is Some <==> exists|k: int| 0 <= k < i && spec_is_expression(self.cst.nodes@[(#[trigger] children@[k]).0 as int].kind),
                bindings@.len() == self.all_passing(children@.subrange(0, i as int), NodeTest::Binding).len(),
                forall|k: int| 0 <= k < bindings@.len() ==> self.binding_shape(
                    #[trigger] self.all_passing(children@.subrange(0, i as int), NodeTest::Binding)[k],
                    bindings@[k],
                ),
                result matches Some(e) ==> {
                    let xs = self.all_passing(children@.subrange(0, i as int), NodeTest::Expression(None, None));
                    xs.len() > 0 && e.location == self.expr_location(xs.last()) && self.below(node, xs.last())
                        && self.lowered_shape(xs.last(), e)
                },
                forall|k: int| 0 <= k < bindings@.len() ==> self.below(
                    node,
                    #[trigger] self.all_passing(children@.subrange(0, i as int), NodeTest::Binding)[k],
                ),
                result is None ==> self.all_passing(children@.subrange(0, i as int), NodeTest::Expression(None, None)).len() == 0,
            decreases children@.len() - i,
        {
            let child = children[i];
            proof {
                assert(children@[i as int] == child);
                self.lemma_all_passing_push(children@, NodeTest::Binding, i as int);
                self.lemma_all_passing_push(children@, NodeTest::Expression(None, None), i as int);
                let pb = self.all_passing(children@.subrange(0, i as int), NodeTest::Binding);
                let qb = self.all_passing(children@.subrange(0, i + 1), NodeTest::Binding);
                assert forall|k: int| 0 <= k < pb.len() implies qb[k] == pb[k] by {}
            }
            match self.rule(child) {
                Some(r) => {
                    if r == Rule::LetBinding || r == Rule::DeclBinding || r == Rule::DefBinding || r
                        == Rule::NativeBinding || r == Rule::TypeBinding || r == Rule::ImportBinding {
                        match self.binding(child) {
                            Ok(b) => bindings.push(b),
                            Err(e) => return Err(e),
                        }
                    } else if self.is_expression(child) {
                        match self.expression(child) {
                            Ok(e) => result = Some(e),
                            Err(e) => return Err(e),
                        }
                    } else if r == Rule::Error {
                        return Err(self.error(child, "invalid syntax"));
                    }
                },
                None => {
                    if self.is_expression(child) {
                        match self.expression(child) {
                            Ok(e) => result = Some(e),
                            Err(e) => return Err(e),
                        }
                    }
                },
            }
            i = i + 1;
        }
        proof {
            assert(children@.subrange(0, i as int) =~= children@);
        }
        match result {
            Some(e) => Ok(located(BlockKind { bindings, result: Box::new(e) }, self.location(node))),
            None => Err(self.error(body, "a block requires a result expression")),
        }
    }

    /// The identifiers of a `TypeParameters` node of a type scheme, if any.
    pub fn type_parameters(&self, scheme: Option<NodeRef>) -> (ps: Vec<Identifier>)
        requires
            self.wf(),
            scheme is Some ==> self.has(scheme->Some_0),
        ensures
            ps@.len() == self.spec_type_parameter_nodes(scheme).len(),
            forall|k: int| 0 <= k < ps@.len() ==> {
                let n = #[trigger] self.spec_type_parameter_nodes(scheme)[k];
                &&& ps@[k].location == self.spec_location(n)
                &&& ps@[k].value@ == vstd::utf8::decode_utf8(self.spec_text_bytes(n))
            },
    {
        match scheme {
            None => Vec::new(),
            Some(s) => match self.find_rule(s, Rule::TypeParameters) {
                None => Vec::new(),
                Some(params) => {
                    let names = self.token_children(params, Token::Identifier);
                    let mut out: Vec<Identifier> = Vec::new();
                    let mut i: usize = 0;
                    while i < names.len()
                        invariant
                            self.wf(),
                            i <= names@.len(),
                            names@ == self.spec_type_parameter_nodes(scheme),
                            out@.len() == i,
                            forall|k: int| 0 <= k < i ==> {
                                let n = #[trigger] names@[k];
                                &&& out@[k].location == self.spec_location(n)
                                &&& out@[k].value@ == vstd::utf8::decode_utf8(self.spec_text_bytes(n))
                            },
                            forall|k: int| 0 <= k < names@.len() ==> params.0 < (#[trigger] names@[k]).0 < self.cst.nodes@.len(),
                        decreases names@.len() - i,
                    {
                        out.push(self.identifier(names[i]));
                        i = i + 1;
                    }
                    out
                },
            },
        }
    }

    /// The contract child of a type scheme.
    pub fn scheme_contract(&self, scheme: NodeRef) -> (r: Option<NodeRef>)
        requires
            self.has(scheme),
        ensures
            r is Some ==> scheme.0 < r->Some_0.0 < self.cst.nodes@.len(),
            r == self.first_passing(self.all_passing(self.spec_children(scheme), NodeTest::AnyRule), NodeTest::Contract),
    {
        let rules = self.rule_children(scheme);
        let mut i: usize = 0;
        while i < rules.len()
            invariant
                self.has(scheme),
                i <= rules@.len(),
                rules@ == self.all_passing(self.spec_children(scheme), NodeTest::AnyRule),
                forall|k: int| 0 <= k < i ==> !self.passes(#[trigger] rules@[k], NodeTest::Contract),
                forall|k: int| 0 <= k < rules@.len() ==> scheme.0 < (#[trigger] rules@[k]).0 < self.cst.nodes@.len(),
            decreases rules@.len() - i,
        {
            let r = self.rule(rules[i]);
            if r == Some(Rule::ContractExpr) || r == Some(Rule::FunctionContract) {
                proof {
                    self.lemma_first_passing_skip(rules@, NodeTest::Contract, i as int);
                }
                return Some(rules[i]);
            }
            i = i + 1;
        }
        proof {
            self.lemma_first_passing_skip(rules@, NodeTest::Contract, i as int);
        }
        None
    }

    /// A binding node lowered: its kind from its rule, its name from its
    /// first identifier, and its value.
    pub fn binding(&self, node: NodeRef) -> (r: Result<Binding, Diagnostic>)
        requires
            self.wf(),
            self.has(node),
        ensures
            r is Ok <==> self.binding_ok(node),
            r is Ok ==> self.binding_shape(node, r->Ok_0),
        decreases self.rank(node), 9int,
    {
        let name_node = match self.first_token_opt(node, Token::Identifier) {
            Some(n) => n,
            None => return Err(self.error(node, "binding has no name")),
        };
        let name = self.identifier(name_node);
        let rule = match self.rule(node) {
            Some(r) => r,
            None => return Err(self.error(node, "invalid binding")),
        };
        let location = self.location(node);
        if rule == Rule::LetBinding {
            let equal = match self.first_token(node, Token::Equal, "missing Equal") {
                Ok(e) => e,
                Err(d) => return Err(d),
            };
            let equal_start = self.start(equal);
            let value_node = match self.find_expression(node, Some(equal_start), None) {
                Some(v) => v,
                None => return Err(self.error(node, "binding has no value")),
            };
            let annotation = match self.first_token_opt(node, Token::Colon) {
                Some(colon) => {
                    let colon_start = self.start(colon);
                    match self.find_expression(node, Some(colon_start), Some(equal_start)) {
                        Some(a) => match self.expression(a) {
                            Ok(e) => Some(e),
                            Err(d) => return Err(d),
                        },
                        None => None,
                    }
                },
                None => None,
            };
            let value = match self.expression(value_node) {
                Ok(e) => e,
                Err(d) => return Err(d),
            };
            Ok(located(BindingData {
                decorators: Vec::new(),
                kind: BindingKind::Let,
                name,
                type_parameters: Vec::new(),
                annotation,
                value,
            }, location))
        } else if rule == Rule::DeclBinding || rule == Rule::NativeBinding {
            let native = rule == Rule::NativeBinding;
            let scheme = match self.find_rule(node, Rule::TypeScheme) {
                Some(s) => s,
                None => return Err(self.error(node, if native {
                    "native declaration has no type scheme"
                } else {
                    "declaration has no type scheme"
                })),
            };
            let type_parameters = self.type_parameters(Some(scheme));
            let contract_node = match self.scheme_contract(scheme) {
                Some(c) => c,
                None => return Err(self.error(node, if native {
                    "native declaration has no contract"
                } else {
                    "declaration has no contract"
                })),
            };
            // The contract is both the annotation and the value.
            let annotation = match self.contract_expression(contract_node) {
                Ok(e) => e,
                Err(d) => return Err(d),
            };
            let value = match self.contract_expression(contract_node) {
                Ok(e) => e,
                Err(d) => return Err(d),
            };
            Ok(located(BindingData {
                decorators: Vec::new(),
                kind: if native { BindingKind::Native } else { BindingKind::Decl },
                name,
                type_parameters,
                annotation: Some(annotation),
                value,
            }, location))
        } else if rule == Rule::DefBinding {
            let equal = match self.first_token(node, Token::Equal, "missing Equal") {
                Ok(e) => e,
                Err(d) => return Err(d),
            };
            let scheme = self.find_rule(node, Rule::TypeScheme);
            let type_parameters = self.type_parameters(scheme);
            let annotation = match scheme {
                Some(s) => match self.scheme_contract(s) {
                    Some(c) => match self.contract_expression(c) {
                        Ok(e) => Some(e),
                        Err(d) => return Err(d),
                    },
                    None => return Err(self.error(node, "definition has no contract")),
                },
                None => None,
            };
            let equal_start = self.start(equal);
            let value_node = match self.find_expression(node, Some(equal_start), None) {
                Some(v) => v,
                None => return Err(self.error(node, "definition has no value")),
            };
            let value = match self.expression(value_node) {
                Ok(e) => e,
                Err(d) => return Err(d),
            };
            Ok(located(BindingData {
                decorators: Vec::new(),
                kind: BindingKind::Def,
                name,
                type_parameters,
                annotation,
                value,
            }, location))
        } else if rule == Rule::TypeBinding {
            let decorators = match self.decorators(node) {
                Ok(ds) => ds,
                Err(d) => return Err(d),
            };
            let equal = match self.first_token(node, Token::Equal, "missing Equal") {
                Ok(e) => e,
                Err(d) => return Err(d),
            };
            let equal_start = self.start(equal);
            let value_node = match self.find_expression(node, Some(equal_start), None) {
                Some(v) => v,
                None => return Err(self.error(node, "type has no value")),
            };
            let value = match self.expression(value_node) {
                Ok(e) => e,
                Err(d) => return Err(d),
            };
            let value = match self.apply_decorators(node, "Type", &name, value, location) {
                Ok(v) => v,
                Err(d) => return Err(d),
            };
            Ok(located(BindingData {
                decorators,
                kind: BindingKind::Type,
                name,
                type_parameters: Vec::new(),
                annotation: None,
                value,
            }, location))
        } else if rule == Rule::ImportBinding {
            let path = match self.find_rule(node, Rule::StringLiteral) {
                Some(p) => p,
                None => return Err(self.error(node, "import has no path")),
            };
            let text = match self.plain_string(path, "import path") {
                Ok(t) => t,
                Err(d) => return Err(d),
            };
            Ok(located(BindingData {
                decorators: Vec::new(),
                kind: BindingKind::Import,
                name,
                type_parameters: Vec::new(),
                annotation: None,
                value: located(ExprKind::String(text), self.location(path)),
            }, location))
        } else {
            Err(self.error(node, "unexpected binding rule"))
        }
    }

    /// The first child of `node` that is a token of kind `t`, if any.
    pub fn first_token_opt(&self, node: NodeRef, t: Token) -> (r: Option<NodeRef>)
        requires
            self.has(node),
        ensures
            r is Some ==> node.0 < r->Some_0.0 < self.cst.nodes@.len(),
            r == self.spec_first_token(node, t),
    {
        proof {
            self.lemma_first_is_head(self.spec_children(node), NodeTest::IsToken(t));
        }
        let cs = self.token_children(node, t);
        if cs.len() > 0 {
            Some(cs[0])
        } else {
            None
        }
    }

    /// A contract lowered to an expression: `Name` is a variable,
    /// `Name(a, b)` a call, and `Fn(a, b) -> c` the call `Fn([a, b], c)`.
    pub fn contract_expression(&self, node: NodeRef) -> (r: Result<Expr, Diagnostic>)
        requires
            self.wf(),
            self.has(node),
        ensures
            r is Ok ==> r->Ok_0.location == self.spec_location(node),
            r is Ok <==> self.contract_ok(node),
            r matches Ok(e) ==> self.contract_shape(node, e),
        decreases self.rank(node), 9int,
    {
        let location = self.location(node);
        let rule = self.rule(node);
        if rule != Some(Rule::ContractExpr) && rule != Some(Rule::FunctionContract) {
            return Err(self.error(node, "invalid contract"));
        }
        let rules = self.rule_children(node);
        let mut parts: Vec<Expr> = Vec::new();
        let mut i: usize = 0;
        proof {
            assert(rules@.subrange(0, 0) =~= Seq::<NodeRef>::empty());
        }
        while i < rules.len()
            invariant
                self.wf(),
                self.has(node),
                i <= rules@.len(),
                rules@ == self.all_passing(self.spec_children(node), NodeTest::AnyRule),
                parts@.len() == self.all_passing(rules@.subrange(0, i as int), NodeTest::Contract).len(),
                forall|k: int| 0 <= k < parts@.len() ==> self.contract_shape(
                    self.all_passing(rules@.subrange(0, i as int), NodeTest::Contract)[k],
                    #[trigger] parts@[k],
                ),
                forall|k: int|
                    0 <= k < i && self.passes(rules@[k], NodeTest::Contract) ==> self.contract_ok(#[trigger] rules@[k]),
                forall|k: int| 0 <= k < rules@.len() ==> node.0 < (#[trigger] rules@[k]).0 < self.cst.nodes@.len(),
            decreases rules@.len() - i,
        {
            proof {
                self.lemma_all_passing_push(rules@, NodeTest::Contract, i as int);
            }
            let r = self.rule(rules[i]);
            if r == Some(Rule::ContractExpr) || r == Some(Rule::FunctionContract) {
                match self.contract_expression(rules[i]) {
                    Ok(e) => {
                        let ghost before = parts@;
                        parts.push(e);
                        proof {
                            let pre = self.all_passing(rules@.subrange(0, i as int), NodeTest::Contract);
                            let post = self.all_passing(rules@.subrange(0, i + 1), NodeTest::Contract);
                            assert(post == pre + seq![rules@[i as int]]);
                            assert forall|k: int| 0 <= k < parts@.len() implies self.contract_shape(post[k], #[trigger] parts@[k]) by {
                                if k < pre.len() {
                                    assert(post[k] == pre[k]);
                                    assert(parts@[k] == before[k]);
                                }
                            }
                        }
                    },
                    Err(d) => {
                        proof {
                            assert(!self.contract_ok(rules@[i as int]));
                        }
                        return Err(d);
                    },
                }
            } else {
                proof {
                    assert(self.all_passing(rules@.subrange(0, i + 1), NodeTest::Contract) =~= self.all_passing(
                        rules@.subrange(0, i as int),
                        NodeTest::Contract,
                    ));
                }
            }
            i = i + 1;
        }
        proof {
            assert(rules@.subrange(0, i as int) =~= rules@);
            self.lemma_all_passing_below(node, rules@, NodeTest::Contract);
            self.lemma_first_is_head(rules@, NodeTest::Contract);
            assert forall|k: int|
                0 <= k < rules@.len() && self.passes(rules@[k], NodeTest::Contract) && node.0 < rules@[k].0
                    < self.cst.nodes@.len() implies self.contract_ok(#[trigger] rules@[k]) by {}
        }
        if rule == Some(Rule::ContractExpr) {
            let name_node = match self.first_token(node, Token::Identifier, "missing Identifier") {
                Ok(n) => n,
                Err(d) => return Err(d),
            };
            let name = self.identifier(name_node);
            if parts.len() == 0 {
                Ok(located(ExprKind::Variable(name), location))
            } else {
                Ok(located(ExprKind::Call {
                    callee: Box::new(located(ExprKind::Variable(name), location)),
                    arguments: parts,
                }, location))
            }
        } else {
            match parts.pop() {
                None => Err(self.error(node, "function contract has no result")),
                Some(result) => {
                    let parameters = located(ExprKind::Array(parts), location);
                    let callee_name = located(String::from_str("Fn"), location);
                    let mut arguments: Vec<Expr> = Vec::new();
                    arguments.push(parameters);
                    arguments.push(result);
                    Ok(located(ExprKind::Call {
                        callee: Box::new(located(ExprKind::Variable(callee_name), location)),
                        arguments,
                    }, location))
                },
            }
        }
    }

    /// One decorator node lowered: its callee path, as a variable and field
    /// accesses, and its arguments.
    pub fn decorator(&self, node: NodeRef) -> (r: Result<Decorator, Diagnostic>)
        requires
            self.wf(),
            self.has(node),
        ensures
            r is Ok <==> self.decorator_ok(node),
            r matches Ok(d) ==> self.decorator_shape(node, d),
        decreases self.rank(node), 6int,
    {
        let path = match self.find_rule(node, Rule::DecoratorPath) {
            Some(p) => p,
            None => return Err(self.error(node, "decorator has no path")),
        };
        let names = self.token_children(path, Token::Identifier);
        if names.len() == 0 {
            return Err(self.error(path, "decorator path is empty"));
        }
        let first = self.identifier(names[0]);
        let first_location = first.location;
        let mut callee = located(ExprKind::Variable(first), first_location);
        proof {
            assert(names@.subrange(0, 1) =~= seq![names@[0]]);
        }
        let mut i: usize = 1;
        while i < names.len()
            invariant
                self.wf(),
                self.has(path),
                1 <= i <= names@.len(),
                forall|k: int| 0 <= k < names@.len() ==> path.0 < (#[trigger] names@[k]).0 < self.cst.nodes@.len(),
                self.path_shape(names@.subrange(0, i as int), callee),
            decreases names@.len() - i,
        {
            let field = self.identifier(names[i]);
            let start = callee.location.range.start;
            let end = field.location.range.end;
            let range = if start <= end {
                TextRange { start, end }
            } else {
                TextRange { start, end: start }
            };
            let location = Location::new(callee.location.source, range);
            let ghost prev = callee;
            callee = located(ExprKind::Field { receiver: Box::new(callee), field }, location);
            proof {
                let ids = names@.subrange(0, i + 1);
                assert(ids.drop_last() =~= names@.subrange(0, i as int));
                assert(ids.last() == names@[i as int]);
                assert(self.names_of(seq![field], seq![ids.last()]));
                assert(location == joined(prev.location, field.location));
            }
            i = i + 1;
        }
        proof {
            assert(names@.subrange(0, names@.len() as int) =~= names@);
        }
        let arguments_node = self.find_rule(node, Rule::Arguments);
        let arguments = match arguments_node {
            Some(a) => match self.expression_children(a) {
                Ok(v) => v,
                Err(d) => return Err(d),
            },
            None => Vec::new(),
        };
        Ok(located(DecoratorKind { callee, arguments, configured: arguments_node.is_some() }, self.location(node)))
    }

    /// The decorators among the children of `node`, in order: one for each
    /// decorator node.
    pub fn decorators(&self, node: NodeRef) -> (r: Result<Vec<Decorator>, Diagnostic>)
        requires
            self.wf(),
            self.has(node),
        ensures
            r is Ok <==> self.decorators_ok(node),
            r matches Ok(ds) ==> ds@.len() == self.decorator_nodes(node).len() && forall|k: int|
                0 <= k < ds@.len() ==> self.below(node, self.decorator_nodes(node)[k]) && self.decorator_shape(
                    self.decorator_nodes(node)[k],
                    #[trigger] ds@[k],
                ),
            r is Ok ==> forall|k: int| 0 <= k < self.decorator_nodes(node).len() ==> self.below(node, #[trigger] self.decorator_nodes(node)[k]),
        decreases self.rank(node), 7int,
    {
        let rules = self.rule_children(node);
        let ghost test = NodeTest::IsRule(Rule::Decorator);
        let mut out: Vec<Decorator> = Vec::new();
        let mut i: usize = 0;
        proof {
            assert(rules@.subrange(0, 0) =~= Seq::<NodeRef>::empty());
        }
        while i < rules.len()
            invariant
                self.wf(),
                self.has(node),
                i <= rules@.len(),
                rules@ == self.rule_kids(node),
                test == NodeTest::IsRule(Rule::Decorator),
                forall|k: int|
                    0 <= k < i && self.passes(rules@[k], NodeTest::IsRule(Rule::Decorator)) ==> self.decorator_ok(
                        #[trigger] rules@[k],
                    ),
                forall|k: int| 0 <= k < rules@.len() ==> node.0 < (#[trigger] rules@[k]).0 < self.cst.nodes@.len(),
                out@.len() == self.all_passing(rules@.subrange(0, i as int), test).len(),
                forall|k: int| 0 <= k < out@.len() ==> self.decorator_shape(self.all_passing(rules@.subrange(0, i as int), test)[k], #[trigger] out@[k]),
            decreases rules@.len() - i,
        {
            proof {
                self.lemma_all_passing_push(rules@, test, i as int);
            }
            let ghost before = out@;
            if self.rule(rules[i]) == Some(Rule::Decorator) {
                match self.decorator(rules[i]) {
                    Ok(d) => {
                        let ghost dd = d;
                        out.push(d);
                        proof {
                            let pre = self.all_passing(rules@.subrange(0, i as int), test);
                            let post = self.all_passing(rules@.subrange(0, i + 1), test);
                            assert(post == pre + seq![rules@[i as int]]);
                            assert(self.decorator_shape(rules@[i as int], dd));
                            assert forall|k: int| 0 <= k < out@.len() implies self.decorator_shape(post[k], #[trigger] out@[k]) by {
                                if k < pre.len() {
                                    assert(post[k] == pre[k]);
                                    assert(out@[k] == before[k]);
                                } else {
                                    assert(post[k] == rules@[i as int]);
                                }
                            }
                        }
                    },
                    Err(e) => {
                        proof {
                            assert(!self.decorator_ok(rules@[i as int]));
                            assert(self.below(node, rules@[i as int]));
                        }
                        return Err(e);
                    },
                }
            } else {
                proof {
                    assert(self.all_passing(rules@.subrange(0, i + 1), test) =~= self.all_passing(rules@.subrange(0, i as int), test));
                }
            }
            i = i + 1;
        }
        proof {
            assert(rules@.subrange(0, i as int) =~= rules@);
            self.lemma_all_passing_below(node, rules@, test);
        }
        Ok(out)
    }

    /// Wraps `value` in the decorators of `node`, innermost last: each
    /// decorator (called with its arguments, when configured) is applied to
    /// a context Dict `{kind, name}` and the value.
    #[verifier::loop_isolation(false)]
    pub fn apply_decorators(
        &self,
        node: NodeRef,
        kind: &str,
        name: &Identifier,
        value: Expr,
        target_location: Location,
    ) -> (r: Result<Expr, Diagnostic>)
        requires
            self.wf(),
            self.has(node),
        ensures
            r is Ok <==> self.decorators_ok(node),
            r matches Ok(e) ==> self.decorations(node, kind@, *name, target_location, e)
                && layer(e, self.decorator_nodes(node).len()) == value,
        decreases self.rank(node), 8int,
    {
        let ghost value0 = value;
        let mut decorators = match self.decorators(node) {
            Ok(ds) => ds,
            Err(e) => return Err(e),
        };
        let ghost ds = decorators@;
        let ghost dn = self.decorator_nodes(node);
        let ghost n = ds.len();
        let mut value = value;
        proof {
            assert forall|k: int| 0 <= k < n implies self.below(node, dn[k]) && self.decorator_shape(dn[k], #[trigger] ds[k]) by {
                assert(self.decorator_shape(self.decorator_nodes(node)[k], decorators@[k]));
            }
            assert(decorators@ =~= ds.subrange(0, decorators@.len() as int));
            assert(layer(value, (n - decorators@.len()) as nat) == value0);
        }
        while decorators.len() > 0
            invariant
                self.wf(),
                n == ds.len(),
                n == dn.len(),
                dn == self.decorator_nodes(node),
                decorators@ == ds.subrange(0, decorators@.len() as int),
                decorators@.len() <= n,
                layer(value, (n - decorators@.len()) as nat) == value0,
                forall|j: int|
                    decorators@.len() <= j < n ==> (#[trigger] layer(value, (j - decorators@.len()) as nat)).location
                        == self.spec_location(dn[j]) && (layer(value, (j - decorators@.len()) as nat).value matches ExprKind::Call {
                        callee,
                        arguments,
                    } && arguments@.len() == 2 && context_shape(arguments@[0], kind@, *name, target_location)
                        && self.decorator_call_shape(dn[j], *callee)),
            decreases decorators@.len(),
        {
            let ghost i = decorators@.len() - 1;
            let decorator = decorators.pop().unwrap();
            proof {
                assert(decorator == ds[i]);
                assert(decorators@ =~= ds.subrange(0, i));
            }
            let decorator_location = decorator.location;
            let d = decorator.value;
            let callee = if d.configured {
                located(ExprKind::Call { callee: Box::new(d.callee), arguments: d.arguments }, decorator_location)
            } else {
                d.callee
            };
            proof {
                assert(self.decorator_shape(dn[i], ds[i]));
                assert(self.decorator_call_shape(dn[i], callee));
            }
            let context = decorator_context(kind, name, target_location);
            let ghost old_value = value;
            let mut arguments: Vec<Expr> = Vec::new();
            arguments.push(context);
            arguments.push(value);
            value = located(ExprKind::Call { callee: Box::new(callee), arguments }, decorator_location);
            proof {
                assert(arguments@[1] == old_value);
                assert forall|m: nat| #[trigger] layer(value, m + 1) == layer(old_value, m) by {}
                assert(layer(value, (n - i) as nat) == layer(old_value, (n - i - 1) as nat));
                assert forall|j: int| i <= j < n implies (#[trigger] layer(value, (j - i) as nat)).location
                    == self.spec_location(dn[j]) && (layer(value, (j - i) as nat).value matches ExprKind::Call {
                    callee,
                    arguments,
                } && arguments@.len() == 2 && context_shape(arguments@[0], kind@, *name, target_location)
                    && self.decorator_call_shape(dn[j], *callee)) by {
                    if j > i {
                        assert(layer(value, (j - i) as nat) == layer(old_value, (j - i - 1) as nat));
                        assert((j - i - 1) as nat == (j - (i + 1)) as nat);
                    }
                }
            }
        }
        proof {
            assert forall|j: int| 0 <= j < dn.len() implies self.below(node, dn[j]) && (#[trigger] layer(value, j as nat)).location
                == self.spec_location(dn[j]) && (layer(value, j as nat).value matches ExprKind::Call { callee, arguments }
                && arguments@.len() == 2 && context_shape(arguments@[0], kind@, *name, target_location)
                && self.decorator_call_shape(dn[j], *callee)) by {
                assert((j - 0) as nat == j as nat);
                assert(self.decorator_shape(dn[j], ds[j]));
            }
        }
        Ok(value)
    }

}

/// The name an atom token's text gives: the text after its quote where
/// that is a character boundary, else the whole text.
pub open spec fn atom_text_spec(t: Seq<u8>) -> Seq<u8> {
    let k = t.len() - atom_name(t).len();
    if vstd::utf8::is_char_boundary(t, k) {
        atom_name(t)
    } else {
        t
    }
}

/// The body of a bytes literal's text: between its quotes, after an
/// optional `b`.
pub open spec fn bytes_body(t: Seq<u8>) -> Seq<u8> {
    let skip: int = if t.len() > 0 && t[0] == 98u8 { 1 } else { 0 };
    t.subrange(skip + 1, t.len() - 1)
}

/// The location from the start of `a` to the end of `b`, or empty at the
/// start of `a` when `b` ends before it.
pub open spec fn joined(a: Location, b: Location) -> Location {
    Location {
        source: a.source,
        range: TextRange {
            start: a.range.start,
            end: if a.range.start <= b.range.end {
                b.range.end
            } else {
                a.range.start
            },
        },
    }
}

/// `e` is the context Dict of a decorated `kind` named `name`:
/// `{kind: 'kind, name: "name"}`, the first field at the target, the
/// second at the name.
pub open spec fn context_shape(e: Expr, kind: Seq<char>, name: Identifier, target: Location) -> bool {
    &&& e.location == target
    &&& e.value matches ExprKind::Dict(fields)
    &&& fields@.len() == 2
    &&& fields@[0].location == target
    &&& fields@[0].value.decorators@.len() == 0
    &&& fields@[0].value.name.value@ == "kind"@
    &&& fields@[0].value.name.location == target
    &&& fields@[0].value.value.location == target
    &&& fields@[0].value.value.value matches ExprKind::Atom(a) && a@ == kind
    &&& fields@[1].location == name.location
    &&& fields@[1].value.decorators@.len() == 0
    &&& fields@[1].value.name.value@ == "name"@
    &&& fields@[1].value.name.location == name.location
    &&& fields@[1].value.value.location == name.location
    &&& fields@[1].value.value.value matches ExprKind::String(t) && t@ == name.value@
}

/// The value under `k` layers of two-argument calls: each layer's second
/// argument.
pub open spec fn layer(e: Expr, k: nat) -> Expr
    decreases k,
{
    if k == 0 {
        e
    } else {
        match e.value {
            ExprKind::Call { callee: _, arguments } => if arguments@.len() == 2 {
                layer(arguments@[1], (k - 1) as nat)
            } else {
                e
            },
            _ => e,
        }
    }
}

/// The context Dict handed to a decorator: `{kind: 'Kind, name: "name"}`.
pub fn decorator_context(kind: &str, name: &Identifier, target_location: Location) -> (e: Expr)
    ensures
        context_shape(e, kind@, *name, target_location),
{
        let name_location = name.location;
        let mut fields: Vec<DictField> = Vec::new();
        fields.push(located(DictFieldKind {
            decorators: Vec::new(),
            name: located(String::from_str("kind"), target_location),
            value: located(ExprKind::Atom(String::from_str(kind)), target_location),
        }, target_location));
        fields.push(located(DictFieldKind {
            decorators: Vec::new(),
            name: located(String::from_str("name"), name_location),
            value: located(ExprKind::String(name.value.clone()), name_location),
        }, name_location));
        proof {
            reveal_strlit("kind");
            reveal_strlit("name");
        }
        located(ExprKind::Dict(fields), target_location)
}

impl<'a> Lowerer<'a> {

    /// The expression children of `node`, lowered in order.
    pub fn expression_children(&self, node: NodeRef) -> (r: Result<Vec<Expr>, Diagnostic>)
        requires
            self.wf(),
            self.has(node),
        ensures
            r is Ok <==> self.expression_children_ok(node),
            r matches Ok(v) ==> v@.len() == self.expression_count(node) && forall|k: int|
                0 <= k < v@.len() ==> (#[trigger] v@[k]).location == self.expr_location(self.expr_nodes(node)[k]),
            r is Ok ==> forall|k: int| 0 <= k < self.expr_nodes(node).len() ==> self.below(node, #[trigger] self.expr_nodes(node)[k]),
            r matches Ok(v) ==> forall|k: int| 0 <= k < v@.len() ==> self.lowered_shape(self.expr_nodes(node)[k], #[trigger] v@[k]),
        decreases self.rank(node), 9int,
    {
        let all = self.children(node);
        let mut out: Vec<Expr> = Vec::new();
        let mut i: usize = 0;
        proof {
            assert(all@.subrange(0, 0) =~= Seq::<NodeRef>::empty());
        }
        while i < all.len()
            invariant
                self.wf(),
                self.has(node),
                i <= all@.len(),
                all@ == self.spec_children(node),
                out@.len() == self.all_passing(all@.subrange(0, i as int), NodeTest::Expression(None, None)).len(),
                forall|k: int| 0 <= k < out@.len() ==> (#[trigger] out@[k]).location == self.expr_location(
                    self.all_passing(all@.subrange(0, i as int), NodeTest::Expression(None, None))[k],
                ),
                forall|k: int| 0 <= k < out@.len() ==> self.below(node, #[trigger] self.all_passing(all@.subrange(0, i as int), NodeTest::Expression(None, None))[k]),
                forall|k: int| 0 <= k < out@.len() ==> self.lowered_shape(
                    self.all_passing(all@.subrange(0, i as int), NodeTest::Expression(None, None))[k],
                    #[trigger] out@[k],
                ),
                forall|k: int|
                    0 <= k < i && spec_is_expression(self.cst.nodes@[all@[k].0 as int].kind) ==> self.expr_ok(
                        #[trigger] all@[k],
                    ),
                forall|k: int| 0 <= k < all@.len() ==> node.0 < (#[trigger] all@[k]).0 < self.cst.nodes@.len(),
            decreases all@.len() - i,
        {
            proof {
                self.lemma_all_passing_push(all@, NodeTest::Expression(None, None), i as int);
            }
            if self.is_expression(all[i]) {
                match self.expression(all[i]) {
                    Ok(e) => {
                        out.push(e);
                        proof {
                            let pre = self.all_passing(all@.subrange(0, i as int), NodeTest::Expression(None, None));
                            let post = self.all_passing(all@.subrange(0, i + 1), NodeTest::Expression(None, None));
                            assert(post == pre + seq![all@[i as int]]);
                            assert forall|k: int| 0 <= k < out@.len() implies (#[trigger] out@[k]).location
                                == self.expr_location(post[k]) && self.below(node, post[k]) && self.lowered_shape(post[k], out@[k]) by {
                                if k < pre.len() {
                                    assert(post[k] == pre[k]);
                                }
                            }
                        }
                    },
                    Err(d) => {
                        proof {
                            assert(!self.expr_ok(all@[i as int]));
                            assert(self.below(node, all@[i as int]));
                        }
                        return Err(d);
                    },
                }
            }
            i = i + 1;
        }
        proof {
            assert(all@.subrange(0, i as int) =~= all@);
        }
        Ok(out)
    }
}

impl<'a> Lowerer<'a> {
    /// The value of an Int literal token.
    pub fn int_value(&self, node: NodeRef) -> (r: Result<i64, Diagnostic>)
        requires
            self.wf(),
            self.has(node),
        ensures
            ({
                let t = self.spec_text_bytes(node);
                if t.len() > 0 && all_digits(t) && decimal_value(t) <= i64::MAX {
                    r == Ok::<i64, Diagnostic>(decimal_value(t) as i64)
                } else {
                    r is Err && r->Err_0.message@ == "Int literal is outside the i64 range"@
                        && r->Err_0.labels@.len() == 1 && r->Err_0.labels@[0].location == self.spec_location(node)
                }
            }),
    {
        let t = self.text(node);
        match parse_decimal(t.as_bytes(), 0x7fff_ffff_ffff_ffffu64) {
            Some(v) => Ok(v as i64),
            None => Err(self.error(node, "Int literal is outside the i64 range")),
        }
    }

    /// The text of a Float literal token, kept as written.
    pub fn float_text(&self, node: NodeRef) -> (s: String)
        requires
            self.wf(),
            self.has(node),
        ensures
            s@ == vstd::utf8::decode_utf8(self.spec_text_bytes(node)),
    {
        let t = self.text(node);
        proof {
            vstd::utf8::encode_utf8_decode_utf8(t@);
        }
        String::from_str(t)
    }

    /// The name of an atom token, without its quote.
    pub fn atom_text(&self, node: NodeRef) -> (s: String)
        requires
            self.wf(),
            self.has(node),
        ensures
            ({
                let t = self.spec_text_bytes(node);
                let k = t.len() - atom_name(t).len();
                encode_utf8(s@) == (if vstd::utf8::is_char_boundary(t, k) {
                    atom_name(t)
                } else {
                    t
                })
            }),
    {
        let t = self.text(node);
        let k = atom_quotes(t.as_bytes());
        if t.is_char_boundary(k) {
            let (_, rest) = t.split_at(k);
            String::from_str(rest)
        } else {
            String::from_str(t)
        }
    }

    /// The bytes a bytes literal `b"..."` stands for.
    pub fn bytes_value(&self, node: NodeRef) -> (r: Result<Vec<u8>, Diagnostic>)
        requires
            self.wf(),
            self.has(node),
        ensures
            ({
                let t = self.spec_text_bytes(node);
                let skip: int = if t.len() > 0 && t[0] == 98u8 { 1 } else { 0 };
                if t.len() < skip + 2 {
                    r is Err && r->Err_0.message@ == "invalid Bytes literal"@ && r->Err_0.labels@.len() == 1
                        && r->Err_0.labels@[0].location == self.spec_location(node)
                } else {
                    match decode_body(t.subrange(skip + 1, t.len() - 1)) {
                        Ok(w) => r is Ok && r->Ok_0@ == w,
                        Err(e) => r is Err && r->Err_0.message@ == escape_text(e) && r->Err_0.labels@.len() == 1
                            && r->Err_0.labels@[0].location == self.spec_location(node),
                    }
                }
            }),
    {
        let t = self.text(node).as_bytes();
        let skip: usize = if t.len() > 0 && t[0] == 98u8 {
            1
        } else {
            0
        };
        if t.len() < skip + 2 {
            return Err(self.error(node, "invalid Bytes literal"));
        }
        let mut body: Vec<u8> = Vec::new();
        let mut i = skip + 1;
        let end = t.len() - 1;
        while i < end
            invariant
                end < t@.len(),
                end == t@.len() - 1,
                skip + 1 <= i,
                i <= end || i == skip + 1,
                body@ == t@.subrange(skip + 1, i as int),
            decreases end - i,
        {
            body.push(t[i]);
            proof {
                assert(body@ =~= t@.subrange(skip + 1, i + 1));
            }
            i = i + 1;
        }
        proof {
            assert(body@ =~= t@.subrange(skip + 1, end as int));
            assert(body@.subrange(0, body@.len() as int) =~= body@);
        }
        match decode_body_from(body.as_slice(), 0) {
            Ok(v) => Ok(v),
            Err(e) => Err(Diagnostic::error(escape_message(e), self.location(node))),
        }
    }

    /// `true` when a child of `node` is a `<` or `==` token.
    pub fn has_comparison(&self, node: NodeRef) -> (b: bool)
        requires
            self.has(node),
        ensures
            b == self.spec_has_comparison(node),
    {
        self.first_token_opt(node, Token::Less).is_some() || self.first_token_opt(
            node,
            Token::EqualEqual,
        ).is_some()
    }

    /// Lowers an expression node.
    pub fn expression(&self, node: NodeRef) -> (r: Result<Expr, Diagnostic>)
        requires
            self.wf(),
            self.has(node),
        ensures
            r is Ok <==> self.expr_ok(node),
            r matches Ok(e) ==> self.lowered_shape(node, e),
        decreases self.rank(node), 10int,
    {
        proof {
            self.lemma_first_is_head(self.spec_children(node), NodeTest::Expression(None, None));
        }
        let location = self.location(node);
        let rule = match self.kind(node) {
            NodeKind::Token(t) => {
                let inner = if t == Token::Int {
                    match self.int_value(node) {
                        Ok(v) => ExprKind::Int(v),
                        Err(d) => return Err(d),
                    }
                } else if t == Token::Float {
                    ExprKind::Float(self.float_text(node))
                } else if t == Token::Bytes {
                    match self.bytes_value(node) {
                        Ok(v) => ExprKind::Bytes(v),
                        Err(d) => return Err(d),
                    }
                } else if t == Token::Atom {
                    ExprKind::Atom(self.atom_text(node))
                } else if t == Token::Identifier {
                    ExprKind::Variable(self.identifier(node))
                } else {
                    return Err(self.error(node, "expected expression token"));
                };
                return Ok(located(inner, location));
            },
            NodeKind::Rule(r) => r,
        };
        if rule == Rule::IntExpr || rule == Rule::FloatExpr || rule == Rule::BytesExpr || rule
            == Rule::AtomExpr || rule == Rule::VariableExpr {
            let token = if rule == Rule::IntExpr {
                Token::Int
            } else if rule == Rule::FloatExpr {
                Token::Float
            } else if rule == Rule::BytesExpr {
                Token::Bytes
            } else if rule == Rule::AtomExpr {
                Token::Atom
            } else {
                Token::Identifier
            };
            let leaf = match self.first_token(node, token, "missing token") {
                Ok(l) => l,
                Err(d) => return Err(d),
            };
            let inner = if rule == Rule::IntExpr {
                match self.int_value(leaf) {
                    Ok(v) => ExprKind::Int(v),
                    Err(d) => return Err(d),
                }
            } else if rule == Rule::FloatExpr {
                ExprKind::Float(self.float_text(leaf))
            } else if rule == Rule::BytesExpr {
                match self.bytes_value(leaf) {
                    Ok(v) => ExprKind::Bytes(v),
                    Err(d) => return Err(d),
                }
            } else if rule == Rule::AtomExpr {
                ExprKind::Atom(self.atom_text(leaf))
            } else {
                ExprKind::Variable(self.identifier(leaf))
            };
            return Ok(located(inner, location));
        }
        if rule == Rule::StringExpr {
            return self.string_expression(node);
        }
        if rule == Rule::FunctionContract {
            return self.contract_expression(node);
        }
        let inner = if rule == Rule::ArrayExpr {
            match self.expression_children(node) {
                Ok(items) => ExprKind::Array(items),
                Err(d) => return Err(d),
            }
        } else if rule == Rule::ParenExpr {
            let mut items = match self.expression_children(node) {
                Ok(items) => items,
                Err(d) => return Err(d),
            };
            if items.len() == 1 && self.first_token_opt(node, Token::Comma).is_none() {
                return Ok(items.pop().unwrap());
            }
            ExprKind::Tuple(items)
        } else if rule == Rule::DictExpr {
            match self.dict_fields(node) {
                Ok(fields) => ExprKind::Dict(fields),
                Err(d) => return Err(d),
            }
        } else if rule == Rule::Block {
            match self.block_body(node) {
                Ok(b) => ExprKind::Block(b),
                Err(d) => return Err(d),
            }
        } else if rule == Rule::Closure {
            let parameters = match self.find_rule(node, Rule::Parameters) {
                Some(p) => p,
                None => return Err(self.error(node, "closure has no parameters")),
            };
            let block = match self.find_rule(node, Rule::Block) {
                Some(b) => b,
                None => return Err(self.error(node, "closure has no body")),
            };
            let names = self.token_children(parameters, Token::Identifier);
            let mut params: Vec<Identifier> = Vec::new();
            let mut i: usize = 0;
            while i < names.len()
                invariant
                    self.wf(),
                    i <= names@.len(),
                    forall|k: int| 0 <= k < names@.len() ==> parameters.0 < (#[trigger] names@[k]).0 < self.cst.nodes@.len(),
                    params@.len() == i,
                    forall|k: int| 0 <= k < i ==> {
                        &&& (#[trigger] params@[k]).location == self.spec_location(names@[k])
                        &&& params@[k].value@ == vstd::utf8::decode_utf8(self.spec_text_bytes(names@[k]))
                    },
                decreases names@.len() - i,
            {
                params.push(self.identifier(names[i]));
                i = i + 1;
            }
            match self.block_body(block) {
                Ok(body) => ExprKind::Closure { parameters: params, body },
                Err(d) => return Err(d),
            }
        } else if rule == Rule::UnaryExpr {
            let minus = match self.first_token(node, Token::Minus, "missing Minus") {
                Ok(m) => m,
                Err(d) => return Err(d),
            };
            let operand = match self.find_expression(node, None, None) {
                Some(o) => o,
                None => return Err(self.error(node, "unary expression has no operand")),
            };
            match self.expression(operand) {
                Ok(e) => ExprKind::Unary {
                    operator: located(UnaryOperator::Negate, self.location(minus)),
                    operand: Box::new(e),
                },
                Err(d) => return Err(d),
            }
        } else if rule == Rule::BinaryExpr {
            if self.comparison_chain(node) {
                return Err(self.error(node, "comparison operators do not associate; add parentheses"));
            }
            let mut values = match self.expression_children(node) {
                Ok(v) => v,
                Err(d) => return Err(d),
            };
            if values.len() < 2 {
                return Err(self.error(node, "binary expression needs two operands"));
            }
            let (operator, operator_node) = match self.binary_operator(node) {
                Ok(o) => o,
                Err(d) => return Err(d),
            };
            let right = values.remove(1);
            let left = values.remove(0);
            ExprKind::Binary {
                operator: located(operator, self.location(operator_node)),
                left: Box::new(left),
                right: Box::new(right),
            }
        } else if rule == Rule::FieldExpr {
            let receiver = match self.find_expression(node, None, None) {
                Some(r) => r,
                None => return Err(self.error(node, "field access has no receiver")),
            };
            let names = self.token_children(node, Token::Identifier);
            if names.len() == 0 {
                return Err(self.error(node, "field access has no field"));
            }
            let field = self.identifier(names[names.len() - 1]);
            proof {
                assert(names@.last() == names@[names@.len() - 1]);
                assert(self.names_of(seq![field], seq![names@.last()]));
            }
            match self.expression(receiver) {
                Ok(e) => ExprKind::Field { receiver: Box::new(e), field },
                Err(d) => return Err(d),
            }
        } else if rule == Rule::CallExpr {
            let callee_node = match self.find_expression(node, None, None) {
                Some(c) => c,
                None => return Err(self.error(node, "call has no callee")),
            };
            let callee = match self.expression(callee_node) {
                Ok(e) => e,
                Err(d) => return Err(d),
            };
            let arguments = match self.find_rule(node, Rule::Arguments) {
                Some(a) => match self.expression_children(a) {
                    Ok(v) => v,
                    Err(d) => return Err(d),
                },
                None => Vec::new(),
            };
            ExprKind::Call { callee: Box::new(callee), arguments }
        } else if rule == Rule::SectionExpr {
            return self.section_expression(node);
        } else if rule == Rule::PipelineExpr {
            let mut values = match self.expression_children(node) {
                Ok(v) => v,
                Err(d) => return Err(d),
            };
            if values.len() < 2 {
                return Err(self.error(node, "pipeline needs two operands"));
            }
            let right = values.remove(1);
            let left = values.remove(0);
            let mut arguments: Vec<Expr> = Vec::new();
            arguments.push(left);
            ExprKind::Call { callee: Box::new(right), arguments }
        } else if rule == Rule::IfExpr {
            let condition_node = match self.find_expression(node, None, None) {
                Some(c) => c,
                None => return Err(self.error(node, "if has no condition")),
            };
            let condition = match self.expression(condition_node) {
                Ok(e) => e,
                Err(d) => return Err(d),
            };
            let blocks = self.rules_of(node, Rule::Block);
            if blocks.len() < 2 {
                return Err(self.error(node, "if has no else branch"));
            }
            let then_branch = match self.block_body(blocks[0]) {
                Ok(b) => b,
                Err(d) => return Err(d),
            };
            let else_branch = match self.block_body(blocks[1]) {
                Ok(b) => b,
                Err(d) => return Err(d),
            };
            ExprKind::If { condition: Box::new(condition), then_branch, else_branch }
        } else if rule == Rule::MatchExpr {
            let value_node = match self.find_expression(node, None, None) {
                Some(v) => v,
                None => return Err(self.error(node, "match has no value")),
            };
            let value = match self.expression(value_node) {
                Ok(e) => e,
                Err(d) => return Err(d),
            };
            let arm_nodes = self.rules_of(node, Rule::MatchArm);
            let mut arms: Vec<MatchArm> = Vec::new();
            let mut i: usize = 0;
            while i < arm_nodes.len()
                invariant
                    self.wf(),
                    self.has(node),
                    i <= arm_nodes@.len(),
                    arm_nodes@ == self.spec_rules_of(node, Rule::MatchArm),
                    self.cst.nodes@[node.0 as int].kind == NodeKind::Rule(Rule::MatchExpr),
                    forall|k: int| 0 <= k < arm_nodes@.len() ==> node.0 < (#[trigger] arm_nodes@[k]).0 < self.cst.nodes@.len(),
                    forall|k: int| 0 <= k < i ==> self.match_arm_ok(#[trigger] arm_nodes@[k]),
                    arms@.len() == i,
                    forall|k: int| 0 <= k < i ==> (#[trigger] arms@[k]).location == self.spec_location(arm_nodes@[k]),
                    forall|k: int| 0 <= k < i ==> self.below(node, arm_nodes@[k]) && self.arm_shape(arm_nodes@[k], #[trigger] arms@[k]),
                decreases arm_nodes@.len() - i,
            {
                match self.match_arm(arm_nodes[i]) {
                    Ok(a) => arms.push(a),
                    Err(d) => {
                        assert(!self.match_arm_ok(self.spec_rules_of(node, Rule::MatchArm)[i as int]));
                        return Err(d);
                    },
                }
                i = i + 1;
            }
            ExprKind::Match { value: Box::new(value), arms }
        } else {
            return Err(self.error(node, "unexpected expression rule"));
        };
        Ok(located(inner, location))
    }

    /// The children of `node` of rule `r`, in order.
    pub fn rules_of(&self, node: NodeRef, r: Rule) -> (cs: Vec<NodeRef>)
        requires
            self.has(node),
        ensures
            cs@ == self.spec_rules_of(node, r),
            forall|k: int| 0 <= k < cs@.len() ==> node.0 < (#[trigger] cs@[k]).0 < self.cst.nodes@.len(),
    {
        let all = self.rule_children(node);
        let mut out: Vec<NodeRef> = Vec::new();
        let mut i: usize = 0;
        proof {
            assert(all@.subrange(0, 0) =~= Seq::<NodeRef>::empty());
        }
        while i < all.len()
            invariant
                self.has(node),
                i <= all@.len(),
                out@ == self.all_passing(all@.subrange(0, i as int), NodeTest::IsRule(r)),
                forall|k: int| 0 <= k < all@.len() ==> node.0 < (#[trigger] all@[k]).0 < self.cst.nodes@.len(),
                forall|k: int| 0 <= k < out@.len() ==> node.0 < (#[trigger] out@[k]).0 < self.cst.nodes@.len(),
            decreases all@.len() - i,
        {
            proof {
                self.lemma_all_passing_push(all@, NodeTest::IsRule(r), i as int);
            }
            if self.rule(all[i]) == Some(r) {
                out.push(all[i]);
            }
            proof {
                assert(out@ =~= self.all_passing(all@.subrange(0, i + 1), NodeTest::IsRule(r)));
            }
            i = i + 1;
        }
        proof {
            assert(all@.subrange(0, i as int) =~= all@);
        }
        out
    }

    /// A comparison whose operand is itself a comparison: `a < b == c`.
    pub fn comparison_chain(&self, node: NodeRef) -> (b: bool)
        requires
            self.has(node),
        ensures
            b == (self.spec_has_comparison(node) && exists|k: int|
                0 <= k < self.spec_rules_of(node, Rule::BinaryExpr).len()
                    && self.spec_has_comparison(#[trigger] self.spec_rules_of(node, Rule::BinaryExpr)[k])),
    {
        if !self.has_comparison(node) {
            return false;
        }
        let inner = self.rules_of(node, Rule::BinaryExpr);
        let mut i: usize = 0;
        while i < inner.len()
            invariant
                self.has(node),
                i <= inner@.len(),
                inner@ == self.spec_rules_of(node, Rule::BinaryExpr),
                self.spec_has_comparison(node),
                forall|k: int| 0 <= k < i ==> !self.spec_has_comparison(#[trigger] inner@[k]),
                forall|k: int| 0 <= k < inner@.len() ==> node.0 < (#[trigger] inner@[k]).0 < self.cst.nodes@.len(),
            decreases inner@.len() - i,
        {
            if self.has_comparison(inner[i]) {
                proof {
                    assert(self.spec_has_comparison(self.spec_rules_of(node, Rule::BinaryExpr)[i as int]));
                }
                return true;
            }
            i = i + 1;
        }
        false
    }

    /// The operator of a binary node and its token: the first of `+`, `-`,
    /// `*`, `/`, `<` and `==` among its children.
    pub fn binary_operator(&self, node: NodeRef) -> (r: Result<(BinaryOperator, NodeRef), Diagnostic>)
        requires
            self.wf(),
            self.has(node),
        ensures
            r is Ok ==> node.0 < r->Ok_0.1.0 < self.cst.nodes@.len(),
            r == (if let Some(t) = self.spec_first_token(node, Token::Plus) {
                Ok::<(BinaryOperator, NodeRef), Diagnostic>((BinaryOperator::Add, t))
            } else if let Some(t) = self.spec_first_token(node, Token::Minus) {
                Ok((BinaryOperator::Subtract, t))
            } else if let Some(t) = self.spec_first_token(node, Token::Star) {
                Ok((BinaryOperator::Multiply, t))
            } else if let Some(t) = self.spec_first_token(node, Token::Slash) {
                Ok((BinaryOperator::Divide, t))
            } else if let Some(t) = self.spec_first_token(node, Token::Less) {
                Ok((BinaryOperator::LessThan, t))
            } else if let Some(t) = self.spec_first_token(node, Token::EqualEqual) {
                Ok((BinaryOperator::Equal, t))
            } else {
                r
            }),
            r is Err <==> (self.spec_first_token(node, Token::Plus) is None && self.spec_first_token(node, Token::Minus) is None
                && self.spec_first_token(node, Token::Star) is None && self.spec_first_token(node, Token::Slash) is None
                && self.spec_first_token(node, Token::Less) is None && self.spec_first_token(node, Token::EqualEqual) is None),
            r is Err ==> r->Err_0.message@ == "missing EqualEqual"@ && r->Err_0.labels@.len() == 1
                && r->Err_0.labels@[0].location == self.spec_location(node),
    {
        if let Some(t) = self.first_token_opt(node, Token::Plus) {
            Ok((BinaryOperator::Add, t))
        } else if let Some(t) = self.first_token_opt(node, Token::Minus) {
            Ok((BinaryOperator::Subtract, t))
        } else if let Some(t) = self.first_token_opt(node, Token::Star) {
            Ok((BinaryOperator::Multiply, t))
        } else if let Some(t) = self.first_token_opt(node, Token::Slash) {
            Ok((BinaryOperator::Divide, t))
        } else if let Some(t) = self.first_token_opt(node, Token::Less) {
            Ok((BinaryOperator::LessThan, t))
        } else {
            match self.first_token(node, Token::EqualEqual, "missing EqualEqual") {
                Ok(t) => Ok((BinaryOperator::Equal, t)),
                Err(d) => Err(d),
            }
        }
    }

    /// The fields of a Dict node.
    pub fn dict_fields(&self, node: NodeRef) -> (r: Result<Vec<DictField>, Diagnostic>)
        requires
            self.wf(),
            self.has(node),
        ensures
            r is Ok <==> self.dict_fields_ok(node),
            r matches Ok(fs) ==> fs@.len() == self.spec_rules_of(node, Rule::DictField).len() && forall|k: int|
                0 <= k < fs@.len() ==> (#[trigger] fs@[k]).location == self.spec_location(self.spec_rules_of(node, Rule::DictField)[k]),
            r matches Ok(fs) ==> forall|k: int|
                0 <= k < fs@.len() ==> self.field_shape(self.spec_rules_of(node, Rule::DictField)[k], #[trigger] fs@[k]),
            r is Ok ==> forall|k: int|
                0 <= k < self.spec_rules_of(node, Rule::DictField).len() ==> self.below(node, #[trigger] self.spec_rules_of(node, Rule::DictField)[k]),
        decreases self.rank(node), 9int,
    {
        let field_nodes = self.rules_of(node, Rule::DictField);
        let mut fields: Vec<DictField> = Vec::new();
        let mut i: usize = 0;
        while i < field_nodes.len()
            invariant
                self.wf(),
                self.has(node),
                i <= field_nodes@.len(),
                field_nodes@ == self.spec_rules_of(node, Rule::DictField),
                fields@.len() == i,
                forall|k: int| 0 <= k < i ==> (#[trigger] fields@[k]).location == self.spec_location(field_nodes@[k]),
                forall|k: int| 0 <= k < field_nodes@.len() ==> node.0 < (#[trigger] field_nodes@[k]).0 < self.cst.nodes@.len(),
                forall|k: int| 0 <= k < i ==> self.field_ok(#[trigger] field_nodes@[k]),
                forall|k: int| 0 <= k < i ==> self.field_shape(field_nodes@[k], #[trigger] fields@[k]),
            decreases field_nodes@.len() - i,
        {
            let field = field_nodes[i];
            let key = match self.dict_key(field) {
                Some(k) => k,
                None => return Err(self.error(field, "Dict field has no key")),
            };
            let name = if self.rule(key) == Some(Rule::StringLiteral) {
                match self.plain_string(key, "Dict field name") {
                    Ok(text) => located(text, self.location(key)),
                    Err(d) => return Err(d),
                }
            } else {
                self.identifier(key)
            };
            let colon = match self.first_token(field, Token::Colon, "missing Colon") {
                Ok(c) => c,
                Err(d) => return Err(d),
            };
            let value_node = match self.find_expression(field, Some(self.start(colon)), None) {
                Some(v) => v,
                None => return Err(self.error(field, "Dict field has no value")),
            };
            let decorators = match self.decorators(field) {
                Ok(ds) => ds,
                Err(d) => return Err(d),
            };
            let value = match self.expression(value_node) {
                Ok(e) => e,
                Err(d) => return Err(d),
            };
            let field_location = self.location(field);
            let value = match self.apply_decorators(field, "Field", &name, value, field_location) {
                Ok(v) => v,
                Err(d) => return Err(d),
            };
            let ghost df_decorators = decorators@;
            let ghost df_name = name;
            let ghost df_value = value;
            fields.push(located(DictFieldKind { decorators, name, value }, field_location));
            proof {
                let df = fields@[i as int];
                assert(df.value.decorators@ == df_decorators);
                assert(self.decorators_shape(field, df_decorators));
                assert(self.decorated_value(field, colon, "Field"@, df_name, df_value));
                if self.cst.nodes@[key.0 as int].kind != NodeKind::Rule(Rule::StringLiteral) {
                    assert(self.names_of(seq![df_name], seq![key]));
                }
                assert(self.field_shape(field, df));
            }
            i = i + 1;
        }
        Ok(fields)
    }

    /// The key of a Dict field: its first identifier token or string literal.
    pub fn dict_key(&self, field: NodeRef) -> (r: Option<NodeRef>)
        requires
            self.has(field),
        ensures
            r is Some ==> field.0 < r->Some_0.0 < self.cst.nodes@.len(),
            r == self.first_passing(self.spec_children(field), NodeTest::Key),
    {
        let all = self.children(field);
        let mut i: usize = 0;
        while i < all.len()
            invariant
                self.has(field),
                i <= all@.len(),
                all@ == self.spec_children(field),
                forall|k: int| 0 <= k < i ==> !self.passes(#[trigger] all@[k], NodeTest::Key),
                forall|k: int| 0 <= k < all@.len() ==> field.0 < (#[trigger] all@[k]).0 < self.cst.nodes@.len(),
            decreases all@.len() - i,
        {
            if self.is_token(all[i], Token::Identifier) || self.rule(all[i]) == Some(Rule::StringLiteral) {
                proof {
                    self.lemma_first_passing_skip(all@, NodeTest::Key, i as int);
                }
                return Some(all[i]);
            }
            i = i + 1;
        }
        proof {
            self.lemma_first_passing_skip(all@, NodeTest::Key, i as int);
        }
        None
    }

    /// A call section: the callee and its arguments, elaborated to a
    /// closure.
    pub fn section_expression(&self, node: NodeRef) -> (r: Result<Expr, Diagnostic>)
        requires
            self.wf(),
            self.has(node),
        ensures
            r is Ok <==> self.section_ok(node),
            r is Ok ==> r->Ok_0.location == self.spec_location(node) && r->Ok_0.value is Closure,
            r matches Ok(e) ==> self.section_shape(node, e),
        decreases self.rank(node), 9int,
    {
        let location = self.location(node);
        let callee_node = match self.find_expression(node, None, None) {
            Some(c) => c,
            None => return Err(self.error(node, "call section has no callee")),
        };
        let callee = match self.expression(callee_node) {
            Ok(e) => e,
            Err(d) => return Err(d),
        };
        let arguments_node = match self.find_rule(node, Rule::SectionArguments) {
            Some(a) => a,
            None => return Err(self.error(node, "call section has no arguments")),
        };
        let argument_nodes = self.rules_of(arguments_node, Rule::Argument);
        let ghost shapes = argument_nodes@.map_values(|a: NodeRef| self.argument_shape(a));
        let mut arguments: Vec<CallArgument> = Vec::new();
        let mut i: usize = 0;
        while i < argument_nodes.len()
            invariant
                self.wf(),
                self.has(node),
                node.0 < arguments_node.0,
                i <= argument_nodes@.len(),
                argument_nodes@ == self.section_argument_nodes(node),
                shapes == argument_nodes@.map_values(|a: NodeRef| self.argument_shape(a)),
                arguments@.len() == i,
                forall|k: int| 0 <= k < argument_nodes@.len() ==> arguments_node.0 < (#[trigger] argument_nodes@[k]).0 < self.cst.nodes@.len(),
                forall|k: int| 0 <= k < i ==> self.call_argument_ok(#[trigger] argument_nodes@[k]),
                forall|k: int| 0 <= k < i ==> same_shape(#[trigger] arguments@[k], shapes[k]),
                forall|k: int| 0 <= k < i ==> self.section_argument_shape(argument_nodes@[k], #[trigger] arguments@[k]),
            decreases argument_nodes@.len() - i,
        {
            match self.call_argument(argument_nodes[i]) {
                Ok(a) => arguments.push(a),
                Err(d) => return Err(d),
            }
            i = i + 1;
        }
        let ghost args = arguments@;
        let ghost lowered_callee = callee;
        proof {
            lemma_same_shape_failure(arguments@, shapes);
            lemma_same_shape_counts(arguments@, shapes);
            assert(shapes =~= self.section_argument_nodes(node).map_values(|a: NodeRef| self.argument_shape(a)));
        }
        match elaborate_call_section(callee, arguments, location, location) {
            Ok(e) => {
                proof {
                    let an = self.section_argument_nodes(node);
                    let la = e.value->Closure_body.value.result.value->Call_arguments;
                    assert forall|i: int| 0 <= i < la@.len() implies self.below(node, an[i]) && if shapes[i] is Expression {
                        self.section_argument_shape(an[i], CallArgument::Expression(#[trigger] la@[i]))
                    } else {
                        lowered_argument(shapes, i, la@[i])
                    } by {
                        assert(lowered_argument(args, i, la@[i]));
                        assert(self.section_argument_shape(an[i], args[i]));
                        assert(same_shape(args[i], shapes[i]));
                        if !(args[i] is Expression) {
                            assert(args[i] == shapes[i]);
                            assert(bares_in(args.take(i)) == bares_in(shapes.take(i)));
                        }
                    }
                    assert(args.take(args.len() as int) =~= args);
                    assert(shapes.take(shapes.len() as int) =~= shapes);
                    assert forall|k: int| 0 <= k < args.len() && !(#[trigger] args[k] is Expression) implies args[k] == shapes[k] by {
                        assert(self.section_argument_shape(an[k], args[k]));
                    }
                    lemma_same_shape_locations(args, shapes);
                    let ps = e.value->Closure_parameters;
                    assert forall|j: int| 0 <= j < ps@.len() implies (#[trigger] ps@[j]).value@ == placeholder_parameter_spec(j as usize)
                        && ps@[j].location == parameter_location(shapes, j) by {
                        assert(ps@[j].location == parameter_location(args, j));
                        if !has_kind(args, 1) {
                            assert(uses_index(args, j));
                        }
                    }
                    assert(bares_in(args.take(args.len() as int)) == bares_in(shapes.take(args.len() as int)));
                    assert(self.section_shape(node, e));
                }
                Ok(e)
            },
            Err((at, message)) => Err(Diagnostic::error(message, at)),
        }
    }

    /// One argument of a call section.
    pub fn call_argument(&self, node: NodeRef) -> (r: Result<CallArgument, Diagnostic>)
        requires
            self.wf(),
            self.has(node),
        ensures
            r is Ok <==> self.call_argument_ok(node),
            r is Ok ==> same_shape(r->Ok_0, self.argument_shape(node)),
            r matches Ok(a) ==> self.section_argument_shape(node, a),
        decreases self.rank(node), 9int,
    {
        if let Some(p) = self.first_token_opt(node, Token::Placeholder) {
            return Ok(CallArgument::Bare { location: self.location(p) });
        }
        if let Some(p) = self.first_token_opt(node, Token::IndexedPlaceholder) {
            let text = self.text(p).as_bytes();
            if text.len() == 0 {
                return Err(self.error(p, "placeholder index exceeds the supported range"));
            }
            let mut digits: Vec<u8> = Vec::new();
            let mut k: usize = 1;
            while k < text.len()
                invariant
                    1 <= k <= text@.len(),
                    digits@ == text@.subrange(1, k as int),
                decreases text@.len() - k,
            {
                digits.push(text[k]);
                proof {
                    assert(digits@ =~= text@.subrange(1, k + 1));
                }
                k = k + 1;
            }
            return match parse_decimal(digits.as_slice(), usize::MAX as u64) {
                Some(v) => Ok(CallArgument::Indexed { index: v as usize, location: self.location(p) }),
                None => Err(self.error(p, "placeholder index exceeds the supported range")),
            };
        }
        let expression = match self.find_expression(node, None, None) {
            Some(e) => e,
            None => return Err(self.error(node, "call argument has no expression")),
        };
        match self.expression(expression) {
            Ok(e) => Ok(CallArgument::Expression(e)),
            Err(d) => Err(d),
        }
    }

    /// `pattern => value`
    pub fn match_arm(&self, node: NodeRef) -> (r: Result<MatchArm, Diagnostic>)
        requires
            self.wf(),
            self.has(node),
        ensures
            r is Ok <==> self.match_arm_ok(node),
            r is Ok ==> r->Ok_0.location == self.spec_location(node),
            r matches Ok(a) ==> self.arm_shape(node, a),
        decreases self.rank(node), 9int,
    {
        let arrow = match self.first_token(node, Token::FatArrow, "missing FatArrow") {
            Ok(a) => a,
            Err(d) => return Err(d),
        };
        let arrow_start = self.start(arrow);
        let all = self.children(node);
        let ghost test = NodeTest::PatternBefore(arrow_start);
        let mut pattern_node: Option<NodeRef> = None;
        let mut i: usize = 0;
        while i < all.len()
            invariant_except_break
                pattern_node is None,
            invariant
                self.has(node),
                test == NodeTest::PatternBefore(arrow_start),
                i <= all@.len(),
                all@ == self.spec_children(node),
                forall|k: int| 0 <= k < i ==> !self.passes(#[trigger] all@[k], test),
                forall|k: int| 0 <= k < all@.len() ==> node.0 < (#[trigger] all@[k]).0 < self.cst.nodes@.len(),
                pattern_node is Some ==> node.0 < pattern_node->Some_0.0 < self.cst.nodes@.len(),
            ensures
                pattern_node is Some ==> pattern_node == self.first_passing(all@, test),
                pattern_node is None ==> forall|k: int| 0 <= k < all@.len() ==> !self.passes(#[trigger] all@[k], test),
            decreases all@.len() - i,
        {
            let c = all[i];
            if self.is_pattern(c) && self.cst.nodes[c.0].end <= arrow_start {
                proof {
                    self.lemma_first_passing_skip(all@, test, i as int);
                    assert(all@.subrange(i as int, all@.len() as int)[0] == c);
                }
                pattern_node = Some(c);
                break;
            }
            i = i + 1;
        }
        proof {
            if pattern_node is None {
                self.lemma_first_passing_skip(all@, test, all@.len() as int);
            }
        }
        let pattern_node = match pattern_node {
            Some(p) => p,
            None => return Err(self.error(node, "match arm has no pattern")),
        };
        let value_node = match self.find_expression(node, Some(arrow_start), None) {
            Some(v) => v,
            None => return Err(self.error(node, "match arm has no value")),
        };
        let pattern = match self.pattern(pattern_node) {
            Ok(p) => p,
            Err(d) => return Err(d),
        };
        let value = match self.expression(value_node) {
            Ok(e) => e,
            Err(d) => return Err(d),
        };
        Ok(located(MatchArmKind { pattern, value }, self.location(node)))
    }

    /// `true` when the text of `node` is `_`.
    pub fn is_underscore(&self, node: NodeRef) -> (b: bool)
        requires
            self.wf(),
            self.has(node),
        ensures
            b == (self.spec_text_bytes(node) == seq![95u8]),
    {
        let t = self.text(node).as_bytes();
        proof {
            if t@.len() == 1 && t@[0] == 95u8 {
                assert(t@ =~= seq![95u8]);
            }
        }
        t.len() == 1 && t[0] == 95u8
    }

    /// Lowers a pattern node.
    pub fn pattern(&self, node: NodeRef) -> (r: Result<Pattern, Diagnostic>)
        requires
            self.wf(),
            self.has(node),
        ensures
            r is Ok <==> self.pattern_ok(node),
            r is Ok ==> r->Ok_0.location == self.spec_location(node),
        decreases self.rank(node), 9int,
    {
        let location = self.location(node);
        let rule = match self.kind(node) {
            NodeKind::Token(t) => {
                let inner = if t == Token::Identifier || t == Token::Placeholder {
                    if self.is_underscore(node) {
                        PatternKind::Wildcard
                    } else {
                        PatternKind::Binding(self.identifier(node))
                    }
                } else if t == Token::Int {
                    match self.int_value(node) {
                        Ok(v) => PatternKind::Int(v),
                        Err(_) => return Err(self.error(node, "invalid Int pattern")),
                    }
                } else if t == Token::Float {
                    PatternKind::Float(self.float_text(node))
                } else if t == Token::Atom {
                    PatternKind::Atom(self.atom_text(node))
                } else {
                    return Err(self.error(node, "expected pattern token"));
                };
                return Ok(located(inner, location));
            },
            NodeKind::Rule(r) => r,
        };
        let inner = if rule == Rule::IdentifierPattern {
            if self.first_token_opt(node, Token::Placeholder).is_some() {
                PatternKind::Wildcard
            } else {
                match self.first_token(node, Token::Identifier, "missing Identifier") {
                    Ok(n) => PatternKind::Binding(self.identifier(n)),
                    Err(d) => return Err(d),
                }
            }
        } else if rule == Rule::IntPattern {
            match self.first_token(node, Token::Int, "missing Int") {
                Ok(n) => match self.int_value(n) {
                    Ok(v) => PatternKind::Int(v),
                    Err(_) => return Err(self.error(node, "invalid Int pattern")),
                },
                Err(d) => return Err(d),
            }
        } else if rule == Rule::FloatPattern {
            match self.first_token(node, Token::Float, "missing Float") {
                Ok(n) => PatternKind::Float(self.float_text(n)),
                Err(d) => return Err(d),
            }
        } else if rule == Rule::StringPattern {
            let string = match self.find_rule(node, Rule::StringLiteral) {
                Some(s) => s,
                None => return Err(self.error(node, "string pattern has no literal")),
            };
            match self.plain_string(string, "string pattern") {
                Ok(text) => PatternKind::String(text),
                Err(d) => return Err(d),
            }
        } else if rule == Rule::AtomPattern {
            match self.first_token(node, Token::Atom, "missing Atom") {
                Ok(n) => PatternKind::Atom(self.atom_text(n)),
                Err(d) => return Err(d),
            }
        } else if rule == Rule::TaggedPattern {
            let tag = match self.first_token(node, Token::Atom, "missing Atom") {
                Ok(n) => self.atom_text(n),
                Err(d) => return Err(d),
            };
            let all = self.children(node);
            let mut payload_node: Option<NodeRef> = None;
            let mut i: usize = 0;
            proof {
                assert(all@.subrange(0, all@.len() as int) =~= all@);
            }
            while i < all.len()
                invariant_except_break
                    payload_node is None,
                    self.first_passing(all@, NodeTest::Payload) == self.first_passing(
                        all@.subrange(i as int, all@.len() as int),
                        NodeTest::Payload,
                    ),
                invariant
                    self.has(node),
                    i <= all@.len(),
                    all@ == self.spec_children(node),
                    forall|k: int| 0 <= k < all@.len() ==> node.0 < (#[trigger] all@[k]).0 < self.cst.nodes@.len(),
                ensures
                    payload_node == self.first_passing(all@, NodeTest::Payload),
                    payload_node is Some ==> node.0 < payload_node->Some_0.0 < self.cst.nodes@.len(),
                decreases all@.len() - i,
            {
                let c = all[i];
                let ghost sub = all@.subrange(i as int, all@.len() as int);
                proof {
                    assert(sub[0] == all@[i as int]);
                    assert(sub.subrange(1, sub.len() as int) =~= all@.subrange(i + 1, all@.len() as int));
                }
                if !self.is_token(c, Token::Atom) && self.is_pattern(c) {
                    payload_node = Some(c);
                    break;
                }
                i = i + 1;
            }
            match payload_node {
                Some(p) => match self.pattern(p) {
                    Ok(payload) => PatternKind::Tagged { tag, payload: Box::new(payload) },
                    Err(d) => return Err(d),
                },
                None => return Err(self.error(node, "tagged pattern has no payload")),
            }
        } else if rule == Rule::TuplePattern {
            let all = self.children(node);
            let mut items: Vec<Pattern> = Vec::new();
            let mut i: usize = 0;
            while i < all.len()
                invariant
                    self.wf(),
                    self.has(node),
                    i <= all@.len(),
                    all@ == self.spec_children(node),
                    self.cst.nodes@[node.0 as int].kind == NodeKind::Rule(Rule::TuplePattern),
                    forall|k: int|
                        0 <= k < i && spec_is_pattern(self.cst.nodes@[all@[k].0 as int].kind) ==> self.pattern_ok(
                            #[trigger] all@[k],
                        ),
                    forall|k: int| 0 <= k < all@.len() ==> node.0 < (#[trigger] all@[k]).0 < self.cst.nodes@.len(),
                decreases all@.len() - i,
            {
                if self.is_pattern(all[i]) {
                    match self.pattern(all[i]) {
                        Ok(p) => items.push(p),
                        Err(d) => {
                            proof {
                                assert(!self.pattern_ok(all@[i as int]));
                                assert(self.cst.nodes@[node.0 as int].kind == NodeKind::Rule(Rule::TuplePattern));
                                assert(spec_is_pattern(self.cst.nodes@[all@[i as int].0 as int].kind));
                                assert(node.0 < all@[i as int].0 < self.cst.nodes@.len());
                                assert(!self.pattern_ok(node));
                            }
                            return Err(d);
                        },
                    }
                }
                i = i + 1;
            }
            PatternKind::Tuple(items)
        } else {
            return Err(self.error(node, "unexpected pattern rule"));
        };
        Ok(located(inner, location))
    }

    /// Appends the text, escape and interpolation pieces of a string
    /// literal below `node`, in order.
    pub fn collect_string_components(&self, node: NodeRef, out: &mut Vec<NodeRef>)
        requires
            self.has(node),
        ensures
            final(out)@ == old(out)@ + self.spec_pieces(node),
            final(out)@.len() >= old(out)@.len(),
            forall|k: int| 0 <= k < old(out)@.len() ==> final(out)@[k] == old(out)@[k],
            forall|k: int|
                old(out)@.len() <= k < final(out)@.len() ==> node.0 <= (#[trigger] final(out)@[k]).0
                    < self.cst.nodes@.len(),
        decreases self.rank(node), 0int,
    {
        match self.kind(node) {
            NodeKind::Token(t) => {
                if t == Token::StringText || t == Token::EscapeSequence {
                    out.push(node);
                } else {
                    assert(out@ =~= old(out)@ + self.spec_pieces(node));
                }
            },
            NodeKind::Rule(r) => {
                if r == Rule::Interpolation {
                    out.push(node);
                } else {
                    let all = self.children(node);
                    let mut i: usize = 0;
                    proof {
                        assert(all@.subrange(0, all@.len() as int) =~= all@);
                        assert(out@ + self.pieces_of(all@, node) =~= old(out)@ + self.spec_pieces(node));
                    }
                    while i < all.len()
                        invariant
                            self.has(node),
                            i <= all@.len(),
                            all@ == self.spec_children(node),
                            old(out)@ + self.spec_pieces(node) == out@ + self.pieces_of(
                                all@.subrange(i as int, all@.len() as int),
                                node,
                            ),
                            forall|k: int| 0 <= k < all@.len() ==> node.0 < (#[trigger] all@[k]).0 < self.cst.nodes@.len(),
                            out@.len() >= old(out)@.len(),
                            forall|k: int| 0 <= k < old(out)@.len() ==> out@[k] == old(out)@[k],
                            forall|k: int|
                                old(out)@.len() <= k < out@.len() ==> node.0 <= (#[trigger] out@[k]).0
                                    < self.cst.nodes@.len(),
                        decreases all@.len() - i,
                    {
                        let ghost sub = all@.subrange(i as int, all@.len() as int);
                        let ghost before = out@;
                        proof {
                            assert(sub[0] == all@[i as int]);
                            assert(sub.subrange(1, sub.len() as int) =~= all@.subrange(i + 1, all@.len() as int));
                        }
                        self.collect_string_components(all[i], out);
                        proof {
                            let rest = self.pieces_of(all@.subrange(i + 1, all@.len() as int), node);
                            assert(before + (self.spec_pieces(all@[i as int]) + rest) =~= out@ + rest);
                        }
                        i = i + 1;
                    }
                    proof {
                        assert(all@.subrange(i as int, all@.len() as int) =~= Seq::<NodeRef>::empty());
                        assert(out@ + Seq::<NodeRef>::empty() =~= out@);
                    }
                }
            },
        }
    }

    /// The text a string piece stands for: its text, or its escape decoded.
    pub fn decode_string_component(&self, node: NodeRef) -> (r: Result<String, Diagnostic>)
        requires
            self.wf(),
            self.has(node),
        ensures
            match self.spec_component(node) {
                Ok(c) => r is Ok && r->Ok_0@ == c,
                Err(m) => r is Err && r->Err_0.message@ == m && r->Err_0.labels@.len() == 1
                    && r->Err_0.labels@[0].location == self.spec_location(node),
            },
    {
        if self.is_token(node, Token::StringText) {
            let text = self.text(node);
            proof {
                vstd::utf8::encode_utf8_decode_utf8(text@);
            }
            Ok(String::from_str(text))
        } else if self.is_token(node, Token::EscapeSequence) {
            let t = self.text(node).as_bytes();
            if t.len() < 2 {
                return Err(self.error(node, "unsupported escape"));
            }
            match escape(t[1]) {
                Some(b) => {
                    let mut v: Vec<u8> = Vec::new();
                    v.push(b);
                    let piece = crate::text::ascii_string(v);
                    proof {
                        assert(piece@ =~= seq![b as char]);
                    }
                    Ok(piece)
                },
                None => Err(Diagnostic::error(escape_message(EscapeError::Unsupported(t[1])), self.location(node))),
            }
        } else {
            Err(self.error(node, "expected string text or escape"))
        }
    }

    /// The pieces decoded and concatenated.
    pub fn decode_string_components(&self, components: &Vec<NodeRef>) -> (r: Result<String, Diagnostic>)
        requires
            self.wf(),
            forall|k: int| 0 <= k < components@.len() ==> (#[trigger] components@[k]).0 < self.cst.nodes@.len(),
        ensures
            match self.spec_components(components@) {
                Ok(c) => r is Ok && r->Ok_0@ == c,
                Err((m, n)) => r is Err && r->Err_0.message@ == m && r->Err_0.labels@.len() == 1
                    && r->Err_0.labels@[0].location == self.spec_location(n),
            },
    {
        let ghost cs = components@;
        let mut out = String::new();
        let mut i: usize = 0;
        proof {
            assert(cs.subrange(0, cs.len() as int) =~= cs);
            match self.spec_components(cs) {
                Ok(c) => {
                    assert(out@ + c =~= c);
                },
                Err(_) => {},
            }
        }
        while i < components.len()
            invariant
                self.wf(),
                cs == components@,
                i <= components@.len(),
                forall|k: int| 0 <= k < components@.len() ==> (#[trigger] components@[k]).0 < self.cst.nodes@.len(),
                self.spec_components(cs) == (match self.spec_components(cs.subrange(i as int, cs.len() as int)) {
                    Ok(rest) => Ok(out@ + rest),
                    Err(e) => Err(e),
                }),
            decreases components@.len() - i,
        {
            let ghost sub = cs.subrange(i as int, cs.len() as int);
            proof {
                assert(sub[0] == cs[i as int]);
                assert(sub.subrange(1, sub.len() as int) =~= cs.subrange(i + 1, cs.len() as int));
            }
            let ghost before = out@;
            match self.decode_string_component(components[i]) {
                Ok(piece) => {
                    out.append(piece.as_str());
                    proof {
                        match self.spec_components(cs.subrange(i + 1, cs.len() as int)) {
                            Ok(rest) => {
                                assert(before + (piece@ + rest) =~= out@ + rest);
                            },
                            Err(_) => {},
                        }
                    }
                },
                Err(d) => return Err(d),
            }
            i = i + 1;
        }
        proof {
            assert(cs.subrange(i as int, cs.len() as int) =~= Seq::<NodeRef>::empty());
            assert(out@ + Seq::<char>::empty() =~= out@);
        }
        Ok(out)
    }

    /// A string literal without interpolations, decoded; an interpolation is
    /// reported as not allowed in `context`.
    pub fn plain_string(&self, node: NodeRef, context: &str) -> (r: Result<String, Diagnostic>)
        requires
            self.wf(),
            self.has(node),
        ensures
            match self.first_passing(self.spec_pieces(node), NodeTest::IsRule(Rule::Interpolation)) {
                Some(c) => r is Err && r->Err_0.message@ == "interpolation is not allowed in "@ + context@
                    && r->Err_0.labels@.len() == 1 && r->Err_0.labels@[0].location == self.spec_location(c),
                None => match self.spec_components(self.spec_pieces(node)) {
                    Ok(v) => r is Ok && r->Ok_0@ == v,
                    Err((m, n)) => r is Err && r->Err_0.message@ == m && r->Err_0.labels@.len() == 1
                        && r->Err_0.labels@[0].location == self.spec_location(n),
                },
            },
        decreases self.rank(node), 8int,
    {
        let mut components: Vec<NodeRef> = Vec::new();
        self.collect_string_components(node, &mut components);
        proof {
            assert(components@ =~= self.spec_pieces(node));
        }
        let mut i: usize = 0;
        while i < components.len()
            invariant
                self.wf(),
                i <= components@.len(),
                components@ == self.spec_pieces(node),
                forall|k: int| 0 <= k < i ==> !self.passes(#[trigger] components@[k], NodeTest::IsRule(Rule::Interpolation)),
                forall|k: int| 0 <= k < components@.len() ==> (#[trigger] components@[k]).0 < self.cst.nodes@.len(),
            decreases components@.len() - i,
        {
            if self.rule(components[i]) == Some(Rule::Interpolation) {
                proof {
                    self.lemma_first_passing_skip(components@, NodeTest::IsRule(Rule::Interpolation), i as int);
                }
                let mut message = String::from_str("interpolation is not allowed in ");
                message.append(context);
                return Err(Diagnostic::error(message, self.location(components[i])));
            }
            i = i + 1;
        }
        proof {
            self.lemma_first_passing_skip(components@, NodeTest::IsRule(Rule::Interpolation), i as int);
        }
        self.decode_string_components(&components)
    }

    /// A string expression: a plain string, or text and interpolated
    /// expressions in order.
    pub fn string_expression(&self, node: NodeRef) -> (r: Result<Expr, Diagnostic>)
        requires
            self.wf(),
            self.has(node),
        ensures
            r is Ok <==> self.string_expr_ok(node),
            r is Ok ==> r->Ok_0.location == self.spec_location(node),
            r matches Ok(e) ==> self.string_shape(node, e),
        decreases self.rank(node), 9int,
    {
        let literal = match self.find_rule(node, Rule::StringLiteral) {
            Some(l) => l,
            None => return Err(self.error(node, "string expression has no literal")),
        };
        let mut components: Vec<NodeRef> = Vec::new();
        self.collect_string_components(literal, &mut components);
        let ghost ps = self.spec_pieces(literal);
        let ghost interp = NodeTest::IsRule(Rule::Interpolation);
        proof {
            assert(components@ =~= ps);
        }
        let mut interpolated = false;
        let mut i: usize = 0;
        while i < components.len()
            invariant
                i <= components@.len(),
                components@ == ps,
                interp == NodeTest::IsRule(Rule::Interpolation),
                forall|k: int| 0 <= k < components@.len() ==> literal.0 <= (#[trigger] components@[k]).0 < self.cst.nodes@.len(),
                !interpolated ==> forall|k: int| 0 <= k < i ==> !self.passes(#[trigger] components@[k], interp),
                interpolated ==> self.first_passing(ps, interp) is Some,
            decreases components@.len() - i,
        {
            if self.rule(components[i]) == Some(Rule::Interpolation) {
                proof {
                    self.lemma_first_passing_some(ps, interp, i as int);
                }
                interpolated = true;
            }
            i = i + 1;
        }
        if !interpolated {
            proof {
                self.lemma_first_passing_skip(ps, interp, i as int);
            }
            return match self.decode_string_components(&components) {
                Ok(text) => Ok(located(ExprKind::String(text), self.location(node))),
                Err(d) => Err(d),
            };
        }
        let mut parts: Vec<StringPart> = Vec::new();
        let mut i: usize = 0;
        while i < components.len()
            invariant
                self.wf(),
                self.has(node),
                node.0 < literal.0,
                i <= components@.len(),
                components@ == ps,
                interp == NodeTest::IsRule(Rule::Interpolation),
                ps == self.spec_pieces(literal),
                Some(literal) == self.first_passing(self.spec_children(node), NodeTest::IsRule(Rule::StringLiteral)),
                self.first_passing(ps, interp) is Some,
                parts@.len() == i,
                forall|k: int| 0 <= k < i ==> node.0 < ps[k].0 < self.cst.nodes@.len() && self.piece_shape(ps[k], #[trigger] parts@[k]),
                forall|k: int| 0 <= k < components@.len() ==> literal.0 <= (#[trigger] components@[k]).0 < self.cst.nodes@.len(),
                forall|k: int| 0 <= k < i ==> if self.passes(#[trigger] ps[k], interp) {
                    match self.expr_after(ps[k], None, None) {
                        Some(e) => self.below(node, e) && self.expr_ok(e),
                        None => false,
                    }
                } else {
                    self.spec_component(ps[k]) is Ok
                },
            decreases components@.len() - i,
        {
            let c = components[i];
            proof {
                assert(ps[i as int] == c);
            }
            if self.rule(c) == Some(Rule::Interpolation) {
                assert(self.passes(ps[i as int], interp));
                let e = match self.find_expression(c, None, None) {
                    Some(e) => e,
                    None => return Err(self.error(c, "interpolation has no expression")),
                };
                match self.expression(e) {
                    Ok(expression) => {
                        let at = expression.location;
                        parts.push(located(StringPartKind::Expression(expression), at));
                    },
                    Err(d) => return Err(d),
                }
            } else {
                match self.decode_string_component(c) {
                    Ok(text) => parts.push(located(StringPartKind::Text(text), self.location(c))),
                    Err(d) => return Err(d),
                }
            }
            i = i + 1;
        }
        Ok(located(ExprKind::InterpolatedString(parts), self.location(node)))
    }

    /// The program: the block of the root's body.
    pub fn program(&self) -> (r: Result<Program, Diagnostic>)
        requires
            self.wf(),
            self.cst.nodes@.len() > 0,
        ensures
            r is Ok <==> (self.program_body() matches Some(b) && self.block_ok(b)),
            r is Ok ==> r->Ok_0.location == self.spec_location(NodeRef(0)),
            r matches Ok(p) ==> self.program_body() matches Some(b) && self.block_shape(b, p.value.body),
    {
        let root = NodeRef(0);
        let body = match self.find_rule(root, Rule::Body) {
            Some(b) => b,
            None => match self.first_rule(root) {
                Some(b) => b,
                None => return Err(self.error(root, "program has no body")),
            },
        };
        match self.block_body(body) {
            Ok(block) => Ok(located(ProgramKind { body: block }, self.location(root))),
            Err(d) => Err(d),
        }
    }

    /// Lowers every binding and result expression of the root body on its
    /// own, and reports each failure once.
    pub fn recover(&self, diagnostics: &mut Vec<Diagnostic>) -> (rp: RecoveredProgram)
        requires
            self.wf(),
            self.cst.nodes@.len() > 0,
        ensures
            rp.location == self.spec_location(NodeRef(0)),
            rp.bindings@.len() == self.lowered_binding_nodes(self.recovery_nodes()).len(),
            forall|k: int| 0 <= k < rp.bindings@.len() ==> self.binding_shape(
                self.lowered_binding_nodes(self.recovery_nodes())[k],
                #[trigger] rp.bindings@[k],
            ),
            ({
                let xs = self.all_passing(self.recovery_nodes(), NodeTest::Expression(None, None));
                &&& rp.result is Some <==> (xs.len() > 0 && self.expr_ok(xs.last()))
                &&& rp.result matches Some(e) ==> xs.len() > 0 && self.lowered_shape(xs.last(), e)
            }),
            final(diagnostics)@.len() >= old(diagnostics)@.len(),
            forall|k: int| 0 <= k < old(diagnostics)@.len() ==> final(diagnostics)@[k] == old(diagnostics)@[k],
            (forall|k: int| 0 <= k < self.recovery_nodes().len() ==> !self.recovery_fails(
                #[trigger] self.recovery_nodes()[k],
            )) ==> final(diagnostics)@ == old(diagnostics)@,
            (exists|k: int| 0 <= k < self.recovery_nodes().len() && self.recovery_fails(
                #[trigger] self.recovery_nodes()[k],
            )) && old(diagnostics)@.len() == 0 ==> final(diagnostics)@.len() > 0,
            final(diagnostics)@.len() <= old(diagnostics)@.len() + self.recovery_nodes().len(),
            forall|i: int, j: int|
                0 <= i < j < final(diagnostics)@.len() && old(diagnostics)@.len() <= j ==> !same_report(
                    #[trigger] final(diagnostics)@[i],
                    #[trigger] final(diagnostics)@[j],
                ),
    {
        let root = NodeRef(0);
        let location = self.location(root);
        let body = match self.find_rule(root, Rule::Body) {
            Some(b) => b,
            None => return RecoveredProgram { location, bindings: Vec::new(), result: None },
        };
        let all = self.children(body);
        let mut bindings: Vec<Binding> = Vec::new();
        let mut result: Option<Expr> = None;
        let mut i: usize = 0;
        proof {
            assert(all@.subrange(0, 0) =~= Seq::<NodeRef>::empty());
        }
        while i < all.len()
            invariant
                self.wf(),
                self.has(body),
                i <= all@.len(),
                all@ == self.recovery_nodes(),
                bindings@.len() == self.lowered_binding_nodes(all@.subrange(0, i as int)).len(),
                forall|k: int| 0 <= k < bindings@.len() ==> self.binding_shape(
                    self.lowered_binding_nodes(all@.subrange(0, i as int))[k],
                    #[trigger] bindings@[k],
                ),
                ({
                    let xs = self.all_passing(all@.subrange(0, i as int), NodeTest::Expression(None, None));
                    &&& result is Some <==> (xs.len() > 0 && self.expr_ok(xs.last()))
                    &&& result matches Some(e) ==> xs.len() > 0 && self.lowered_shape(xs.last(), e)
                }),
                forall|k: int| 0 <= k < all@.len() ==> body.0 < (#[trigger] all@[k]).0 < self.cst.nodes@.len(),
                diagnostics@.len() >= old(diagnostics)@.len(),
                diagnostics@.len() <= old(diagnostics)@.len() + i,
                forall|k: int| 0 <= k < old(diagnostics)@.len() ==> diagnostics@[k] == old(diagnostics)@[k],
                (forall|k: int| 0 <= k < i ==> !self.recovery_fails(#[trigger] all@[k])) ==> diagnostics@
                    == old(diagnostics)@,
                (exists|k: int| 0 <= k < i && self.recovery_fails(#[trigger] all@[k])) && old(diagnostics)@.len()
                    == 0 ==> diagnostics@.len() > 0,
                forall|a: int, b: int|
                    0 <= a < b < diagnostics@.len() && old(diagnostics)@.len() <= b ==> !same_report(
                        #[trigger] diagnostics@[a],
                        #[trigger] diagnostics@[b],
                    ),
            decreases all@.len() - i,
        {
            let child = all[i];
            let ghost before = diagnostics@;
            let ghost pre = all@.subrange(0, i as int);
            let ghost post = all@.subrange(0, i + 1);
            let ghost pre_bindings = bindings@;
            proof {
                assert(all@[i as int] == child);
                assert(post.drop_last() =~= pre);
                assert(post.last() == child);
                self.lemma_all_passing_push(all@, NodeTest::Expression(None, None), i as int);
            }
            let r = self.rule(child);
            if r == Some(Rule::LetBinding) || r == Some(Rule::DeclBinding) || r == Some(
                Rule::DefBinding,
            ) || r == Some(Rule::NativeBinding) || r == Some(Rule::TypeBinding) || r == Some(
                Rule::ImportBinding,
            ) {
                match self.binding(child) {
                    Ok(b) => {
                        bindings.push(b);
                        proof {
                            let lp = self.lowered_binding_nodes(pre);
                            assert(self.lowered_binding_nodes(post) == lp + seq![child]);
                            assert forall|k: int| 0 <= k < bindings@.len() implies self.binding_shape(
                                self.lowered_binding_nodes(post)[k],
                                #[trigger] bindings@[k],
                            ) by {
                                if k < pre_bindings.len() {
                                    assert(bindings@[k] == pre_bindings[k]);
                                }
                            }
                        }
                    },
                    Err(d) => {
                        push_unique_diagnostic(diagnostics, d);
                        proof {
                            assert(self.lowered_binding_nodes(post) =~= self.lowered_binding_nodes(pre));
                        }
                    },
                }
            } else if self.is_expression(child) {
                proof {
                    assert(self.lowered_binding_nodes(post) =~= self.lowered_binding_nodes(pre));
                }
                match self.expression(child) {
                    Ok(e) => {
                        result = Some(e);
                    },
                    Err(d) => {
                        result = None;
                        push_unique_diagnostic(diagnostics, d);
                    },
                }
            } else {
                proof {
                    assert(self.lowered_binding_nodes(post) =~= self.lowered_binding_nodes(pre));
                }
            }
            i = i + 1;
        }
        proof {
            assert(all@.subrange(0, i as int) =~= all@);
        }
        RecoveredProgram { location, bindings, result }
    }
}

/// What recovery keeps of a damaged program: the bindings of its body that
/// lower, in order, and its result expression if that lowers.
#[derive(Debug)]
pub struct RecoveredProgram {
    pub location: Location,
    pub bindings: Vec<Binding>,
    pub result: Option<Expr>,
}

/// `a` and `b` have the same message and the same first location.
pub open spec fn same_report(a: Diagnostic, b: Diagnostic) -> bool {
    &&& a.message@ == b.message@
    &&& a.labels@.len() > 0
    &&& b.labels@.len() > 0
    &&& a.labels@[0].location == b.labels@[0].location
}

/// Appends `d` unless a diagnostic with its message and first location is
/// already there.
pub fn push_unique_diagnostic(diagnostics: &mut Vec<Diagnostic>, d: Diagnostic)
    ensures
        final(diagnostics)@.len() >= old(diagnostics)@.len(),
        forall|k: int| 0 <= k < old(diagnostics)@.len() ==> final(diagnostics)@[k] == old(diagnostics)@[k],
        (exists|k: int| 0 <= k < old(diagnostics)@.len() && same_report(#[trigger] old(diagnostics)@[k], d))
            ==> final(diagnostics)@ == old(diagnostics)@,
        !(exists|k: int| 0 <= k < old(diagnostics)@.len() && same_report(#[trigger] old(diagnostics)@[k], d))
            ==> final(diagnostics)@ == old(diagnostics)@.push(d),
{
    let mut i: usize = 0;
    while i < diagnostics.len()
        invariant
            i <= diagnostics@.len(),
            diagnostics@ == old(diagnostics)@,
            forall|k: int| 0 <= k < i ==> !same_report(#[trigger] diagnostics@[k], d),
        decreases diagnostics@.len() - i,
    {
        let existing = &diagnostics[i];
        if existing.message == d.message && existing.labels.len() > 0 && d.labels.len() > 0
            && existing.labels[0].location == d.labels[0].location {
            return;
        }
        i = i + 1;
    }
    diagnostics.push(d);
}

/// The diagnostic whose first label starts earliest (the first such one),
/// as reported by [`parse`].
pub fn earliest_diagnostic(diagnostics: &Vec<Diagnostic>) -> (k: usize)
    requires
        diagnostics@.len() > 0,
    ensures
        k < diagnostics@.len(),
        forall|j: int| 0 <= j < diagnostics@.len() ==> label_start(#[trigger] diagnostics@[j]) >= label_start(diagnostics@[k as int]),
        forall|j: int| 0 <= j < k ==> label_start(#[trigger] diagnostics@[j]) > label_start(diagnostics@[k as int]),
{
    let mut best: usize = 0;
    let mut i: usize = 1;
    while i < diagnostics.len()
        invariant
            best < i <= diagnostics@.len(),
            forall|j: int| 0 <= j < i ==> label_start(#[trigger] diagnostics@[j]) >= label_start(diagnostics@[best as int]),
            forall|j: int| 0 <= j < best ==> label_start(#[trigger] diagnostics@[j]) > label_start(diagnostics@[best as int]),
        decreases diagnostics@.len() - i,
    {
        if start_of(&diagnostics[i]) < start_of(&diagnostics[best]) {
            best = i;
        }
        i = i + 1;
    }
    best
}

/// Where a diagnostic starts: its first label's start, or 0.
pub open spec fn label_start(d: Diagnostic) -> int {
    if d.labels@.len() > 0 {
        d.labels@[0].location.range.start as int
    } else {
        0
    }
}

pub fn start_of(d: &Diagnostic) -> (s: u32)
    ensures
        s == label_start(*d),
{
    if d.labels.len() > 0 {
        d.labels[0].location.range.start
    } else {
        0
    }
}

/// What lowering the parse `parsed` of `source` yields: a program exactly
/// when the parse has no diagnostic, every binding and expression of the root
/// body lowers on its own, and the program body lowers, and then the block of
/// that body; otherwise an error
/// named after the source, at or before every diagnostic of the parse, and,
/// where recovery added none, the message and offset of one of them.
pub open spec fn lowering_result(
    source_name: Seq<char>,
    source: &str,
    parsed: Parse<CstData>,
    r: Result<Program, FrontendError>,
) -> bool {
    let l = Lowerer { source_id: SourceId(0), src: source, cst: &parsed.syntax };
    let clean = forall|k: int|
        0 <= k < l.recovery_nodes().len() ==> !l.recovery_fails(#[trigger] l.recovery_nodes()[k]);
    &&& r is Ok <==> (parsed.diagnostics@.len() == 0 && clean && (l.program_body() matches Some(b) && l.block_ok(b)))
    &&& r matches Ok(p) ==> p.location == l.spec_location(NodeRef(0)) && (l.program_body() matches Some(b) && l.block_shape(
        b,
        p.value.body,
    ))
    &&& r matches Err(e) ==> {
        &&& e.source_name@ == source_name
        &&& forall|j: int|
            0 <= j < parsed.diagnostics@.len() ==> e.location.offset <= label_start(#[trigger] parsed.diagnostics@[j])
        &&& parsed.diagnostics@.len() > 0 && clean ==> exists|j: int|
            0 <= j < parsed.diagnostics@.len() && e.message@ == (#[trigger] parsed.diagnostics@[j]).message@
                && e.location.offset == label_start(parsed.diagnostics@[j])
    }
}

/// Lowers the parse of a named source, registered as the first source of a
/// database. On failure, the error is the diagnostic that starts earliest,
/// located by line and column.
pub fn lower_parse(source_name: &str, source: &str, parsed: Parse<CstData>) -> (r: Result<Program, FrontendError>)
    requires
        source.spec_bytes().len() <= u32::MAX,
        parsed.syntax.nodes@.len() > 0,
        forall|q: int|
            0 <= q < parsed.syntax.nodes@.len() ==> (#[trigger] parsed.syntax.nodes@[q]).start
                <= parsed.syntax.nodes@[q].end <= source.spec_bytes().len(),
    ensures
        lowering_result(source_name@, source, parsed, r),
{
    let mut sources = SourceDatabase::new();
    let id = sources.add(source_name, source);
    let lowerer = Lowerer { source_id: id, src: source, cst: &parsed.syntax };
    let mut diagnostics = parsed.diagnostics;
    let _recovered = lowerer.recover(&mut diagnostics);
    if diagnostics.len() == 0 {
        match lowerer.program() {
            Ok(program) => return Ok(program),
            Err(d) => diagnostics.push(d),
        }
    }
    let k = earliest_diagnostic(&diagnostics);
    let d = &diagnostics[k];
    let offset = start_of(d);
    let file = sources.get(id);
    let (line, column) = if file.is_boundary(offset) && file.len() < usize::MAX {
        let p = file.position(offset);
        (p.line, p.column)
    } else {
        (1, 1)
    };
    Err(
        FrontendError::new(
            file.file_name_str().clone(),
            SourceLocation { offset: offset as usize, line, column },
            d.message.clone(),
        ),
    )
}

/// Parses and lowers a named XL source. On failure, the error is the
/// diagnostic that starts earliest, located by line and column. The result
/// is the lowering of a parse of the source: one whose tree has the
/// source's tokens as its leaves, under a `Program` root.
pub fn parse(source_name: &str, source: &str) -> (r: Result<Program, FrontendError>)
    requires
        source.spec_bytes().len() <= u32::MAX,
    ensures
        r is Err ==> r->Err_0.source_name@ == source_name@,
        exists|p: Parse<CstData>|
            #[trigger] lowering_result(source_name@, source, p, r) && cst_leaves(p.syntax.nodes@) == lex(source.spec_bytes())
                && p.syntax.nodes@.len() > 0 && p.syntax.nodes@[0].kind == NodeKind::Rule(Rule::Program),
        forall|k: int|
            0 <= k < lex(source.spec_bytes()).len() && #[trigger] token_message(lex(source.spec_bytes())[k].0) is Some
                ==> (r matches Err(e) && e.location.offset <= lex(source.spec_bytes())[k].1),
{
    let parsed = crate::syntax::xl::parse(SourceId(0), source);
    let ghost p = parsed;
    let r = lower_parse(source_name, source, parsed);
    proof {
        assert(lowering_result(source_name@, source, p, r));
        let ts = lex(source.spec_bytes());
        assert forall|k: int| 0 <= k < ts.len() && #[trigger] token_message(ts[k].0) is Some implies (r matches Err(e)
            && e.location.offset <= ts[k].1) by {
            let j = choose|j: int|
                0 <= j < p.diagnostics@.len() && (#[trigger] p.diagnostics@[j]).message@ == token_message(ts[k].0)->Some_0
                    && p.diagnostics@[j].labels@[0].location.range.start == ts[k].1
                    && p.diagnostics@[j].labels@[0].location.range.end == ts[k].2;
            assert(label_start(p.diagnostics@[j]) == ts[k].1);
        }
    }
    r
}

} // verus!
