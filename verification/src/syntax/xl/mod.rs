//! The XL surface syntax.

pub mod lexer;
pub mod parser;

use vstd::prelude::*;
use vstd::string::StringSliceAdditionalSpecFns;
use crate::semantic::{key_lt, sorts_before, stable_order, stable_order_of, take_in_order};
use crate::source::{Diagnostic, Severity, SourceId};
use crate::syntax::{convert_diagnostics, Parse, SyntaxError};
use crate::syntax::xl::lexer::{lex, token_message, tokenize};
use crate::syntax::tree::{
    build_tree, cst_leaves, lemma_leaf_texts_tiles, lemma_tiles_bounds, leaf_texts, tiles,
    tokens_view, upto,
};
use crate::syntax::xl::parser::{parse_program, CstData, NodeKind, Parser, Rule};
use crate::text::bytes_of;

verus! {

/// Where a diagnostic starts: its first label's start, or the largest offset
/// when it has no label.
pub open spec fn diagnostic_start(d: Diagnostic) -> u32 {
    if d.labels@.len() > 0 {
        d.labels@[0].location.range.start
    } else {
        u32::MAX
    }
}

/// The diagnostics sorted by where they start, those that start at the same
/// offset kept in their order.
fn sort_by_start(ds: Vec<Diagnostic>) -> (r: (Vec<Diagnostic>, Ghost<Seq<usize>>))
    ensures
        r.0@.len() == ds@.len(),
        r.1@.len() == ds@.len(),
        forall|i: int, j: int| 0 <= i < j < r.0@.len() ==> diagnostic_start(#[trigger] r.0@[i]) <= diagnostic_start(#[trigger] r.0@[j]),
        forall|k: int| 0 <= k < r.0@.len() ==> r.1@[k] < ds@.len() && #[trigger] r.0@[k] == ds@[r.1@[k] as int],
        ds@.len() <= usize::MAX,
        forall|j: int| 0 <= j < ds@.len() ==> #[trigger] r.1@.contains(j as usize),
{
    let ghost d0 = ds@;
    let mut keys: Vec<(u32, u32, u32, u32)> = Vec::new();
    let mut i: usize = 0;
    while i < ds.len()
        invariant
            d0 == ds@,
            i <= ds@.len(),
            keys@.len() == i,
            forall|k: int| 0 <= k < i ==> #[trigger] keys@[k] == (diagnostic_start(d0[k]), 0u32, 0u32, 0u32),
        decreases ds@.len() - i,
    {
        let start = if ds[i].labels.len() > 0 {
            ds[i].labels[0].location.range.start
        } else {
            u32::MAX
        };
        keys.push((start, 0, 0, 0));
        i = i + 1;
    }
    let order = stable_order_of(&keys);
    let r = take_in_order(ds, Ghost(keys@), &order);
    proof {
        assert forall|a: int, b: int| 0 <= a < b < r@.len() implies diagnostic_start(#[trigger] r@[a])
            <= diagnostic_start(#[trigger] r@[b]) by {
            assert(sorts_before(keys@, order@[a] as int, order@[b] as int));
        }
    }
    (r, Ghost(order@))
}

/// Parses an XL text into its concrete syntax tree and diagnostics.
///
/// The tree is lossless: its token leaves, in order, are the tokens of the
/// text, so their texts concatenated give back the text. Every invalid
/// token of the text has a diagnostic with its message at its span, and the
/// diagnostics are sorted by where they start.
pub fn parse(source_id: SourceId, source: &str) -> (r: Parse<CstData>)
    requires
        source.spec_bytes().len() <= u32::MAX,
    ensures
        cst_leaves(r.syntax.nodes@) == lex(source.spec_bytes()),
        leaf_texts(source.spec_bytes(), cst_leaves(r.syntax.nodes@)) == source.spec_bytes(),
        r.syntax.nodes@.len() > 0,
        r.syntax.nodes@[0].kind == NodeKind::Rule(Rule::Program),
        forall|q: int|
            0 <= q < r.syntax.nodes@.len() ==> (#[trigger] r.syntax.nodes@[q]).start
                <= r.syntax.nodes@[q].end <= source.spec_bytes().len(),
        forall|i: int|
            0 <= i < r.diagnostics@.len() ==> {
                &&& (#[trigger] r.diagnostics@[i]).severity == Severity::Error
                &&& r.diagnostics@[i].labels@.len() == 1
                &&& r.diagnostics@[i].labels@[0].primary
                &&& r.diagnostics@[i].labels@[0].location.source == source_id
                &&& r.diagnostics@[i].labels@[0].location.range.start
                    <= r.diagnostics@[i].labels@[0].location.range.end
                    <= source.spec_bytes().len()
            },
        forall|i: int, j: int|
            0 <= i < j < r.diagnostics@.len() ==> diagnostic_start(#[trigger] r.diagnostics@[i]) <= diagnostic_start(
                #[trigger] r.diagnostics@[j],
            ),
        forall|k: int|
            0 <= k < lex(source.spec_bytes()).len() && #[trigger] token_message(lex(source.spec_bytes())[k].0) is Some
                ==> exists|j: int|
                0 <= j < r.diagnostics@.len() && (#[trigger] r.diagnostics@[j]).message@ == token_message(
                    lex(source.spec_bytes())[k].0,
                )->Some_0 && r.diagnostics@[j].labels@[0].location.range.start == lex(source.spec_bytes())[k].1
                    && r.diagnostics@[j].labels@[0].location.range.end == lex(source.spec_bytes())[k].2,
{
    let src = bytes_of(source);
    let mut lexer_errors: Vec<SyntaxError> = Vec::new();
    let (tokens, spans) = tokenize(source, &mut lexer_errors);
    let ghost bytes = source.spec_bytes();
    let ghost ts = lex(bytes);
    proof {
        assert forall|k: int| 0 <= k < spans@.len() implies (#[trigger] spans@[k]).start
            <= spans@[k].end <= src@.len() by {
            assert(tokens_view(tokens@, spans@)[k] == ts[k]);
            lemma_tiles_bounds(ts, bytes.len() as int, k);
        }
        assert(upto(0) =~= Seq::<int>::empty());
    }
    let mut p = Parser { src, tokens, spans, pos: 0, events: Vec::new(), errors: Vec::new() };
    parse_program(&mut p);
    let n = p.src.len();
    let cst = build_tree(&p.events, &p.tokens, &p.spans, n);
    proof {
        lemma_leaf_texts_tiles(bytes, ts, bytes.len() as int);
        assert(bytes.subrange(0, bytes.len() as int) =~= bytes);
    }
    let ghost pp = p;
    let ghost errors = p.errors@;
    let ghost ptoks = p.tokens@;
    let ghost pspans = p.spans@;
    let converted = convert_diagnostics(source_id, p.errors);
    let ghost cv = converted@;
    let (diagnostics, Ghost(order)) = sort_by_start(converted);
    proof {
        assert forall|k: int|
            0 <= k < ts.len() && #[trigger] token_message(ts[k].0) is Some implies exists|j: int|
                0 <= j < diagnostics@.len() && (#[trigger] diagnostics@[j]).message@ == token_message(ts[k].0)->Some_0
                    && diagnostics@[j].labels@[0].location.range.start == ts[k].1
                    && diagnostics@[j].labels@[0].location.range.end == ts[k].2 by {
            assert(tokens_view(ptoks, pspans)[k] == ts[k]);
            assert(token_message(ptoks[k]) is Some);
            assert(pp.invalid_tokens_reported());
            assert(k < pp.pos);
            assert(token_message(pp.tokens@[k]) is Some);
            let e = choose|e: int|
                0 <= e < errors.len() && (#[trigger] errors[e]).span == pspans[k]
                    && errors[e].message@ == token_message(ptoks[k])->Some_0;
            assert(cv[e].message@ == errors[e].message@);
            assert(order.contains(e as usize));
            let j = choose|j: int| 0 <= j < order.len() && order[j] == e as usize;
            assert(diagnostics@[j] == cv[order[j] as int]);
            assert(diagnostics@[j] == cv[e]);
        }
    }
    Parse { syntax: cst, diagnostics }
}

} // verus!
