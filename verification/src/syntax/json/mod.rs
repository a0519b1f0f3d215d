//! The JSON surface syntax.

pub mod lexer;
pub mod parser;

use vstd::prelude::*;
use vstd::string::StringSliceAdditionalSpecFns;
use crate::source::{Severity, SourceId};
use crate::syntax::{convert_diagnostics, Parse, SyntaxError};
use crate::syntax::json::lexer::{errors_view, lex, token_diagnostics, tokenize};
use crate::syntax::json::parser::{parse_document, CstData, NodeKind, Parser, Rule};
use crate::syntax::tree::{
    build_tree, cst_leaves, lemma_leaf_texts_tiles, lemma_tiles_bounds, leaf_texts, tiles,
    tokens_view, upto,
};

verus! {

/// Parses a JSON text into its concrete syntax tree and diagnostics.
///
/// The tree is lossless: its token leaves, in order, are the tokens of the
/// text, so their texts concatenated give back the text. The diagnostics
/// begin with one `invalid token` for each invalid token, in text order;
/// those of the grammar follow.
pub fn parse(source_id: SourceId, source: &str) -> (r: Parse<CstData>)
    requires
        source.spec_bytes().len() <= u32::MAX,
    ensures
        cst_leaves(r.syntax.nodes@) == lex(source.spec_bytes()),
        leaf_texts(source.spec_bytes(), cst_leaves(r.syntax.nodes@)) == source.spec_bytes(),
        r.syntax.nodes@.len() > 0,
        r.syntax.nodes@[0].kind == NodeKind::Rule(Rule::Document),
        forall|q: int|
            0 <= q < r.syntax.nodes@.len() ==> (#[trigger] r.syntax.nodes@[q]).start
                <= r.syntax.nodes@[q].end <= source.spec_bytes().len(),
        token_diagnostics(lex(source.spec_bytes())).len() <= r.diagnostics@.len(),
        forall|i: int|
            0 <= i < token_diagnostics(lex(source.spec_bytes())).len() ==> {
                let d = #[trigger] token_diagnostics(lex(source.spec_bytes()))[i];
                &&& r.diagnostics@[i].message@ == d.0
                &&& r.diagnostics@[i].labels@[0].location.range.start == d.1
                &&& r.diagnostics@[i].labels@[0].location.range.end == d.2
            },
        forall|i: int|
            0 <= i < r.diagnostics@.len() ==> {
                &&& (#[trigger] r.diagnostics@[i]).severity == Severity::Error
                &&& r.diagnostics@[i].labels@.len() == 1
                &&& r.diagnostics@[i].labels@[0].primary
                &&& r.diagnostics@[i].labels@[0].location.source == source_id
                &&& r.diagnostics@[i].labels@[0].location.range.start
                    <= r.diagnostics@[i].labels@[0].location.range.end
                    <= source.spec_bytes().len()
            },
{
    let mut lexer_errors: Vec<SyntaxError> = Vec::new();
    let (tokens, spans) = tokenize(source, &mut lexer_errors);
    let ghost bytes = source.spec_bytes();
    let ghost ts = lex(bytes);
    let ghost td = token_diagnostics(ts);
    let len = source.as_bytes().len();
    proof {
        assert(errors_view(Seq::<SyntaxError>::empty()) =~= Seq::<(Seq<char>, int, int)>::empty());
        assert(errors_view(lexer_errors@) =~= td);
        assert forall|k: int| 0 <= k < spans@.len() implies (#[trigger] spans@[k]).start
            <= spans@[k].end <= len by {
            assert(tokens_view(tokens@, spans@)[k] == ts[k]);
            lemma_tiles_bounds(ts, bytes.len() as int, k);
        }
        assert(upto(0) =~= Seq::<int>::empty());
        lemma_token_diagnostics_bounds(ts, bytes.len() as int);
        assert forall|k: int| 0 <= k < lexer_errors@.len() implies (#[trigger] lexer_errors@[k]).span.start
            <= lexer_errors@[k].span.end <= len by {
            assert(errors_view(lexer_errors@)[k] == td[k]);
        }
    }
    let mut p = Parser { len, tokens, spans, pos: 0, events: Vec::new(), errors: lexer_errors };
    let ghost before = p.errors@;
    parse_document(&mut p);
    let cst = build_tree(&p.events, &p.tokens, &p.spans, len);
    proof {
        lemma_leaf_texts_tiles(bytes, ts, bytes.len() as int);
        assert(bytes.subrange(0, bytes.len() as int) =~= bytes);
        assert forall|i: int| 0 <= i < td.len() implies #[trigger] errors_view(p.errors@)[i] == td[i] by {
            assert(p.errors@[i] == before[i]);
            assert(errors_view(before)[i] == td[i]);
        }
    }
    let diagnostics = convert_diagnostics(source_id, p.errors);
    Parse { syntax: cst, diagnostics }
}

/// The diagnostics of tokens that tile `0..end` lie within it.
proof fn lemma_token_diagnostics_bounds(ts: Seq<(crate::syntax::json::lexer::Token, int, int)>, end: int)
    requires
        tiles(ts, 0, end),
    ensures
        forall|k: int|
            0 <= k < token_diagnostics(ts).len() ==> 0 <= (#[trigger] token_diagnostics(ts)[k]).1
                <= token_diagnostics(ts)[k].2 <= end,
    decreases ts.len(),
{
    if ts.len() > 0 {
        let init = ts.drop_last();
        let a = ts.last().1;
        assert forall|k: int| 0 <= k < ts.len() implies 0 <= (#[trigger] ts[k]).1 < ts[k].2 <= end by {
            lemma_tiles_bounds(ts, end, k);
        }
        if init.len() > 0 {
            assert(ts[ts.len() - 2].2 == a);
            assert forall|k: int| 0 <= k < init.len() - 1 implies #[trigger] init[k].2 == init[k + 1].1 by {
                assert(ts[k].2 == ts[k + 1].1);
            }
            assert forall|k: int| 0 <= k < init.len() implies #[trigger] init[k].1 < init[k].2 by {
                assert(ts[k].1 < ts[k].2);
            }
        }
        lemma_token_diagnostics_bounds(init, a);
        let rest = token_diagnostics(init);
        assert forall|k: int| 0 <= k < rest.len() implies 0 <= (#[trigger] rest[k]).1 <= rest[k].2 <= end by {
        }
    }
}

} // verus!
