//! Lossless syntax for XL and JSON sources: lexers, concrete syntax trees
//! and the diagnostics they produce.

pub mod scan;
pub mod tree;
pub mod xl;
pub mod json;

use std::ops::Range;
use vstd::prelude::*;
use crate::source::{Diagnostic, Label, Location, Severity, SourceId, TextRange};

verus! {

/// A byte range `start..end` of one text.
#[derive(Clone, Copy, Debug, PartialEq, Eq, Structural)]
pub struct Span {
    pub start: usize,
    pub end: usize,
}

impl Span {
    /// The span as a `Range`.
    pub fn range(self) -> (r: Range<usize>)
        ensures
            r.start == self.start && r.end == self.end,
    {
        Range { start: self.start, end: self.end }
    }
}

/// A diagnostic produced while lexing or parsing one text, located by a byte
/// span of that text.
#[derive(Clone, Debug)]
pub struct SyntaxError {
    pub message: String,
    pub span: Span,
}

/// A syntax tree together with the diagnostics collected while building it.
#[derive(Debug)]
pub struct Parse<T> {
    pub syntax: T,
    pub diagnostics: Vec<Diagnostic>,
}

/// `true` when some diagnostic is an error.
pub open spec fn spec_has_errors(diagnostics: Seq<Diagnostic>) -> bool {
    exists|i: int| 0 <= i < diagnostics.len() && diagnostics[i].severity == Severity::Error
}

impl<T> Parse<T> {
    pub fn has_errors(&self) -> (b: bool)
        ensures
            b == spec_has_errors(self.diagnostics@),
    {
        let mut i: usize = 0;
        while i < self.diagnostics.len()
            invariant
                i <= self.diagnostics@.len(),
                forall|j: int| 0 <= j < i ==> self.diagnostics@[j].severity != Severity::Error,
            decreases self.diagnostics@.len() - i,
        {
            if self.diagnostics[i].severity == Severity::Error {
                return true;
            }
            i = i + 1;
        }
        false
    }
}

/// Turns the syntax errors of one source into located error diagnostics with
/// one primary label each.
pub fn convert_diagnostics(source: SourceId, errors: Vec<SyntaxError>) -> (ds: Vec<Diagnostic>)
    requires
        forall|i: int|
            0 <= i < errors@.len() ==> (#[trigger] errors@[i]).span.start <= errors@[i].span.end
                <= u32::MAX,
    ensures
        ds@.len() == errors@.len(),
        forall|i: int|
            0 <= i < ds@.len() ==> {
                &&& (#[trigger] ds@[i]).severity == Severity::Error
                &&& ds@[i].message@ == errors@[i].message@
                &&& ds@[i].labels@.len() == 1
                &&& ds@[i].labels@[0].primary
                &&& ds@[i].labels@[0].location.source == source
                &&& ds@[i].labels@[0].location.range.start == errors@[i].span.start
                &&& ds@[i].labels@[0].location.range.end == errors@[i].span.end
                &&& ds@[i].notes@.len() == 0
            },
{
    let mut ds: Vec<Diagnostic> = Vec::new();
    let mut i: usize = 0;
    while i < errors.len()
        invariant
            i <= errors@.len(),
            ds@.len() == i,
            forall|k: int|
                0 <= k < errors@.len() ==> (#[trigger] errors@[k]).span.start
                    <= errors@[k].span.end <= u32::MAX,
            forall|k: int|
                0 <= k < i ==> {
                    &&& (#[trigger] ds@[k]).severity == Severity::Error
                    &&& ds@[k].message@ == errors@[k].message@
                    &&& ds@[k].labels@.len() == 1
                    &&& ds@[k].labels@[0].primary
                    &&& ds@[k].labels@[0].location.source == source
                    &&& ds@[k].labels@[0].location.range.start == errors@[k].span.start
                    &&& ds@[k].labels@[0].location.range.end == errors@[k].span.end
                    &&& ds@[k].notes@.len() == 0
                },
        decreases errors@.len() - i,
    {
        let e = &errors[i];
        let range = TextRange { start: e.span.start as u32, end: e.span.end as u32 };
        let location = Location { source, range };
        let mut labels: Vec<Label> = Vec::new();
        labels.push(Label { location, message: String::new(), primary: true });
        ds.push(
            Diagnostic {
                severity: Severity::Error,
                message: e.message.clone(),
                labels,
                notes: Vec::new(),
            },
        );
        i = i + 1;
    }
    ds
}

} // verus!
