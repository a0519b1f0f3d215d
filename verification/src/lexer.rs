//! Located front-end errors, as reported by the whole-program entry points.

use vstd::prelude::*;
use crate::source::{Diagnostic, SourceDatabase, SourceFile};
use crate::text::{decimal, push_decimal};

verus! {

/// A byte offset with its 1-based line and column.
#[derive(Clone, Copy, Debug, PartialEq, Eq, Structural)]
pub struct SourceLocation {
    pub offset: usize,
    pub line: usize,
    pub column: usize,
}

/// An error of the front end, located in a named source.
#[derive(Clone, Debug)]
pub struct FrontendError {
    pub source_name: String,
    pub location: SourceLocation,
    pub message: String,
    pub diagnostic: Option<Box<Diagnostic>>,
}

impl FrontendError {
    /// An error without an attached diagnostic.
    pub fn new(source_name: String, location: SourceLocation, message: String) -> (e: FrontendError)
        ensures
            e.source_name@ == source_name@,
            e.location == location,
            e.message@ == message@,
            e.diagnostic is None,
    {
        FrontendError { source_name, location, message, diagnostic: None }
    }

    /// The error located at the start of the first label of `diagnostic`.
    pub fn from_diagnostic(sources: &SourceDatabase, diagnostic: Diagnostic) -> (e: FrontendError)
        requires
            sources.wf(),
            diagnostic.labels@.len() > 0,
            sources.renderable(diagnostic.labels@[0].location),
        ensures
            ({
                let l = diagnostic.labels@[0].location;
                let file = sources.files()[l.source.0 as int];
                let p = SourceFile::spec_position(file.text(), l.range.start);
                &&& e.source_name@ == file.file_name()
                &&& e.location == SourceLocation {
                    offset: l.range.start as usize,
                    line: p.line,
                    column: p.column,
                }
                &&& e.message@ == diagnostic.message@
                &&& e.diagnostic is Some
            }),
    {
        let location = diagnostic.labels[0].location;
        let file = sources.get(location.source);
        let position = file.position(location.range.start);
        FrontendError {
            source_name: file.file_name_str().clone(),
            location: SourceLocation {
                offset: location.range.start as usize,
                line: position.line,
                column: position.column,
            },
            message: diagnostic.message.clone(),
            diagnostic: Some(Box::new(diagnostic)),
        }
    }

    /// `source:line:column: message`
    pub fn to_display_string(&self) -> (s: String)
        ensures
            s@ == self.source_name@ + seq![':'] + decimal(self.location.line as nat) + seq![':']
                + decimal(self.location.column as nat) + seq![':', ' '] + self.message@,
    {
        proof {
            reveal_strlit(":");
            reveal_strlit(": ");
        }
        let mut s = self.source_name.clone();
        s.append(":");
        push_decimal(&mut s, self.location.line);
        s.append(":");
        push_decimal(&mut s, self.location.column);
        s.append(": ");
        s.append(self.message.as_str());
        s
    }
}

} // verus!
