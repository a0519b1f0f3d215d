//! Compact source locations, source files with line tables, and diagnostics.

use std::ops::Range;
use vstd::prelude::*;
use vstd::string::StringSliceAdditionalSpecFns;
use crate::text::{decimal, push_decimal, bytes_of, char_count, count_chars, count_newlines, is_continuation, line_start, line_starts, line_starts_wf, lemma_count_newlines_monotone, lemma_line_start_unique, lemma_line_starts_wf};

verus! {

/// Identifies one file registered in a [`SourceDatabase`].
#[derive(Clone, Copy, Debug, PartialEq, Eq, Structural, Hash, PartialOrd, Ord)]
pub struct SourceId(pub u32);

impl SourceId {
    pub open spec fn spec_index(self) -> nat {
        self.0 as nat
    }

    /// The position of the file in registration order.
    pub fn index(self) -> (i: usize)
        ensures
            i == self.spec_index(),
    {
        self.0 as usize
    }
}

/// A half-open byte range `start..end` inside one source text.
#[derive(Clone, Copy, Debug, PartialEq, Eq, Structural, Hash, PartialOrd, Ord)]
pub struct TextRange {
    pub start: u32,
    pub end: u32,
}

/// Why a location could not be built.
#[derive(Clone, Copy, Debug, PartialEq, Eq, Structural)]
pub enum LocationError {
    OffsetTooLarge,
    SourceTooLarge,
    ReversedRange { start: u32, end: u32 },
}

impl TextRange {
    /// The range `start..end`; reversed ranges are refused.
    pub fn new(start: u32, end: u32) -> (r: Result<TextRange, LocationError>)
        ensures
            start <= end ==> r == Ok::<TextRange, LocationError>(TextRange { start, end }),
            start > end ==> r == Err::<TextRange, LocationError>(
                LocationError::ReversedRange { start, end },
            ),
    {
        if start > end {
            return Err(LocationError::ReversedRange { start, end });
        }
        Ok(TextRange { start, end })
    }

    /// The empty range at `offset`.
    pub fn at(offset: u32) -> (r: TextRange)
        ensures
            r.start == offset && r.end == offset,
    {
        TextRange { start: offset, end: offset }
    }

    /// Converts a `usize` range, refusing offsets that do not fit in `u32`
    /// and reversed ranges.
    pub fn from_usize(range: Range<usize>) -> (r: Result<TextRange, LocationError>)
        ensures
            (range.start > u32::MAX || range.end > u32::MAX) ==> r == Err::<
                TextRange,
                LocationError,
            >(LocationError::OffsetTooLarge),
            (range.start <= u32::MAX && range.end <= u32::MAX && range.start > range.end) ==> r
                == Err::<TextRange, LocationError>(
                LocationError::ReversedRange { start: range.start as u32, end: range.end as u32 },
            ),
            (range.start <= range.end <= u32::MAX) ==> r == Ok::<TextRange, LocationError>(
                TextRange { start: range.start as u32, end: range.end as u32 },
            ),
    {
        if range.start > 0xffff_ffffusize || range.end > 0xffff_ffffusize {
            return Err(LocationError::OffsetTooLarge);
        }
        TextRange::new(range.start as u32, range.end as u32)
    }

    /// The same range as `usize` offsets.
    pub fn to_usize(self) -> (r: Range<usize>)
        ensures
            r.start == self.start && r.end == self.end,
    {
        Range { start: self.start as usize, end: self.end as usize }
    }
}

/// A byte range inside a registered source.
#[derive(Clone, Copy, Debug, PartialEq, Eq, Structural, Hash, PartialOrd, Ord)]
pub struct Location {
    pub source: SourceId,
    pub range: TextRange,
}

impl Location {
    pub fn new(source: SourceId, range: TextRange) -> (l: Location)
        ensures
            l.source == source && l.range == range,
    {
        Location { source, range }
    }

    /// A location from a `usize` range, refused as [`TextRange::from_usize`] refuses it.
    pub fn from_usize(source: SourceId, range: Range<usize>) -> (r: Result<Location, LocationError>)
        ensures
            (range.start > u32::MAX || range.end > u32::MAX) ==> r == Err::<
                Location,
                LocationError,
            >(LocationError::OffsetTooLarge),
            (range.start <= u32::MAX && range.end <= u32::MAX && range.start > range.end) ==> r
                == Err::<Location, LocationError>(
                LocationError::ReversedRange { start: range.start as u32, end: range.end as u32 },
            ),
            (range.start <= range.end <= u32::MAX) ==> r == Ok::<Location, LocationError>(
                Location {
                    source,
                    range: TextRange { start: range.start as u32, end: range.end as u32 },
                },
            ),
    {
        match TextRange::from_usize(range) {
            Ok(r) => Ok(Location::new(source, r)),
            Err(e) => Err(e),
        }
    }
}

/// A value together with the location it was written at.
#[derive(Clone, Debug, PartialEq, Eq)]
pub struct Located<T> {
    pub value: T,
    pub location: Location,
}

impl<T> Located<T> {
    pub fn new(value: T, location: Location) -> (l: Located<T>)
        ensures
            l.value == value && l.location == location,
    {
        Located { value, location }
    }

    /// Transforms the value and keeps the location.
    pub fn map<U, F: FnOnce(T) -> U>(self, map: F) -> (l: Located<U>)
        requires
            call_requires(map, (self.value,)),
        ensures
            call_ensures(map, (self.value,), l.value),
            l.location == self.location,
    {
        let location = self.location;
        let value = map(self.value);
        Located { value, location }
    }
}

/// Where a value came from: written in a source, or made by the system
/// (possibly from something written in a source).
#[derive(Clone, Copy, Debug, PartialEq, Eq, Structural)]
pub enum Origin {
    Source(Location),
    Synthetic { derived_from: Option<Location> },
}

/// A value together with its origin.
#[derive(Clone, Debug, PartialEq, Eq)]
pub struct WithOrigin<T> {
    pub value: T,
    pub origin: Origin,
}

#[derive(Clone, Copy, Debug, PartialEq, Eq, Structural)]
pub enum Severity {
    Error,
    Warning,
}

/// A message attached to a location; each diagnostic has one primary label.
#[derive(Clone, Debug)]
pub struct Label {
    pub location: Location,
    pub message: String,
    pub primary: bool,
}

/// A located message about a source.
#[derive(Clone, Debug)]
pub struct Diagnostic {
    pub severity: Severity,
    pub message: String,
    pub labels: Vec<Label>,
    pub notes: Vec<String>,
}

impl Diagnostic {
    /// An error with one primary label at `location` and no notes.
    pub fn error(message: String, location: Location) -> (d: Diagnostic)
        ensures
            d.severity == Severity::Error,
            d.message@ == message@,
            d.labels@.len() == 1,
            d.labels@[0].location == location,
            d.labels@[0].message@ == Seq::<char>::empty(),
            d.labels@[0].primary,
            d.notes@.len() == 0,
    {
        let mut labels: Vec<Label> = Vec::new();
        labels.push(Label { location, message: String::new(), primary: true });
        Diagnostic { severity: Severity::Error, message, labels, notes: Vec::new() }
    }

    /// Adds a secondary label after the existing ones.
    pub fn with_secondary(self, message: String, location: Location) -> (d: Diagnostic)
        ensures
            d.severity == self.severity,
            d.message@ == self.message@,
            d.notes@ == self.notes@,
            d.labels@.len() == self.labels@.len() + 1,
            forall|i: int| 0 <= i < self.labels@.len() ==> d.labels@[i] == self.labels@[i],
            d.labels@.last().location == location,
            d.labels@.last().message@ == message@,
            !d.labels@.last().primary,
    {
        let mut d = self;
        d.labels.push(Label { location, message, primary: false });
        d
    }
}

/// A 1-based line and column; the column counts characters.
#[derive(Clone, Copy, Debug, PartialEq, Eq, Structural)]
pub struct Position {
    pub line: usize,
    pub column: usize,
}

/// A named source text together with the offsets at which its lines start.
#[derive(Clone, Debug)]
pub struct SourceFile {
    pub name: String,
    pub(crate) bytes: Vec<u8>,
    pub(crate) line_starts: Vec<u32>,
}

impl SourceFile {
    /// The file's name.
    pub closed spec fn file_name(self) -> Seq<char> {
        self.name@
    }

    /// The file's name.
    pub fn file_name_str(&self) -> (n: &String)
        ensures
            n@ == self.file_name(),
    {
        &self.name
    }

    /// The UTF-8 bytes of the text.
    pub closed spec fn text(self) -> Seq<u8> {
        self.bytes@
    }

    /// The file is at most `u32::MAX` bytes long and its line table is exact.
    pub closed spec fn wf(self) -> bool {
        &&& self.bytes@.len() <= u32::MAX
        &&& self.line_starts@ == line_starts(self.bytes@)
    }

    /// The position of `offset` in a text: its line, counted by the newlines
    /// before it, and its column, counted in characters from the line start.
    /// Offsets past the end are clamped to the end.
    pub open spec fn spec_position(text: Seq<u8>, offset: u32) -> Position {
        let o = if offset as int <= text.len() {
            offset as int
        } else {
            text.len() as int
        };
        Position {
            line: (count_newlines(text, o) + 1) as usize,
            column: (count_chars(text, line_start(text, o), o) + 1) as usize,
        }
    }

    /// `offset` (clamped to the end) is a character boundary of the text.
    pub open spec fn on_boundary(text: Seq<u8>, offset: u32) -> bool {
        offset as int >= text.len() || !is_continuation(text[offset as int])
    }

    /// The length of the text in bytes.
    pub fn len(&self) -> (n: usize)
        ensures
            n == self.text().len(),
    {
        self.bytes.len()
    }

    /// `true` when `offset` (clamped to the end) is a character boundary.
    pub fn is_boundary(&self, offset: u32) -> (b: bool)
        ensures
            b == Self::on_boundary(self.text(), offset),
    {
        if offset as usize >= self.bytes.len() {
            true
        } else {
            let byte = self.bytes[offset as usize];
            !(byte >= 0x80u8 && byte < 0xC0u8)
        }
    }

    pub(crate) fn new(name: &str, text: &str) -> (r: Result<SourceFile, LocationError>)
        ensures
            text.spec_bytes().len() > u32::MAX ==> r == Err::<SourceFile, LocationError>(
                LocationError::SourceTooLarge,
            ),
            text.spec_bytes().len() <= u32::MAX ==> r is Ok && r->Ok_0.wf() && r->Ok_0.file_name()
                == name@ && r->Ok_0.text() == text.spec_bytes(),
    {
        let b = text.as_bytes();
        if b.len() > 0xffff_ffffusize {
            return Err(LocationError::SourceTooLarge);
        }
        let bytes = bytes_of(text);
        let mut starts: Vec<u32> = Vec::new();
        starts.push(0);
        let mut i: usize = 0;
        while i < bytes.len()
            invariant
                bytes.len() <= u32::MAX,
                i <= bytes.len(),
                starts@ == line_starts(bytes@.take(i as int)),
            decreases bytes.len() - i,
        {
            let ghost pre = bytes@.take(i as int);
            let ghost next = bytes@.take(i + 1);
            assert(next.drop_last() == pre);
            if bytes[i] == 10u8 {
                starts.push((i + 1) as u32);
            }
            i = i + 1;
        }
        assert(bytes@.take(bytes.len() as int) == bytes@);
        Ok(SourceFile { name: name.to_owned(), bytes, line_starts: starts })
    }

    /// The line and column of `offset`, clamped to the end of the text.
    pub fn position(&self, offset: u32) -> (p: Position)
        requires
            self.wf(),
            self.text().len() < usize::MAX,
            Self::on_boundary(self.text(), offset),
        ensures
            p == Self::spec_position(self.text(), offset),
    {
        proof {
            lemma_line_starts_wf(self.bytes@);
        }
        let b = &self.bytes;
        let ls = &self.line_starts;
        let o: u32 = if (offset as usize) <= b.len() {
            offset
        } else {
            b.len() as u32
        };
        // Binary search for the number of line starts at or before `o`.
        let mut lo: usize = 1;
        let mut hi: usize = ls.len();
        while lo < hi
            invariant
                1 <= lo <= hi <= ls@.len(),
                line_starts_wf(b@, ls@),
                forall|j: int| 0 <= j < lo ==> ls@[j] <= o,
                forall|j: int| hi <= j < ls@.len() ==> ls@[j] > o,
            decreases hi - lo,
        {
            let mid = lo + (hi - lo) / 2;
            if ls[mid] <= o {
                lo = mid + 1;
            } else {
                hi = mid;
            }
        }
        let line = lo - 1;
        proof {
            let c = count_newlines(b@, o as int);
            // entries up to `line` lie at or before `o`, the next one after it
            lemma_count_newlines_monotone(b@, ls@[line as int] as int, o as int);
            if line + 1 < ls@.len() {
                let nx = ls@[line + 1] as int;
                assert(b@[nx - 1] == 10u8);
                assert(count_newlines(b@, nx) == count_newlines(b@, nx - 1) + 1);
                lemma_count_newlines_monotone(b@, o as int, nx - 1);
            } else {
                lemma_count_newlines_monotone(b@, o as int, b@.len() as int);
            }
            assert(c == line);
            lemma_line_start_unique(b@, ls@[line as int] as int, o as int);
        }
        let start = ls[line] as usize;
        let column = char_count(b, start, o as usize);
        Position { line: line + 1, column: column + 1 }
    }
}

/// The registered sources, indexed by [`SourceId`].
#[derive(Clone, Debug)]
pub struct SourceDatabase {
    pub(crate) files: Vec<SourceFile>,
}

impl SourceDatabase {
    /// The registered files, in registration order.
    pub closed spec fn files(self) -> Seq<SourceFile> {
        self.files@
    }

    /// Every file has an exact line table.
    pub closed spec fn wf(self) -> bool {
        forall|i: int| 0 <= i < self.files@.len() ==> (#[trigger] self.files@[i]).wf()
    }

    /// `id` names a registered file.
    pub open spec fn contains(self, id: SourceId) -> bool {
        id.0 < self.files().len()
    }

    /// An empty database.
    pub fn new() -> (db: SourceDatabase)
        ensures
            db.wf(),
            db.files().len() == 0,
    {
        SourceDatabase { files: Vec::new() }
    }

    /// Registers a file and returns its id; refuses more than `u32::MAX`
    /// files and texts longer than `u32::MAX` bytes.
    pub fn try_add(&mut self, name: &str, text: &str) -> (r: Result<SourceId, LocationError>)
        requires
            old(self).wf(),
        ensures
            final(self).wf(),
            old(self).grown_to(*final(self)),
            (old(self).files().len() > u32::MAX || text.spec_bytes().len() > u32::MAX) ==> r
                == Err::<SourceId, LocationError>(LocationError::SourceTooLarge) && final(self).files() == old(self).files(),
            (old(self).files().len() <= u32::MAX && text.spec_bytes().len() <= u32::MAX) ==> {
                &&& r == Ok::<SourceId, LocationError>(SourceId(old(self).files().len() as u32))
                &&& final(self).files().len() == old(self).files().len() + 1
                &&& forall|i: int|
                    0 <= i < old(self).files().len() ==> final(self).files()[i] == old(self).files()[i]
                &&& final(self).files().last().file_name() == name@
                &&& final(self).files().last().text() == text.spec_bytes()
            },
    {
        if self.files.len() > 0xffff_ffffusize {
            return Err(LocationError::SourceTooLarge);
        }
        let id = SourceId(self.files.len() as u32);
        match SourceFile::new(name, text) {
            Ok(file) => {
                self.files.push(file);
                proof {
                    assert forall|i: int| 0 <= i < self.files@.len() implies (
                    #[trigger] self.files@[i]).wf() by {
                        if i < old(self).files@.len() {
                            assert(self.files@[i] == old(self).files@[i]);
                        }
                    }
                }
                Ok(id)
            },
            Err(e) => Err(e),
        }
    }

    /// Registers a file that fits the compact location model.
    pub fn add(&mut self, name: &str, text: &str) -> (id: SourceId)
        requires
            old(self).wf(),
            old(self).files().len() <= u32::MAX,
            text.spec_bytes().len() <= u32::MAX,
        ensures
            old(self).grown_to(*final(self)),
            final(self).wf(),
            id == SourceId(old(self).files().len() as u32),
            final(self).files().len() == old(self).files().len() + 1,
            forall|i: int|
                0 <= i < old(self).files().len() ==> final(self).files()[i] == old(self).files()[i],
            final(self).files().last().file_name() == name@,
            final(self).files().last().text() == text.spec_bytes(),
    {
        match self.try_add(name, text) {
            Ok(id) => id,
            Err(_) => {
                assert(false);
                SourceId(0)
            },
        }
    }

    /// `later` holds every file of `self`, under the same id: the relation
    /// that `add` and `try_add` establish between a database and its next
    /// state.
    pub open spec fn grown_to(self, later: SourceDatabase) -> bool {
        &&& self.files().len() <= later.files().len()
        &&& forall|i: int| 0 <= i < self.files().len() ==> later.files()[i] == self.files()[i]
    }

    /// Ids are never reused or invalidated: a file registered under `id`
    /// reads back with its name and text after any number of later
    /// additions.
    pub proof fn law_sources_survive_additions(self, mid: SourceDatabase, later: SourceDatabase, id: SourceId)
        requires
            self.contains(id),
            self.grown_to(mid),
            mid.grown_to(later),
        ensures
            self.grown_to(later),
            later.contains(id),
            later.files()[id.0 as int].file_name() == self.files()[id.0 as int].file_name(),
            later.files()[id.0 as int].text() == self.files()[id.0 as int].text(),
    {
    }

    /// The file registered under `id`.
    pub fn get(&self, id: SourceId) -> (f: &SourceFile)
        requires
            self.contains(id),
        ensures
            *f == self.files()[id.0 as int],
            self.wf() ==> f.wf(),
    {
        &self.files[id.0 as usize]
    }
}

} // verus!

verus! {

/// Index of the first primary label, if any.
pub open spec fn first_primary(labels: Seq<Label>) -> Option<int>
    decreases labels.len(),
{
    if labels.len() == 0 {
        None
    } else if labels[0].primary {
        Some(0)
    } else {
        match first_primary(labels.drop_first()) {
            Some(i) => Some(i + 1),
            None => None,
        }
    }
}

/// `name:line:column: message` for a label of a registered file.
pub open spec fn spec_locate(files: Seq<SourceFile>, location: Location, message: Seq<char>) -> Seq<char> {
    let file = files[location.source.0 as int];
    let p = SourceFile::spec_position(file.text(), location.range.start);
    file.file_name() + seq![':'] + decimal(p.line as nat) + seq![':'] + decimal(p.column as nat)
        + seq![':', ' '] + message
}

/// One line per secondary (non-primary) label, in order.
pub open spec fn spec_secondaries(files: Seq<SourceFile>, labels: Seq<Label>) -> Seq<char>
    decreases labels.len(),
{
    if labels.len() == 0 {
        Seq::empty()
    } else {
        let rest = spec_secondaries(files, labels.drop_last());
        let l = labels.last();
        if l.primary {
            rest
        } else {
            rest + seq!['\n', ' ', ' '] + spec_locate(files, l.location, l.message@)
        }
    }
}

/// The rendered text of a diagnostic: its message located at the first
/// primary label, then each secondary label on its own line; a diagnostic
/// without a primary label renders as its bare message.
pub open spec fn spec_render(files: Seq<SourceFile>, d: Diagnostic) -> Seq<char> {
    match first_primary(d.labels@) {
        None => d.message@,
        Some(i) => spec_locate(files, d.labels@[i].location, d.message@) + spec_secondaries(
            files,
            d.labels@,
        ),
    }
}

impl SourceDatabase {
    /// `location` names a registered file and starts on a character boundary.
    pub open spec fn renderable(self, location: Location) -> bool {
        &&& self.contains(location.source)
        &&& self.files()[location.source.0 as int].text().len() < usize::MAX
        &&& SourceFile::on_boundary(
            self.files()[location.source.0 as int].text(),
            location.range.start,
        )
    }

    fn push_location(&self, out: &mut String, location: Location, message: &String)
        requires
            self.wf(),
            self.renderable(location),
        ensures
            final(out)@ == old(out)@ + spec_locate(self.files(), location, message@),
    {
        let file = self.get(location.source);
        assert(file.wf());
        let p = file.position(location.range.start);
        proof {
            reveal_strlit(":");
            reveal_strlit(": ");
        }
        out.append(file.name.as_str());
        out.append(":");
        push_decimal(out, p.line);
        out.append(":");
        push_decimal(out, p.column);
        out.append(": ");
        out.append(message.as_str());
        assert(out@ =~= old(out)@ + spec_locate(self.files(), location, message@));
    }

    /// Renders a diagnostic as `name:line:column: message`, followed by one
    /// indented line per secondary label.
    pub fn render(&self, diagnostic: &Diagnostic) -> (s: String)
        requires
            self.wf(),
            forall|i: int|
                0 <= i < diagnostic.labels@.len() ==> self.renderable(
                    #[trigger] diagnostic.labels@[i].location,
                ),
        ensures
            s@ == spec_render(self.files(), *diagnostic),
    {
        let labels = &diagnostic.labels;
        let mut k: usize = 0;
        while k < labels.len() && !labels[k].primary
            invariant
                k <= labels@.len(),
                forall|j: int| 0 <= j < k ==> !labels@[j].primary,
            decreases labels@.len() - k,
        {
            k = k + 1;
        }
        proof {
            lemma_first_primary(labels@, k as int);
        }
        if k == labels.len() {
            return diagnostic.message.clone();
        }
        let mut out = String::new();
        self.push_location(&mut out, labels[k].location, &diagnostic.message);
        let ghost head = out@;
        let mut i: usize = 0;
        while i < labels.len()
            invariant
                self.wf(),
                i <= labels@.len(),
                labels == diagnostic.labels,
                forall|j: int|
                    0 <= j < diagnostic.labels@.len() ==> self.renderable(
                        #[trigger] diagnostic.labels@[j].location,
                    ),
                out@ == head + spec_secondaries(self.files(), labels@.take(i as int)),
            decreases labels@.len() - i,
        {
            let ghost before = labels@.take(i as int);
            assert(labels@.take(i + 1).drop_last() == before);
            if !labels[i].primary {
                proof {
                    reveal_strlit("\n  ");
                }
                out.append("\n  ");
                self.push_location(&mut out, labels[i].location, &labels[i].message);
            }
            i = i + 1;
        }
        assert(labels@.take(labels@.len() as int) == labels@);
        out
    }
}

proof fn lemma_first_primary(labels: Seq<Label>, k: int)
    requires
        0 <= k <= labels.len(),
        forall|j: int| 0 <= j < k ==> !labels[j].primary,
        k < labels.len() ==> labels[k].primary,
    ensures
        k == labels.len() ==> first_primary(labels) is None,
        k < labels.len() ==> first_primary(labels) == Some(k),
    decreases labels.len(),
{
    if labels.len() > 0 && k > 0 {
        lemma_first_primary(labels.drop_first(), k - 1);
    }
}

} // verus!
