//! Byte classes and maximal runs shared by the XL and JSON lexers.

use vstd::prelude::*;
use crate::text::is_continuation;

verus! {

/// A set of bytes that a lexer consumes as a maximal run.
#[derive(Clone, Copy, Debug, PartialEq, Eq)]
pub enum Class {
    /// `[0-9]`
    Digit,
    /// `[A-Za-z0-9_]`
    Word,
    /// `[ \t\r\n]`
    Space,
    /// `[^\r\n]`
    LineRest,
    /// `[^"\\]`
    Text,
    /// `[^"\\\x00-\x1f]`
    JsonText,
}

pub open spec fn is_digit(b: u8) -> bool {
    48 <= b <= 57
}

/// `[A-Za-z_]`
pub open spec fn is_word_start(b: u8) -> bool {
    (65 <= b <= 90) || (97 <= b <= 122) || b == 95
}

pub open spec fn in_class(c: Class, b: u8) -> bool {
    match c {
        Class::Digit => is_digit(b),
        Class::Word => is_word_start(b) || is_digit(b),
        Class::Space => b == 32 || b == 9 || b == 13 || b == 10,
        Class::LineRest => b != 13 && b != 10,
        Class::Text => b != 34 && b != 92,
        Class::JsonText => b != 34 && b != 92 && b >= 32,
    }
}

/// Length of the maximal run of bytes of class `c` starting at `i`.
pub open spec fn run(s: Seq<u8>, i: int, c: Class) -> nat
    decreases s.len() - i,
{
    if 0 <= i < s.len() && in_class(c, s[i]) {
        run(s, i + 1, c) + 1
    } else {
        0
    }
}

/// The first character boundary at or after `i` (or the end).
pub open spec fn boundary_from(s: Seq<u8>, i: int) -> int
    decreases s.len() - i,
{
    if 0 <= i < s.len() && is_continuation(s[i]) {
        boundary_from(s, i + 1)
    } else {
        i
    }
}

pub proof fn lemma_run_bound(s: Seq<u8>, i: int, c: Class)
    requires
        0 <= i <= s.len(),
    ensures
        i + run(s, i, c) <= s.len(),
        forall|k: int| i <= k < i + run(s, i, c) ==> in_class(c, #[trigger] s[k]),
        i + run(s, i, c) < s.len() ==> !in_class(c, s[i + run(s, i, c)]),
    decreases s.len() - i,
{
    if i < s.len() && in_class(c, s[i]) {
        lemma_run_bound(s, i + 1, c);
    }
}

pub proof fn lemma_boundary_bound(s: Seq<u8>, i: int)
    requires
        0 <= i <= s.len(),
    ensures
        i <= boundary_from(s, i) <= s.len(),
    decreases s.len() - i,
{
    if i < s.len() && is_continuation(s[i]) {
        lemma_boundary_bound(s, i + 1);
    }
}

pub fn in_class_exec(c: Class, b: u8) -> (r: bool)
    ensures
        r == in_class(c, b),
{
    match c {
        Class::Digit => 48 <= b && b <= 57,
        Class::Word => (65 <= b && b <= 90) || (97 <= b && b <= 122) || b == 95 || (48 <= b && b
            <= 57),
        Class::Space => b == 32 || b == 9 || b == 13 || b == 10,
        Class::LineRest => b != 13 && b != 10,
        Class::Text => b != 34 && b != 92,
        Class::JsonText => b != 34 && b != 92 && b >= 32,
    }
}

/// The end of the maximal run of class `c` that starts at `i`.
pub fn run_end(s: &[u8], i: usize, c: Class) -> (j: usize)
    requires
        i <= s@.len(),
    ensures
        j == i + run(s@, i as int, c),
        j <= s@.len(),
{
    let mut j = i;
    while j < s.len() && in_class_exec(c, s[j])
        invariant
            i <= j <= s@.len(),
            run(s@, i as int, c) == (j - i) + run(s@, j as int, c),
        decreases s@.len() - j,
    {
        j = j + 1;
    }
    proof {
        lemma_run_bound(s@, i as int, c);
    }
    j
}

/// The first character boundary at or after `i`.
pub fn boundary_end(s: &[u8], i: usize) -> (j: usize)
    requires
        i <= s@.len(),
    ensures
        j == boundary_from(s@, i as int),
        i <= j <= s@.len(),
{
    let mut j = i;
    while j < s.len() && s[j] >= 0x80 && s[j] <= 0xbf
        invariant
            i <= j <= s@.len(),
            boundary_from(s@, i as int) == boundary_from(s@, j as int),
        decreases s@.len() - j,
    {
        j = j + 1;
    }
    j
}

} // verus!
