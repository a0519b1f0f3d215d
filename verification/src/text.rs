//! Byte-level helpers shared by the source model and the lexers.

use vstd::prelude::*;
use vstd::string::StringSliceAdditionalSpecFns;

verus! {

/// `true` for a UTF-8 continuation byte (`0b10xx_xxxx`).
pub open spec fn is_continuation(b: u8) -> bool {
    0x80 <= b && b <= 0xbf
}

/// Number of newline bytes in `b[0..end]`.
pub open spec fn count_newlines(b: Seq<u8>, end: int) -> nat
    decreases end,
{
    if end <= 0 {
        0
    } else if b[end - 1] == 10u8 {
        count_newlines(b, end - 1) + 1
    } else {
        count_newlines(b, end - 1)
    }
}

/// Offset of the first byte of the line that contains offset `end`:
/// one past the last newline before `end`, or 0.
pub open spec fn line_start(b: Seq<u8>, end: int) -> int
    decreases end,
{
    if end <= 0 {
        0
    } else if b[end - 1] == 10u8 {
        end
    } else {
        line_start(b, end - 1)
    }
}

/// Number of characters in the UTF-8 text `b[start..end]`, counted as the
/// bytes that begin a character.
pub open spec fn count_chars(b: Seq<u8>, start: int, end: int) -> nat
    decreases end - start,
{
    if end <= start {
        0
    } else if is_continuation(b[end - 1]) {
        count_chars(b, start, end - 1)
    } else {
        count_chars(b, start, end - 1) + 1
    }
}

/// The offsets at which the lines of `b` begin: 0, then one past every newline.
pub open spec fn line_starts(b: Seq<u8>) -> Seq<u32>
    decreases b.len(),
{
    if b.len() == 0 {
        seq![0u32]
    } else if b.last() == 10u8 {
        line_starts(b.drop_last()).push(b.len() as u32)
    } else {
        line_starts(b.drop_last())
    }
}

pub proof fn lemma_count_newlines_prefix(b: Seq<u8>, c: Seq<u8>, end: int)
    requires
        0 <= end <= b.len(),
        end <= c.len(),
        forall|i: int| 0 <= i < end ==> b[i] == c[i],
    ensures
        count_newlines(b, end) == count_newlines(c, end),
        line_start(b, end) == line_start(c, end),
    decreases end,
{
    if end > 0 {
        lemma_count_newlines_prefix(b, c, end - 1);
    }
}

pub proof fn lemma_count_newlines_monotone(b: Seq<u8>, i: int, j: int)
    requires
        0 <= i <= j,
    ensures
        count_newlines(b, i) <= count_newlines(b, j),
    decreases j - i,
{
    if i < j {
        lemma_count_newlines_monotone(b, i, j - 1);
    }
}

pub proof fn lemma_count_newlines_bound(b: Seq<u8>, end: int)
    requires
        0 <= end,
    ensures
        count_newlines(b, end) <= end,
    decreases end,
{
    if end > 0 {
        lemma_count_newlines_bound(b, end - 1);
    }
}

/// If no newline lies in `b[s..end]` and `s` begins a line, `s` is the start
/// of the line containing `end`.
pub proof fn lemma_line_start_unique(b: Seq<u8>, s: int, end: int)
    requires
        0 <= s <= end,
        s == 0 || b[s - 1] == 10u8,
        count_newlines(b, s) == count_newlines(b, end),
    ensures
        line_start(b, end) == s,
    decreases end,
{
    if end > s {
        lemma_count_newlines_monotone(b, s, end - 1);
        if b[end - 1] == 10u8 {
            assert(count_newlines(b, end) == count_newlines(b, end - 1) + 1);
            assert(false);
        }
        lemma_line_start_unique(b, s, end - 1);
    } else {
        if s > 0 {
        }
    }
}

/// Characterization of `line_starts`: entry `j` lies after exactly `j`
/// newlines and directly after a newline (for `j > 0`), and entries increase.
pub open spec fn line_starts_wf(b: Seq<u8>, ls: Seq<u32>) -> bool {
    &&& ls.len() == count_newlines(b, b.len() as int) + 1
    &&& ls[0] == 0
    &&& forall|j: int|
        0 <= j < ls.len() ==> {
            &&& #[trigger] ls[j] <= b.len()
            &&& count_newlines(b, ls[j] as int) == j
            &&& (j > 0 ==> b[ls[j] - 1] == 10u8)
        }
    &&& forall|i: int, j: int| 0 <= i < j < ls.len() ==> ls[i] < ls[j]
}

pub proof fn lemma_line_starts_wf(b: Seq<u8>)
    requires
        b.len() <= u32::MAX,
    ensures
        line_starts_wf(b, line_starts(b)),
    decreases b.len(),
{
    if b.len() > 0 {
        let p = b.drop_last();
        lemma_line_starts_wf(p);
        let lp = line_starts(p);
        assert forall|e: int| 0 <= e <= p.len() implies count_newlines(p, e) == count_newlines(
            b,
            e,
        ) by {
            lemma_count_newlines_prefix(p, b, e);
        }
        lemma_count_newlines_bound(p, p.len() as int);
        let ls = line_starts(b);
        assert forall|j: int| 0 <= j < lp.len() implies #[trigger] lp[j] <= b.len()
            && count_newlines(b, lp[j] as int) == j && (j > 0 ==> b[lp[j] - 1] == 10u8) by {
            assert(count_newlines(p, lp[j] as int) == j);
            if j > 0 {
                assert(p[lp[j] - 1] == 10u8);
            }
        }
        if b.last() == 10u8 {
            assert(ls == lp.push(b.len() as u32));
            assert(count_newlines(b, b.len() as int) == count_newlines(p, p.len() as int) + 1);
            assert forall|i: int, j: int| 0 <= i < j < ls.len() implies ls[i] < ls[j] by {
                if j == ls.len() - 1 {
                    assert(lp[i] <= p.len());
                }
            }
        } else {
            assert(ls == lp);
        }
    }
}

/// Executable count of the characters in `b[start..end]`.
pub fn char_count(b: &Vec<u8>, start: usize, end: usize) -> (n: usize)
    requires
        start <= end <= b.len(),
    ensures
        n == count_chars(b@, start as int, end as int),
        n <= end - start,
{
    let mut i = start;
    let mut n: usize = 0;
    while i < end
        invariant
            start <= i <= end <= b.len(),
            n == count_chars(b@, start as int, i as int),
            n <= i - start,
        decreases end - i,
    {
        if b[i] < 0x80 || b[i] > 0xbf {
            n = n + 1;
        }
        i = i + 1;
    }
    n
}

/// Copies the UTF-8 bytes of `s` into a new vector.
pub fn bytes_of(s: &str) -> (v: Vec<u8>)
    ensures
        v@ == s.spec_bytes(),
{
    let b = s.as_bytes();
    let mut v: Vec<u8> = Vec::new();
    let mut i: usize = 0;
    while i < b.len()
        invariant
            i <= b@.len(),
            b@ == s.spec_bytes(),
            v@ == b@.take(i as int),
        decreases b@.len() - i,
    {
        v.push(b[i]);
        i = i + 1;
        assert(v@ == b@.take(i as int));
    }
    assert(b@.take(b@.len() as int) == b@);
    v
}

} // verus!

verus! {

/// The decimal digit character for `d < 10`.
pub open spec fn digit_char(d: nat) -> char {
    if d == 0 { '0' }
    else if d == 1 { '1' }
    else if d == 2 { '2' }
    else if d == 3 { '3' }
    else if d == 4 { '4' }
    else if d == 5 { '5' }
    else if d == 6 { '6' }
    else if d == 7 { '7' }
    else if d == 8 { '8' }
    else { '9' }
}

/// The decimal representation of `n`, without leading zeros.
pub open spec fn decimal(n: nat) -> Seq<char>
    decreases n,
{
    if n < 10 {
        seq![digit_char(n)]
    } else {
        decimal(n / 10).push(digit_char(n % 10))
    }
}

fn digit_str(d: usize) -> (s: &'static str)
    requires
        d < 10,
    ensures
        s@ == seq![digit_char(d as nat)],
{
    proof {
        reveal_strlit("0");
        reveal_strlit("1");
        reveal_strlit("2");
        reveal_strlit("3");
        reveal_strlit("4");
        reveal_strlit("5");
        reveal_strlit("6");
        reveal_strlit("7");
        reveal_strlit("8");
        reveal_strlit("9");
    }
    if d == 0 { "0" }
    else if d == 1 { "1" }
    else if d == 2 { "2" }
    else if d == 3 { "3" }
    else if d == 4 { "4" }
    else if d == 5 { "5" }
    else if d == 6 { "6" }
    else if d == 7 { "7" }
    else if d == 8 { "8" }
    else { "9" }
}

/// Appends the decimal representation of `n` to `out`.
pub fn push_decimal(out: &mut String, n: usize)
    ensures
        final(out)@ == old(out)@ + decimal(n as nat),
    decreases n,
{
    if n >= 10 {
        push_decimal(out, n / 10);
    }
    out.append(digit_str(n % 10));
}

} // verus!

verus! {

/// Strict lexicographic order on byte strings (the order of `str`).
pub open spec fn bytes_lt(a: Seq<u8>, b: Seq<u8>) -> bool
    decreases a.len(),
{
    if a.len() == 0 {
        b.len() > 0
    } else if b.len() == 0 {
        false
    } else if a[0] < b[0] {
        true
    } else if a[0] > b[0] {
        false
    } else {
        bytes_lt(a.drop_first(), b.drop_first())
    }
}

pub proof fn lemma_bytes_lt_irreflexive(a: Seq<u8>)
    ensures
        !bytes_lt(a, a),
    decreases a.len(),
{
    if a.len() > 0 {
        lemma_bytes_lt_irreflexive(a.drop_first());
    }
}

pub proof fn lemma_bytes_lt_transitive(a: Seq<u8>, b: Seq<u8>, c: Seq<u8>)
    requires
        bytes_lt(a, b),
        bytes_lt(b, c),
    ensures
        bytes_lt(a, c),
    decreases a.len(),
{
    if a.len() > 0 && b.len() > 0 && c.len() > 0 && a[0] == b[0] && b[0] == c[0] {
        lemma_bytes_lt_transitive(a.drop_first(), b.drop_first(), c.drop_first());
    }
}

/// Exactly one of `a < b`, `a == b`, `b < a` holds.
pub proof fn lemma_bytes_lt_total(a: Seq<u8>, b: Seq<u8>)
    ensures
        bytes_lt(a, b) || a == b || bytes_lt(b, a),
        !(bytes_lt(a, b) && bytes_lt(b, a)),
    decreases a.len(),
{
    if a.len() > 0 && b.len() > 0 && a[0] == b[0] {
        lemma_bytes_lt_total(a.drop_first(), b.drop_first());
        if a.drop_first() == b.drop_first() {
            assert(a =~= seq![a[0]] + a.drop_first());
            assert(b =~= seq![b[0]] + b.drop_first());
        }
    } else if a.len() == 0 && b.len() == 0 {
        assert(a =~= b);
    }
}

/// Compares two strings by their UTF-8 bytes: -1, 0 or 1.
pub fn compare_str(a: &str, b: &str) -> (c: i8)
    ensures
        c == -1 <==> bytes_lt(a.spec_bytes(), b.spec_bytes()),
        c == 0 <==> a.spec_bytes() == b.spec_bytes(),
        c == 1 <==> bytes_lt(b.spec_bytes(), a.spec_bytes()),
        c == -1 || c == 0 || c == 1,
{
    let x = a.as_bytes();
    let y = b.as_bytes();
    proof {
        lemma_bytes_lt_total(x@, y@);
        assert(x@.skip(0) == x@);
        assert(y@.skip(0) == y@);
    }
    let mut i: usize = 0;
    while i < x.len() && i < y.len()
        invariant
            x@ == a.spec_bytes(),
            y@ == b.spec_bytes(),
            bytes_lt(x@, y@) || x@ == y@ || bytes_lt(y@, x@),
            !(bytes_lt(x@, y@) && bytes_lt(y@, x@)),
            i <= x@.len(),
            i <= y@.len(),
            x@.take(i as int) == y@.take(i as int),
            bytes_lt(x@, y@) == bytes_lt(x@.skip(i as int), y@.skip(i as int)),
            bytes_lt(y@, x@) == bytes_lt(y@.skip(i as int), x@.skip(i as int)),
        decreases x@.len() - i,
    {
        let ghost xs = x@.skip(i as int);
        let ghost ys = y@.skip(i as int);
        assert(xs[0] == x@[i as int]);
        assert(ys[0] == y@[i as int]);
        if x[i] < y[i] {
            assert(bytes_lt(xs, ys));
            assert(x@ != y@ ==> true);
            assert(x@[i as int] != y@[i as int]);
            return -1;
        }
        if x[i] > y[i] {
            assert(bytes_lt(ys, xs));
            assert(x@[i as int] != y@[i as int]);
            return 1;
        }
        assert(xs.drop_first() == x@.skip(i + 1));
        assert(ys.drop_first() == y@.skip(i + 1));
        assert(x@.take(i + 1) == x@.take(i as int).push(x@[i as int]));
        assert(y@.take(i + 1) == y@.take(i as int).push(y@[i as int]));
        i = i + 1;
    }
    let ghost xs = x@.skip(i as int);
    let ghost ys = y@.skip(i as int);
    if x.len() == y.len() {
        assert(x@ == x@.take(i as int));
        assert(y@ == y@.take(i as int));
        0
    } else if i == x.len() {
        assert(xs.len() == 0 && ys.len() > 0);
        -1
    } else {
        assert(ys.len() == 0 && xs.len() > 0);
        1
    }
}

} // verus!

verus! {

/// `i` is the end of `b` or a byte that begins a character.
pub open spec fn starts_char(b: Seq<u8>, i: int) -> bool {
    i == b.len() || (0 <= i < b.len() && !is_continuation(b[i]))
}

/// The bytes of a `str` are valid UTF-8, and a byte that is not a
/// continuation byte begins a character.
pub proof fn lemma_str_boundary(s: &str, i: int)
    requires
        starts_char(s.spec_bytes(), i),
    ensures
        vstd::utf8::valid_utf8(s.spec_bytes()),
        vstd::utf8::is_char_boundary(s.spec_bytes(), i),
{
    let b = s.spec_bytes();
    vstd::utf8::encode_utf8_valid_utf8(s@);
    vstd::utf8::is_char_boundary_start_end_of_seq(b);
    if i < b.len() {
        vstd::utf8::is_char_boundary_iff_not_is_continuation_byte(b, i);
    }
}

/// The part of `s` between two character boundaries.
pub fn str_slice(s: &str, start: usize, end: usize) -> (r: &str)
    requires
        start <= end <= s.spec_bytes().len(),
        starts_char(s.spec_bytes(), start as int),
        starts_char(s.spec_bytes(), end as int),
    ensures
        r.spec_bytes() == s.spec_bytes().subrange(start as int, end as int),
{
    let ghost b = s.spec_bytes();
    proof {
        lemma_str_boundary(s, end as int);
        vstd::utf8::valid_utf8_split(b, end as int);
    }
    let (head, _) = s.split_at(end);
    let ghost h = head.spec_bytes();
    assert(h == b.subrange(0, end as int));
    proof {
        vstd::utf8::is_char_boundary_start_end_of_seq(h);
        if start < end {
            assert(h[start as int] == b[start as int]);
            vstd::utf8::is_char_boundary_iff_not_is_continuation_byte(h, start as int);
        }
    }
    let (_, tail) = head.split_at(start);
    assert(tail.spec_bytes() =~= b.subrange(start as int, end as int));
    tail
}

} // verus!

verus! {

/// In valid UTF-8, the byte after an ASCII byte begins a character.
pub proof fn lemma_after_ascii(b: Seq<u8>, i: int)
    requires
        vstd::utf8::valid_utf8(b),
        0 <= i < b.len(),
        b[i] < 0x80,
    ensures
        starts_char(b, i + 1),
    decreases b.len(),
{
    let w = vstd::utf8::length_of_first_scalar(b);
    let rest = vstd::utf8::pop_first_scalar(b);
    assert(1 <= w <= 4);
    assert(w <= b.len());
    assert(rest.len() == b.len() - w);
    assert forall|k: int| 0 <= k < rest.len() implies rest[k] == b[k + w] by {}
    if rest.len() > 0 {
        reveal_with_fuel(vstd::utf8::valid_utf8, 2);
        assert(vstd::utf8::valid_first_scalar(rest));
        assert(!is_continuation(rest[0]));
    }
    if i == 0 {
        assert(w == 1);
    } else {
        assert(i >= w);
        lemma_after_ascii(rest, i - w);
    }
}

/// A `String` holding the given ASCII bytes, one character per byte.
pub(crate) fn ascii_string(bytes: Vec<u8>) -> (s: String)
    requires
        forall|i: int| 0 <= i < bytes@.len() ==> bytes@[i] < 0x80,
    ensures
        s@ == bytes@.map_values(|b: u8| b as char),
{
    let mut chars: Vec<char> = Vec::new();
    let mut i: usize = 0;
    while i < bytes.len()
        invariant
            i <= bytes@.len(),
            chars@ == bytes@.subrange(0, i as int).map_values(|b: u8| b as char),
        decreases bytes@.len() - i,
    {
        let c = bytes[i] as char;
        chars.push(c);
        proof {
            assert(chars@ =~= bytes@.subrange(0, i + 1).map_values(|b: u8| b as char));
        }
        i = i + 1;
    }
    proof {
        assert(bytes@.subrange(0, i as int) =~= bytes@);
    }
    crate::json::string_from_chars(&chars)
}

/// Byte-wise equality of two slices.
pub fn eq_bytes(a: &[u8], b: &[u8]) -> (r: bool)
    ensures
        r == (a@ == b@),
{
    if a.len() != b.len() {
        return false;
    }
    let mut i: usize = 0;
    while i < a.len()
        invariant
            a@.len() == b@.len(),
            i <= a@.len(),
            forall|k: int| 0 <= k < i ==> a@[k] == b@[k],
        decreases a@.len() - i,
    {
        if a[i] != b[i] {
            return false;
        }
        i = i + 1;
    }
    assert(a@ =~= b@);
    true
}

} // verus!

verus! {

/// UTF-8 encoding distributes over concatenation.
pub proof fn lemma_encode_concat(a: Seq<char>, b: Seq<char>)
    ensures
        vstd::utf8::encode_utf8(a + b) == vstd::utf8::encode_utf8(a) + vstd::utf8::encode_utf8(b),
    decreases a.len(),
{
    if a.len() == 0 {
        assert(a + b =~= b);
    } else {
        lemma_encode_concat(a.drop_first(), b);
        assert((a + b).drop_first() =~= a.drop_first() + b);
        assert((a + b)[0] == a[0]);
    }
}

/// The encoding of `"/"` is the single byte 47.
pub proof fn lemma_encode_slash()
    ensures
        vstd::utf8::encode_utf8(seq!['/']) == seq![47u8],
{
    let c: u32 = '/' as u32;
    assert(c == 47);
    assert((47u32 & 0x7Fu32) == 47u32) by (bit_vector);
    assert(seq!['/'].drop_first() =~= Seq::<char>::empty());
    assert(vstd::utf8::encode_scalar(47u32) =~= seq![47u8]);
    assert(vstd::utf8::encode_utf8(seq!['/']) =~= vstd::utf8::encode_scalar(47u32)
        + vstd::utf8::encode_utf8(Seq::<char>::empty()));
}

} // verus!

verus! {

/// A nonempty `str` starts with a character.
pub proof fn lemma_str_boundary_start(s: &str)
    ensures
        starts_char(s.spec_bytes(), 0),
{
    let b = s.spec_bytes();
    vstd::utf8::encode_utf8_valid_utf8(s@);
    if b.len() > 0 {
        vstd::utf8::is_char_boundary_start_end_of_seq(b);
        vstd::utf8::is_char_boundary_iff_not_is_continuation_byte(b, 0);
    }
}

} // verus!
