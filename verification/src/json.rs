//! Errors and provenance of JSON documents read as XL values.

use std::collections::BTreeMap;
use vstd::prelude::*;
use vstd::string::StrSliceExecFns;
use crate::source::Location;

verus! {

/// A located error in a JSON document.
#[derive(Clone, Debug, PartialEq, Eq)]
pub struct JsonError {
    pub source_name: String,
    pub line: usize,
    pub column: usize,
    pub message: String,
}

/// One step of a path into a JSON value: an array index or an object key.
#[derive(Clone, Debug, PartialEq, Eq, PartialOrd, Ord)]
pub enum ValuePathSegment {
    Index(usize),
    Key(String),
}

/// Where each value and each object key of a document was written, by
/// path.
#[derive(Clone, Debug)]
pub struct Provenance {
    pub values: BTreeMap<Vec<ValuePathSegment>, Location>,
    pub keys: BTreeMap<Vec<ValuePathSegment>, Location>,
}

// ---------------------------------------------------------------------------
// Decoding string literals.

/// The value of a hexadecimal digit.
pub open spec fn hex_digit(c: char) -> Option<int> {
    if '0' <= c && c <= '9' {
        Some(c as int - '0' as int)
    } else if 'a' <= c && c <= 'f' {
        Some(c as int - 'a' as int + 10)
    } else if 'A' <= c && c <= 'F' {
        Some(c as int - 'A' as int + 10)
    } else {
        None
    }
}

/// The hexadecimal digits with the values 0 to 15, in lower case.
pub open spec fn lower_hex_digits() -> Seq<char> {
    "0123456789abcdef"@
}

/// The hexadecimal digits with the values 0 to 15, in upper case.
pub open spec fn upper_hex_digits() -> Seq<char> {
    "0123456789ABCDEF"@
}

/// A hexadecimal digit stands for its position among the digits, in
/// either case, and nothing else is a digit: `e` and `E` are both 14.
pub proof fn law_hex_digits_either_case(c: char)
    ensures
        forall|v: int| hex_digit(c) == Some(v) <==> (0 <= v < 16 && (c == lower_hex_digits()[v] || c == upper_hex_digits()[v])),
{
    reveal_strlit("0123456789abcdef");
    reveal_strlit("0123456789ABCDEF");
    let lo = lower_hex_digits();
    let up = upper_hex_digits();
    assert(lo =~= seq!['0', '1', '2', '3', '4', '5', '6', '7', '8', '9', 'a', 'b', 'c', 'd', 'e', 'f']);
    assert(up =~= seq!['0', '1', '2', '3', '4', '5', '6', '7', '8', '9', 'A', 'B', 'C', 'D', 'E', 'F']);
    assert forall|v: int| 0 <= v < 16 implies (lo[v] as int == (if v < 10 { '0' as int + v } else { 'a' as int + v - 10 }))
        && (up[v] as int == (if v < 10 { '0' as int + v } else { 'A' as int + v - 10 })) by {
        if v == 0 {} else if v == 1 {} else if v == 2 {} else if v == 3 {} else if v == 4 {} else if v == 5 {}
        else if v == 6 {} else if v == 7 {} else if v == 8 {} else if v == 9 {} else if v == 10 {} else if v == 11 {}
        else if v == 12 {} else if v == 13 {} else if v == 14 {} else {}
    }
    assert forall|v: int| hex_digit(c) == Some(v) <==> (0 <= v < 16 && (c == lo[v] || c == up[v])) by {
        if 0 <= v < 16 {
            assert(lo[v] as int == (if v < 10 { '0' as int + v } else { 'a' as int + v - 10 }));
            assert(up[v] as int == (if v < 10 { '0' as int + v } else { 'A' as int + v - 10 }));
        }
    }
}

/// The value of the four hexadecimal digits at `i`, if there are four.
pub open spec fn spec_hex_quad(s: Seq<char>, i: int) -> Option<int> {
    if i < 0 || i + 4 > s.len() {
        None
    } else {
        match (hex_digit(s[i]), hex_digit(s[i + 1]), hex_digit(s[i + 2]), hex_digit(s[i + 3])) {
            (Some(a), Some(b), Some(c), Some(d)) => Some(((a * 16 + b) * 16 + c) * 16 + d),
            _ => None,
        }
    }
}

pub open spec fn four_hex_message() -> Seq<char> {
    "Unicode escape requires four hex digits"@
}

/// `true` for the code points that are characters: all but the surrogates,
/// up to `0x10FFFF`.
pub open spec fn is_scalar(c: int) -> bool {
    (0 <= c <= 0xD7FF) || (0xE000 <= c <= 0x10FFFF)
}

/// The character of the escape whose four digits start at `i` (after
/// `\u`), and where the escape ends. A high surrogate must be followed by
/// `\u` and a low surrogate; the pair stands for one character.
pub open spec fn spec_unicode_escape(s: Seq<char>, i: int) -> Result<(char, int), Seq<char>> {
    match spec_hex_quad(s, i) {
        None => Err(four_hex_message()),
        Some(first) => if 0xD800 <= first <= 0xDBFF {
            if !(i + 6 <= s.len() && s[i + 4] == '\\' && s[i + 5] == 'u') {
                Err("high surrogate requires a low surrogate"@)
            } else {
                match spec_hex_quad(s, i + 6) {
                    None => Err(four_hex_message()),
                    Some(second) => if !(0xDC00 <= second <= 0xDFFF) {
                        Err("invalid low surrogate"@)
                    } else {
                        let c = 0x10000 + (first - 0xD800) * 1024 + (second - 0xDC00);
                        if is_scalar(c) {
                            Ok((c as char, i + 10))
                        } else {
                            Err("invalid Unicode scalar value"@)
                        }
                    },
                }
            }
        } else if 0xDC00 <= first <= 0xDFFF {
            Err("unexpected low surrogate"@)
        } else if is_scalar(first) {
            Ok((first as char, i + 4))
        } else {
            Err("invalid Unicode scalar value"@)
        },
    }
}

/// The character that a one-character escape `\c` stands for.
pub open spec fn simple_escape(c: char) -> Option<char> {
    if c == '"' {
        Some('"')
    } else if c == '\\' {
        Some('\\')
    } else if c == '/' {
        Some('/')
    } else if c == 'b' {
        Some('\u{8}')
    } else if c == 'f' {
        Some('\u{c}')
    } else if c == 'n' {
        Some('\n')
    } else if c == 'r' {
        Some('\r')
    } else if c == 't' {
        Some('\t')
    } else {
        None
    }
}

/// `p` before the characters of `r`, or the error of `r`.
pub open spec fn prefixed(p: Seq<char>, r: Result<Seq<char>, Seq<char>>) -> Result<Seq<char>, Seq<char>> {
    match r {
        Ok(x) => Ok(p + x),
        Err(m) => Err(m),
    }
}

/// The character that the literal `s` has at `i`, text standing for
/// itself and an escape for the character it denotes, and where the next
/// one starts; or why there is none.
pub open spec fn decode_step(s: Seq<char>, i: int) -> Result<(char, int), Seq<char>> {
    if s[i] != '\\' {
        Ok((s[i], i + 1))
    } else if i + 1 >= s.len() {
        Err("unterminated JSON escape"@)
    } else if s[i + 1] == 'u' {
        spec_unicode_escape(s, i + 2)
    } else {
        match simple_escape(s[i + 1]) {
            Some(c) => Ok((c, i + 2)),
            None => Err("invalid JSON escape \\"@ + seq![s[i + 1]]),
        }
    }
}

pub proof fn lemma_decode_step_advances(s: Seq<char>, i: int)
    ensures
        decode_step(s, i) matches Ok((c, next)) ==> next > i,
{
}

/// The characters that the literal `s` (with its quotes) stands for, from
/// position `i` up to the closing quote, or why it has none.
pub open spec fn decode_from(s: Seq<char>, i: int) -> Result<Seq<char>, Seq<char>>
    decreases s.len() - i,
{
    if i >= s.len() - 1 {
        Ok(Seq::empty())
    } else {
        match decode_step(s, i) {
            Err(m) => Err(m),
            Ok((c, next)) => {
                proof {
                    lemma_decode_step_advances(s, i);
                }
                prefixed(seq![c], decode_from(s, next))
            },
        }
    }
}

/// A `String` of the given characters.
#[verifier::external_body]
pub(crate) fn string_from_chars(cs: &Vec<char>) -> (s: String)
    ensures
        s@ == cs@,
{
    // `FromIterator<char>` for `String`: the characters in order.
    cs.iter().collect()
}

/// The character of a code point, if it is one.
#[verifier::external_body]
fn char_from_u32(c: u32) -> (r: Option<char>)
    ensures
        is_scalar(c as int) ==> r == Some(c as char),
        !is_scalar(c as int) ==> r is None,
{
    // `char::from_u32`: `None` exactly for surrogates and values above `0x10FFFF`.
    char::from_u32(c)
}

/// Reads escapes from the characters of a string literal.
pub struct StringDecoder {
    pub chars: Vec<char>,
    pub offset: usize,
}

impl StringDecoder {
    /// The four hexadecimal digits at the offset, which moves past them.
    pub fn hex_quad(&mut self) -> (r: Result<u32, &'static str>)
        requires
            old(self).offset <= old(self).chars@.len(),
        ensures
            final(self).chars@ == old(self).chars@,
            final(self).offset <= final(self).chars@.len(),
            match spec_hex_quad(old(self).chars@, old(self).offset as int) {
                Some(v) => r == Ok::<u32, &'static str>(v as u32) && final(self).offset == old(self).offset + 4 && v < 0x10000,
                None => r matches Err(m) && m@ == four_hex_message(),
            },
    {
        proof {
            reveal_strlit("Unicode escape requires four hex digits");
        }
        let ghost s = self.chars@;
        let ghost start = self.offset as int;
        if self.chars.len() - self.offset < 4 {
            return Err("Unicode escape requires four hex digits");
        }
        let mut value: u32 = 0;
        let mut k: usize = 0;
        while k < 4
            invariant
                s == self.chars@,
                s == old(self).chars@,
                start == old(self).offset,
                self.offset == start + k,
                start + 4 <= s.len(),
                k <= 4,
                value < pow16(k as int),
                forall|q: int| 0 <= q < k ==> hex_digit(#[trigger] s[start + q]) is Some,
                value == quad_prefix(s, start, k as int),
            decreases 4 - k,
        {
            let c = self.chars[self.offset];
            let n = self.chars.len();
            assert(self.offset < n);
            self.offset = self.offset + 1;
            let digit: u32 = if '0' <= c && c <= '9' {
                (c as u32) - ('0' as u32)
            } else if 'a' <= c && c <= 'f' {
                (c as u32) - ('a' as u32) + 10
            } else if 'A' <= c && c <= 'F' {
                (c as u32) - ('A' as u32) + 10
            } else {
                return Err("Unicode escape requires four hex digits");
            };
            proof {
                assert(hex_digit(c) == Some(digit as int));
                assert(c == s[start + k]);
                assert(quad_prefix(s, start, k + 1) == quad_prefix(s, start, k as int) * 16 + digit);
                assert(value * 16 + digit < pow16(k + 1)) by (nonlinear_arith)
                    requires
                        value < pow16(k as int),
                        digit < 16,
                        pow16(k + 1) == pow16(k as int) * 16,
                ;
            }
            value = value * 16 + digit;
            k = k + 1;
        }
        proof {
            reveal_with_fuel(quad_prefix, 5);
            assert(hex_digit(s[start]) is Some);
            assert(hex_digit(s[start + 1]) is Some);
            assert(hex_digit(s[start + 2]) is Some);
            assert(hex_digit(s[start + 3]) is Some);
        }
        Ok(value)
    }
}

impl StringDecoder {
    /// The character of the `\\u` escape whose digits start at the offset,
    /// which moves past the escape.
    pub fn unicode_escape(&mut self) -> (r: Result<char, &'static str>)
        requires
            old(self).offset <= old(self).chars@.len(),
        ensures
            final(self).chars@ == old(self).chars@,
            final(self).offset <= final(self).chars@.len(),
            match spec_unicode_escape(old(self).chars@, old(self).offset as int) {
                Ok((c, next)) => r == Ok::<char, &'static str>(c) && final(self).offset == next,
                Err(m) => r matches Err(x) && x@ == m,
            },
    {
        proof {
            reveal_strlit("high surrogate requires a low surrogate");
            reveal_strlit("invalid low surrogate");
            reveal_strlit("unexpected low surrogate");
            reveal_strlit("invalid Unicode scalar value");
        }
        let ghost s = self.chars@;
        let ghost i = self.offset as int;
        let first = match self.hex_quad() {
            Ok(v) => v,
            Err(m) => {
                return Err(m);
            },
        };
        if 0xd800 <= first && first <= 0xdbff {
            if !(self.chars.len() - self.offset >= 2 && self.chars[self.offset] == '\\'
                && self.chars[self.offset + 1] == 'u') {
                return Err("high surrogate requires a low surrogate");
            }
            self.offset = self.offset + 2;
            let second = match self.hex_quad() {
                Ok(v) => v,
                Err(m) => {
                    return Err(m);
                },
            };
            if !(0xdc00 <= second && second <= 0xdfff) {
                return Err("invalid low surrogate");
            }
            let codepoint = 0x10000 + (first - 0xd800) * 1024 + (second - 0xdc00);
            match char_from_u32(codepoint) {
                Some(c) => Ok(c),
                None => Err("invalid Unicode scalar value"),
            }
        } else if 0xdc00 <= first && first <= 0xdfff {
            Err("unexpected low surrogate")
        } else {
            match char_from_u32(first) {
                Some(c) => Ok(c),
                None => Err("invalid Unicode scalar value"),
            }
        }
    }
}

impl StringDecoder {
    /// The character at the offset, which moves past it.
    pub fn next_char(&mut self) -> (r: Result<char, String>)
        requires
            old(self).offset < old(self).chars@.len(),
        ensures
            final(self).chars@ == old(self).chars@,
            final(self).offset <= final(self).chars@.len(),
            match decode_step(old(self).chars@, old(self).offset as int) {
                Ok((c, next)) => r == Ok::<char, String>(c) && final(self).offset == next,
                Err(m) => r matches Err(v) && v@ == m,
            },
    {
        proof {
            reveal_strlit("unterminated JSON escape");
            reveal_strlit("invalid JSON escape \\");
        }
        let c = self.chars[self.offset];
        let n = self.chars.len();
        assert(self.offset < n);
        self.offset = self.offset + 1;
        if c != '\\' {
            return Ok(c);
        }
        if self.offset >= self.chars.len() {
            return Err(String::from_str("unterminated JSON escape"));
        }
        let e = self.chars[self.offset];
        self.offset = self.offset + 1;
        if e == 'u' {
            match self.unicode_escape() {
                Ok(u) => Ok(u),
                Err(m) => Err(String::from_str(m)),
            }
        } else {
            match simple_escape_char(e) {
                Some(x) => Ok(x),
                None => {
                    let mut message = String::from_str("invalid JSON escape \\");
                    let mut one: Vec<char> = Vec::new();
                    one.push(e);
                    let tail = string_from_chars(&one);
                    message.append(tail.as_str());
                    Err(message)
                },
            }
        }
    }
}

/// The character that a one-character escape stands for.
pub fn simple_escape_char(c: char) -> (r: Option<char>)
    ensures
        r == simple_escape(c),
{
    if c == '"' {
        Some('"')
    } else if c == '\\' {
        Some('\\')
    } else if c == '/' {
        Some('/')
    } else if c == 'b' {
        Some('\u{8}')
    } else if c == 'f' {
        Some('\u{c}')
    } else if c == 'n' {
        Some('\n')
    } else if c == 'r' {
        Some('\r')
    } else if c == 't' {
        Some('\t')
    } else {
        None
    }
}

/// Decodes a JSON string literal `text`, quotes included: the characters
/// it stands for, or the message of its first bad escape, as
/// [`decode_from`] says from the first character after the opening quote.
pub fn decode_string(text: &str) -> (r: Result<String, String>)
    requires
        text@.len() >= 1,
    ensures
        match decode_from(text@, 1) {
            Ok(cs) => r matches Ok(v) && v@ == cs,
            Err(m) => r matches Err(v) && v@ == m,
        },
{
    let ghost s = text@;
    let n = text.unicode_len();
    let mut chars: Vec<char> = Vec::new();
    let mut k: usize = 0;
    while k < n
        invariant
            n == s.len(),
            s == text@,
            k <= n,
            chars@ == s.take(k as int),
        decreases n - k,
    {
        chars.push(text.get_char(k));
        proof {
            assert(s.take(k + 1) =~= s.take(k as int).push(s[k as int]));
        }
        k = k + 1;
    }
    proof {
        assert(s.take(n as int) =~= s);
    }
    let mut d = StringDecoder { chars, offset: 1 };
    let mut out: Vec<char> = Vec::new();
    proof {
        assert(out@ + Seq::<char>::empty() =~= Seq::<char>::empty());
        assert(decode_from(s, 1) == prefixed(out@, decode_from(s, 1))) by {
            match decode_from(s, 1) {
                Ok(x) => {
                    assert(out@ + x =~= x);
                },
                Err(_) => {},
            }
        }
    }
    while d.offset < d.chars.len() - 1
        invariant
            d.chars@ == s,
            s == text@,
            1 <= s.len(),
            1 <= d.offset <= s.len(),
            decode_from(s, 1) == prefixed(out@, decode_from(s, d.offset as int)),
        decreases s.len() - d.offset,
    {
        let ghost i = d.offset as int;
        let ghost before = out@;
        match d.next_char() {
            Ok(c) => {
                out.push(c);
                proof {
                    lemma_prefixed_push(before, c, decode_from(s, d.offset as int));
                }
            },
            Err(message) => {
                proof {
                    assert(i < s.len() - 1);
                    assert(decode_step(s, i) is Err);
                    assert(decode_from(s, i) == Err::<Seq<char>, Seq<char>>(message@));
                }
                return Err(message);
            },
        }
    }
    proof {
        assert(out@ + Seq::<char>::empty() =~= out@);
    }
    Ok(string_from_chars(&out))
}

/// Prefixing `p` to `c` followed by `r` is prefixing `p` and `c` to `r`.
proof fn lemma_prefixed_push(p: Seq<char>, c: char, r: Result<Seq<char>, Seq<char>>)
    ensures
        prefixed(p, prefixed(seq![c], r)) == prefixed(p.push(c), r),
{
    match r {
        Ok(rest) => {
            assert(p + (seq![c] + rest) =~= p.push(c) + rest);
        },
        Err(_) => {},
    }
}

/// 16 to the power `k`, for `k` up to 4.
pub open spec fn pow16(k: int) -> int {
    if k <= 0 {
        1
    } else if k == 1 {
        16
    } else if k == 2 {
        256
    } else if k == 3 {
        4096
    } else {
        65536
    }
}

/// The value of the first `k` of the four digits at `i`.
pub open spec fn quad_prefix(s: Seq<char>, i: int, k: int) -> int
    decreases k,
{
    if k <= 0 {
        0
    } else {
        quad_prefix(s, i, k - 1) * 16 + match hex_digit(s[i + k - 1]) {
            Some(d) => d,
            None => 0,
        }
    }
}

} // verus!
