//! Character classification and small text utilities shared by the
//! tokenizer, the parser and the renderer.

use vstd::prelude::*;
use vstd::string::StrSliceExecFns;

verus! {

/// The suffix of `s` starting at position `n`, clamped to the bounds of `s`.
pub open spec fn suffix<T>(s: Seq<T>, n: int) -> Seq<T> {
    if n < 0 {
        s
    } else if n > s.len() {
        Seq::empty()
    } else {
        s.subrange(n, s.len() as int)
    }
}

/// Dropping `a` then `b` elements is dropping `a + b` elements.
pub proof fn lemma_suffix_suffix<T>(s: Seq<T>, a: int, b: int)
    requires
        0 <= a,
        0 <= b,
    ensures
        suffix(suffix(s, a), b) == suffix(s, a + b),
{
    assert(suffix(suffix(s, a), b) =~= suffix(s, a + b));
}

/// Whether `c` has the Unicode `White_Space` property.
pub open spec fn is_ws_char(c: char) -> bool {
    let u = c as u32;
    u == 0x09 || u == 0x0A || u == 0x0B || u == 0x0C || u == 0x0D || u == 0x20 || u == 0x85
        || u == 0xA0 || u == 0x1680 || (0x2000 <= u && u <= 0x200A) || u == 0x2028 || u == 0x2029
        || u == 0x202F || u == 0x205F || u == 0x3000
}

/// Whether `c` is an ASCII decimal digit.
pub open spec fn is_digit_char(c: char) -> bool {
    0x30 <= (c as u32) && (c as u32) <= 0x39
}

/// Whether `c` is an ASCII hexadecimal digit, either case.
pub open spec fn is_hex_char(c: char) -> bool {
    is_digit_char(c) || (0x41 <= (c as u32) && (c as u32) <= 0x46) || (0x61 <= (c as u32) && (c
        as u32) <= 0x66)
}

/// The numeric value of a hexadecimal digit.
pub open spec fn hex_val(c: char) -> u8 {
    let u = c as u32;
    if 0x30 <= u && u <= 0x39 {
        (u - 0x30) as u8
    } else if 0x41 <= u && u <= 0x46 {
        (u - 0x37) as u8
    } else if 0x61 <= u && u <= 0x66 {
        (u - 0x57) as u8
    } else {
        0
    }
}

/// Whether `c` may begin a bare identifier: an ASCII letter or `_`.
pub open spec fn is_ident_start_char(c: char) -> bool {
    let u = c as u32;
    (0x41 <= u && u <= 0x5A) || (0x61 <= u && u <= 0x7A) || u == 0x5F
}

/// Whether `c` may continue a bare identifier: an ASCII letter, digit or `_`.
pub open spec fn is_ident_cont_char(c: char) -> bool {
    is_ident_start_char(c) || is_digit_char(c)
}

/// Whether every character of `s` may continue a bare identifier.
pub open spec fn all_ident_cont(s: Seq<char>) -> bool {
    forall|i: int| 0 <= i < s.len() ==> is_ident_cont_char(#[trigger] s[i])
}

/// Whether `s` is a bare identifier: `[A-Za-z_][A-Za-z0-9_]*`.
pub open spec fn is_ident(s: Seq<char>) -> bool {
    s.len() > 0 && is_ident_start_char(s[0]) && all_ident_cont(suffix(s, 1))
}

pub fn is_ws(c: char) -> (r: bool)
    ensures
        r == is_ws_char(c),
{
    let u = c as u32;
    u == 0x09 || u == 0x0A || u == 0x0B || u == 0x0C || u == 0x0D || u == 0x20 || u == 0x85
        || u == 0xA0 || u == 0x1680 || (0x2000 <= u && u <= 0x200A) || u == 0x2028 || u == 0x2029
        || u == 0x202F || u == 0x205F || u == 0x3000
}

pub fn is_digit(c: char) -> (r: bool)
    ensures
        r == is_digit_char(c),
{
    let u = c as u32;
    0x30 <= u && u <= 0x39
}

pub fn is_hex(c: char) -> (r: bool)
    ensures
        r == is_hex_char(c),
{
    let u = c as u32;
    (0x30 <= u && u <= 0x39) || (0x41 <= u && u <= 0x46) || (0x61 <= u && u <= 0x66)
}

pub fn hex_digit_val(c: char) -> (r: u8)
    requires
        is_hex_char(c),
    ensures
        r == hex_val(c),
        r < 16,
{
    let u = c as u32;
    if 0x30 <= u && u <= 0x39 {
        (u - 0x30) as u8
    } else if 0x41 <= u && u <= 0x46 {
        (u - 0x37) as u8
    } else {
        (u - 0x57) as u8
    }
}

pub fn is_ident_start(c: char) -> (r: bool)
    ensures
        r == is_ident_start_char(c),
{
    let u = c as u32;
    (0x41 <= u && u <= 0x5A) || (0x61 <= u && u <= 0x7A) || u == 0x5F
}

pub fn is_ident_cont(c: char) -> (r: bool)
    ensures
        r == is_ident_cont_char(c),
{
    is_ident_start(c) || is_digit(c)
}

/// Relies on `String::push`: appends one character at the end of the string.
#[verifier::external_body]
pub fn push_char(s: &mut String, c: char)
    ensures
        final(s)@ == old(s)@.push(c),
{
    s.push(c);
}

/// The characters of `s`, in order, as a vector.
pub fn string_to_chars(s: &str) -> (r: Vec<char>)
    ensures
        r@ == s@,
{
    let n = s.unicode_len();
    let mut v: Vec<char> = Vec::new();
    let mut i: usize = 0;
    while i < n
        invariant
            i <= n,
            n == s@.len(),
            v@ == s@.subrange(0, i as int),
        decreases n - i,
    {
        let c = s.get_char(i);
        v.push(c);
        assert(v@ =~= s@.subrange(0, i + 1 as int));
        i += 1;
    }
    assert(v@ =~= s@);
    v
}

} // verus!
