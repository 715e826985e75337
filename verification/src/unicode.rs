//! UTF-8, read and written a scalar at a time.
//!
//! The definitions are vstd's: `valid_utf8`, `decode_first_scalar` and
//! `encode_scalar`. What is here computes them, with the same expressions the
//! definitions are written in.

use vstd::prelude::*;
use vstd::utf8::*;

verus! {

/// The first scalar encoded at byte `at` of `s`, and how many bytes it takes,
/// or nothing where no well-formed scalar begins there.
pub fn first_scalar(s: &[u8], at: usize) -> (r: Option<(u32, usize)>)
    requires
        at <= s@.len(),
    ensures
        r is Some <==> (at < s@.len() && valid_first_scalar(s@.skip(at as int))),
        r matches Some((c, n)) ==> {
            &&& c == decode_first_scalar(s@.skip(at as int))
            &&& n == length_of_first_scalar(s@.skip(at as int))
            &&& 1 <= n <= 4
            &&& at + n <= s@.len()
        },
{
    let ghost t = s@.skip(at as int);
    let left = s.len() - at;
    if left == 0 {
        return None;
    }
    let b0 = s[at];
    assert(t[0] == b0);
    if b0 <= 0x7f {
        let c: u32 = (b0 & 0x7F) as u32;
        if 0xD800 <= c && c <= 0xDFFF {
            return None;
        }
        return Some((c, 1));
    }
    if 0xc0 <= b0 && b0 <= 0xdf {
        if left < 2 || !(0x80 <= s[at + 1] && s[at + 1] <= 0xbf) {
            assert(left >= 2 ==> t[1] == s@[at + 1]);
            return None;
        }
        let b1 = s[at + 1];
        assert(t[1] == b1);
        let c: u32 = (((b0 & 0x1F) as u32) << 6) | ((b1 & 0x3f) as u32);
        if !(0x80 <= c) || (0xD800 <= c && c <= 0xDFFF) {
            return None;
        }
        return Some((c, 2));
    }
    if 0xe0 <= b0 && b0 <= 0xef {
        if left < 3 || !(0x80 <= s[at + 1] && s[at + 1] <= 0xbf) || !(0x80 <= s[at + 2] && s[at
            + 2] <= 0xbf) {
            assert(left >= 3 ==> t[1] == s@[at + 1] && t[2] == s@[at + 2]);
            return None;
        }
        let b1 = s[at + 1];
        let b2 = s[at + 2];
        assert(t[1] == b1 && t[2] == b2);
        let c: u32 = (((b0 & 0x0F) as u32) << 12) | (((b1 & 0x3f) as u32) << 6) | ((b2 & 0x3f)
            as u32);
        if !(0x800 <= c) || (0xD800 <= c && c <= 0xDFFF) {
            return None;
        }
        return Some((c, 3));
    }
    if 0xf0 <= b0 && b0 <= 0xf7 {
        if left < 4 || !(0x80 <= s[at + 1] && s[at + 1] <= 0xbf) || !(0x80 <= s[at + 2] && s[at
            + 2] <= 0xbf) || !(0x80 <= s[at + 3] && s[at + 3] <= 0xbf) {
            assert(left >= 4 ==> t[1] == s@[at + 1] && t[2] == s@[at + 2] && t[3] == s@[at + 3]);
            return None;
        }
        let b1 = s[at + 1];
        let b2 = s[at + 2];
        let b3 = s[at + 3];
        assert(t[1] == b1 && t[2] == b2 && t[3] == b3);
        let c: u32 = (((b0 & 0x07) as u32) << 18) | (((b1 & 0x3f) as u32) << 12) | (((b2
            & 0x3f) as u32) << 6) | ((b3 & 0x3f) as u32);
        if !(0x10000 <= c && c <= 0x10ffff) || (0xD800 <= c && c <= 0xDFFF) {
            return None;
        }
        return Some((c, 4));
    }
    None
}

/// Whether `s` is well-formed UTF-8.
pub fn is_utf8(s: &[u8]) -> (r: bool)
    ensures
        r == valid_utf8(s@),
{
    let n = s.len();
    let mut at: usize = 0;
    assert(s@.skip(0) == s@);
    while at < n
        invariant
            n == s@.len(),
            0 <= at <= n,
            valid_utf8(s@) == valid_utf8(s@.skip(at as int)),
        decreases n - at,
    {
        let ghost t = s@.skip(at as int);
        match first_scalar(s, at) {
            None => {
                return false;
            },
            Some((_, k)) => {
                assert(pop_first_scalar(t) == s@.skip(at + k));
                at = at + k;
            },
        }
    }
    assert(s@.skip(n as int) =~= Seq::<u8>::empty());
    true
}

/// Appends the UTF-8 encoding of scalar `c` to `out`.
pub fn push_scalar(out: &mut Vec<u8>, c: u32)
    requires
        is_scalar(c),
    ensures
        final(out)@ == old(out)@ + encode_scalar(c),
{
    if c <= 0x7F {
        out.push((c & 0x7F) as u8);
    } else if c <= 0x7FF {
        out.push(0xC0 | ((c >> 6) & 0x1F) as u8);
        out.push(0x80 | (c & 0x3F) as u8);
    } else if c <= 0xFFFF {
        out.push(0xE0 | ((c >> 12) & 0x0F) as u8);
        out.push(0x80 | ((c >> 6) & 0x3F) as u8);
        out.push(0x80 | (c & 0x3F) as u8);
    } else {
        out.push(0xF0 | ((c >> 18) & 0x7) as u8);
        out.push(0x80 | ((c >> 12) & 0x3F) as u8);
        out.push(0x80 | ((c >> 6) & 0x3F) as u8);
        out.push(0x80 | (c & 0x3F) as u8);
    }
}

/// The character a scalar value is: `char::from_u32`, which std documents as
/// `Some` exactly for a value that is a character, that is, at most 0x10FFFF
/// and outside the surrogates, and the character has that value.
#[verifier::external_body]
pub fn char_of(v: u32) -> (r: Option<char>)
    ensures
        r is Some <==> is_scalar(v),
        r matches Some(c) ==> c as u32 == v,
{
    char::from_u32(v)
}

} // verus!
