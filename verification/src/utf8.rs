//! Checking that header bytes are valid UTF-8, as reading a line into a
//! `String` requires.
use vstd::prelude::*;
use vstd::utf8::{
    codepoint_width_2, codepoint_width_3, codepoint_width_4, decode_first_codepoint,
    length_of_first_scalar, partial_valid_partial_invalid_utf8, partial_valid_utf8,
    partial_valid_utf8_extend, valid_first_scalar,
    valid_leading_and_continuation_bytes_first_codepoint, valid_utf8,
};

verus! {

/// Length of the UTF-8 encoding of one scalar at the start of `s[i..hi]`,
/// or `None` where `s[i..hi]` does not start with one.
fn first_scalar_len(s: &[u8], i: usize, hi: usize) -> (r: Option<usize>)
    requires
        i < hi <= s.len(),
    ensures
        r is Some <==> valid_first_scalar(s@.subrange(i as int, hi as int)),
        r matches Some(n) ==> n == length_of_first_scalar(s@.subrange(i as int, hi as int)),
{
    let ghost t = s@.subrange(i as int, hi as int);
    let rem = hi - i;
    let b0 = s[i];
    assert(t[0] == b0);
    if b0 <= 0x7f {
        let cp: u32 = (b0 & 0x7f) as u32;
        assert(cp <= 0x7f) by (bit_vector)
            requires
                cp == (b0 & 0x7f) as u32,
        ;
        assert(valid_leading_and_continuation_bytes_first_codepoint(t));
        assert(decode_first_codepoint(t) == cp);
        return Some(1);
    }
    if 0xc0 <= b0 && b0 <= 0xdf {
        if rem < 2 {
            return None;
        }
        let b1 = s[i + 1];
        assert(t[1] == b1);
        if !(0x80 <= b1 && b1 <= 0xbf) {
            return None;
        }
        let cp: u32 = (((b0 & 0x1F) as u32) << 6) | ((b1 & 0x3f) as u32);
        assert(cp == codepoint_width_2(b0, b1));
        assert(decode_first_codepoint(t) == cp);
        if 0x80 <= cp && !(0xD800 <= cp && cp <= 0xDFFF) {
            return Some(2);
        } else {
            return None;
        }
    }
    if 0xe0 <= b0 && b0 <= 0xef {
        if rem < 3 {
            return None;
        }
        let b1 = s[i + 1];
        let b2 = s[i + 2];
        assert(t[1] == b1 && t[2] == b2);
        if !(0x80 <= b1 && b1 <= 0xbf && 0x80 <= b2 && b2 <= 0xbf) {
            return None;
        }
        let cp: u32 = (((b0 & 0x0F) as u32) << 12) | (((b1 & 0x3f) as u32) << 6) | ((b2
            & 0x3f) as u32);
        assert(cp == codepoint_width_3(b0, b1, b2));
        assert(decode_first_codepoint(t) == cp);
        if 0x800 <= cp && !(0xD800 <= cp && cp <= 0xDFFF) {
            return Some(3);
        } else {
            return None;
        }
    }
    if 0xf0 <= b0 && b0 <= 0xf7 {
        if rem < 4 {
            return None;
        }
        let b1 = s[i + 1];
        let b2 = s[i + 2];
        let b3 = s[i + 3];
        assert(t[1] == b1 && t[2] == b2 && t[3] == b3);
        if !(0x80 <= b1 && b1 <= 0xbf && 0x80 <= b2 && b2 <= 0xbf && 0x80 <= b3 && b3 <= 0xbf) {
            return None;
        }
        let cp: u32 = (((b0 & 0x07) as u32) << 18) | (((b1 & 0x3f) as u32) << 12) | (((b2
            & 0x3f) as u32) << 6) | ((b3 & 0x3f) as u32);
        assert(cp == codepoint_width_4(b0, b1, b2, b3));
        assert(decode_first_codepoint(t) == cp);
        if 0x10000 <= cp && cp <= 0x10ffff && !(0xD800 <= cp && cp <= 0xDFFF) {
            return Some(4);
        } else {
            return None;
        }
    }
    None
}

/// Whether `s[lo..hi]` is valid UTF-8.
pub fn is_valid_utf8(s: &[u8], lo: usize, hi: usize) -> (b: bool)
    requires
        lo <= hi <= s.len(),
    ensures
        b == valid_utf8(s@.subrange(lo as int, hi as int)),
{
    let ghost t = s@.subrange(lo as int, hi as int);
    let mut i = lo;
    assert(t.subrange(0, 0) =~= Seq::<u8>::empty());
    while i < hi
        invariant
            lo <= i <= hi <= s.len(),
            t == s@.subrange(lo as int, hi as int),
            partial_valid_utf8(t, i - lo),
        decreases hi - i,
    {
        let ghost rest = t.subrange(i - lo, t.len() as int);
        assert(rest =~= s@.subrange(i as int, hi as int));
        match first_scalar_len(s, i, hi) {
            None => {
                proof {
                    assert(!valid_utf8(rest));
                    partial_valid_partial_invalid_utf8(t, i - lo);
                }
                return false;
            },
            Some(n) => {
                proof {
                    partial_valid_utf8_extend(t, i - lo);
                }
                i = i + n;
            },
        }
    }
    assert(t.subrange(0, t.len() as int) =~= t);
    true
}

} // verus!
