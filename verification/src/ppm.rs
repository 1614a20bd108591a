//! The binary PPM (`P6`) image format: decoding a texture file and
//! encoding a rendered frame.
use vstd::prelude::*;
use vstd::string::StringSliceAdditionalSpecFns;

use crate::decimal::{all_digits, decimal, digits_value, is_digit, lemma_decimal, parse_unsigned, parse_usize, push_decimal, unsigned_digits};
use crate::image::Image;
use crate::text::{
    is_ascii_ws, lemma_span, line_end, next_token, not_newline, skip_token, skip_whitespace,
    split_line, token_len, trim, trim_bounds, trim_end, trim_start, ws_len, ws_len_back,
};
use crate::utf8::is_valid_utf8;
use vstd::utf8::{
    is_leading_byte_width_1, partial_valid_utf8, partial_valid_utf8_extend_ascii_block, valid_utf8,
};

verus! {

/// Why a byte string is not a `P6` image with a maximum value of 255.
/// `InvalidUtf8` is an input error: reading a header line into text fails.
/// The other variants are malformed headers, on which reading a texture
/// stops the program.
#[derive(Debug, Clone, Copy, PartialEq, Eq, Structural)]
pub enum PpmError {
    /// A header line, read when its turn comes, is not valid UTF-8.
    InvalidUtf8,
    /// The first line, trimmed, is not `P6`.
    BadMagic,
    /// The second line holds fewer than two size tokens.
    MissingDimension,
    /// A size token is not an unsigned integer that fits in a `usize`.
    BadDimension,
    /// The third line, trimmed, is not an unsigned integer that fits in a `usize`.
    BadMaxValue,
    /// The maximum value is a number other than 255.
    UnsupportedMaxValue,
}

/// The first header line, trimmed, is the magic number `P6`.
pub open spec fn magic_ok(line: Seq<u8>) -> bool {
    trim(line) == seq![80u8, 54u8]
}

/// Width and height from the second header line: its first two
/// whitespace-separated tokens, read as `usize` numbers; the rest of the
/// line is ignored.
pub open spec fn size_line(line: Seq<u8>) -> Result<(nat, nat), PpmError> {
    match next_token(line) {
        None => Err(PpmError::MissingDimension),
        Some((t1, rest)) => match parse_unsigned(t1) {
            None => Err(PpmError::BadDimension),
            Some(w) => match next_token(rest) {
                None => Err(PpmError::MissingDimension),
                Some((t2, _)) => match parse_unsigned(t2) {
                    None => Err(PpmError::BadDimension),
                    Some(h) => Ok((w, h)),
                },
            },
        },
    }
}

/// The third header line, trimmed, reads as the number 255.
pub open spec fn max_value_line(line: Seq<u8>) -> Result<(), PpmError> {
    match parse_unsigned(trim(line)) {
        None => Err(PpmError::BadMaxValue),
        Some(m) => if m == 255 {
            Ok(())
        } else {
            Err(PpmError::UnsupportedMaxValue)
        },
    }
}

/// What reading a `P6` file gives: its width, its height and every byte after
/// the three header lines. Each line must be valid UTF-8 when it is read;
/// then the magic number, the size and the maximum value are checked, in
/// that order.
pub open spec fn ppm_decode(s: Seq<u8>) -> Result<(nat, nat, Seq<u8>), PpmError> {
    let (l1, r1) = split_line(s);
    if !valid_utf8(l1) {
        Err(PpmError::InvalidUtf8)
    } else if !magic_ok(l1) {
        Err(PpmError::BadMagic)
    } else {
        let (l2, r2) = split_line(r1);
        if !valid_utf8(l2) {
            Err(PpmError::InvalidUtf8)
        } else {
            match size_line(l2) {
                Err(e) => Err(e),
                Ok((w, h)) => {
                    let (l3, r3) = split_line(r2);
                    if !valid_utf8(l3) {
                        Err(PpmError::InvalidUtf8)
                    } else {
                        match max_value_line(l3) {
                            Err(e) => Err(e),
                            Ok(_) => Ok((w, h, r3)),
                        }
                    }
                },
            }
        }
    }
}

/// The header of `s` is malformed: reading it as a texture stops the
/// program rather than returning an input error.
pub open spec fn ppm_header_malformed(s: Seq<u8>) -> bool {
    ppm_decode(s) matches Err(e) && e != PpmError::InvalidUtf8
}

/// The bytes of a `P6` file: `P6`, the width and the height in decimal
/// separated by a space, the maximum value 255, each header item on a line of
/// its own, then the pixel bytes.
pub open spec fn ppm_encoding(w: nat, h: nat, pixels: Seq<u8>) -> Seq<u8> {
    seq![80u8, 54u8, 10u8] + decimal(w) + seq![32u8] + decimal(h) + seq![10u8, 50u8, 53u8, 53u8, 10u8]
        + pixels
}

/// Checks the magic line `bytes[lo..hi]`.
fn check_magic(bytes: &[u8], lo: usize, hi: usize) -> (ok: bool)
    requires
        lo <= hi <= bytes.len(),
    ensures
        ok == magic_ok(bytes@.subrange(lo as int, hi as int)),
{
    let (a, b) = trim_bounds(bytes, lo, hi);
    let ghost t = bytes@.subrange(a as int, b as int);
    if b - a == 2 && bytes[a] == 80 && bytes[a + 1] == 54 {
        assert(t =~= seq![80u8, 54u8]);
        true
    } else {
        proof {
            if t == seq![80u8, 54u8] {
                assert(t[0] == bytes[a as int]);
                assert(t[1] == bytes[a + 1]);
            }
        }
        false
    }
}

/// Reads the size line `bytes[lo..hi]`.
fn read_size_line(bytes: &[u8], lo: usize, hi: usize) -> (r: Result<(usize, usize), PpmError>)
    requires
        lo <= hi <= bytes.len(),
    ensures
        match size_line(bytes@.subrange(lo as int, hi as int)) {
            Ok((w, h)) => r == Ok::<(usize, usize), PpmError>((w as usize, h as usize))
                && w <= usize::MAX && h <= usize::MAX,
            Err(e) => r == Err::<(usize, usize), PpmError>(e),
        },
{
    let ghost s = bytes@;
    let ghost l2 = s.subrange(lo as int, hi as int);
    let t1s = skip_whitespace(bytes, lo, hi);
    assert(trim_start(l2) =~= s.subrange(t1s as int, hi as int));
    if t1s == hi {
        return Err(PpmError::MissingDimension);
    }
    let t1e = skip_token(bytes, t1s, hi);
    let ghost t1 = next_token(l2).unwrap().0;
    let ghost rest = next_token(l2).unwrap().1;
    assert(t1 =~= s.subrange(t1s as int, t1e as int));
    assert(rest =~= s.subrange(t1e as int, hi as int));
    let w = match parse_usize(bytes, t1s, t1e) {
        None => {
            return Err(PpmError::BadDimension);
        },
        Some(w) => w,
    };
    let t2s = skip_whitespace(bytes, t1e, hi);
    assert(trim_start(rest) =~= s.subrange(t2s as int, hi as int));
    if t2s == hi {
        return Err(PpmError::MissingDimension);
    }
    let t2e = skip_token(bytes, t2s, hi);
    let ghost t2 = next_token(rest).unwrap().0;
    assert(t2 =~= s.subrange(t2s as int, t2e as int));
    let h = match parse_usize(bytes, t2s, t2e) {
        None => {
            return Err(PpmError::BadDimension);
        },
        Some(h) => h,
    };
    Ok((w, h))
}

/// Checks the maximum-value line `bytes[lo..hi]`.
fn check_max_value(bytes: &[u8], lo: usize, hi: usize) -> (r: Result<(), PpmError>)
    requires
        lo <= hi <= bytes.len(),
    ensures
        r == max_value_line(bytes@.subrange(lo as int, hi as int)),
{
    let (c, d) = trim_bounds(bytes, lo, hi);
    match parse_usize(bytes, c, d) {
        None => Err(PpmError::BadMaxValue),
        Some(m) => if m == 255 {
            Ok(())
        } else {
            Err(PpmError::UnsupportedMaxValue)
        },
    }
}

/// `bytes[lo..]` as a vector.
fn copy_tail(bytes: &[u8], lo: usize) -> (r: Vec<u8>)
    requires
        lo <= bytes.len(),
    ensures
        r@ == bytes@.subrange(lo as int, bytes.len() as int),
{
    let mut data: Vec<u8> = Vec::new();
    let mut i = lo;
    while i < bytes.len()
        invariant
            lo <= i <= bytes.len(),
            data@ =~= bytes@.subrange(lo as int, i as int),
        decreases bytes.len() - i,
    {
        data.push(bytes[i]);
        i = i + 1;
    }
    data
}

/// Reads the three header lines of `bytes`: the width, the height and where
/// the pixel data starts.
fn decode_header(bytes: &[u8]) -> (r: Result<(usize, usize, usize), PpmError>)
    ensures
        match ppm_decode(bytes@) {
            Ok((w, h, d)) => r matches Ok((w2, h2, e)) && w2 == w && h2 == h && e <= bytes.len()
                && d == bytes@.subrange(e as int, bytes.len() as int),
            Err(e) => r == Err::<(usize, usize, usize), PpmError>(e),
        },
{
    let ghost s = bytes@;
    let n = bytes.len();
    assert(s.subrange(0, n as int) =~= s);
    let e1 = line_end(bytes, 0);
    let ghost r1 = split_line(s).1;
    assert(split_line(s).0 =~= s.subrange(0, e1 as int));
    assert(r1 =~= s.subrange(e1 as int, n as int));
    if !is_valid_utf8(bytes, 0, e1) {
        return Err(PpmError::InvalidUtf8);
    }
    if !check_magic(bytes, 0, e1) {
        return Err(PpmError::BadMagic);
    }
    let e2 = line_end(bytes, e1);
    let ghost r2 = split_line(r1).1;
    assert(split_line(r1).0 =~= s.subrange(e1 as int, e2 as int));
    assert(r2 =~= s.subrange(e2 as int, n as int));
    if !is_valid_utf8(bytes, e1, e2) {
        return Err(PpmError::InvalidUtf8);
    }
    let (w, h) = match read_size_line(bytes, e1, e2) {
        Err(e) => {
            return Err(e);
        },
        Ok(wh) => wh,
    };
    let e3 = line_end(bytes, e2);
    assert(split_line(r2).0 =~= s.subrange(e2 as int, e3 as int));
    assert(split_line(r2).1 =~= s.subrange(e3 as int, n as int));
    if !is_valid_utf8(bytes, e2, e3) {
        return Err(PpmError::InvalidUtf8);
    }
    match check_max_value(bytes, e2, e3) {
        Err(e) => {
            return Err(e);
        },
        Ok(_) => {},
    }
    Ok((w, h, e3))
}

/// Checks the header of a texture file: `Ok` where it decodes, else the
/// first failure, as `ppm_decode` orders them.
pub fn check_ppm_header(bytes: &[u8]) -> (r: Result<(), PpmError>)
    ensures
        r == (match ppm_decode(bytes@) {
            Ok(_) => Ok(()),
            Err(e) => Err::<(), PpmError>(e),
        }),
{
    match decode_header(bytes) {
        Ok(_) => Ok(()),
        Err(e) => Err(e),
    }
}

impl Image {
    /// Decodes the bytes of a `P6` file with maximum value 255 into an image
    /// whose data is every byte after the header. A malformed header is left
    /// out (reading such a texture stops the program); the one error left is
    /// a header line that is not valid UTF-8.
    pub fn parse_ppm(bytes: &[u8]) -> (r: Result<Image, PpmError>)
        requires
            !ppm_header_malformed(bytes@),
        ensures
            r is Ok <==> ppm_decode(bytes@) is Ok,
            r matches Ok(img) ==> ppm_decode(bytes@) == Ok::<(nat, nat, Seq<u8>), PpmError>(
                (img.w as nat, img.h as nat, img.data@),
            ),
            r matches Err(e) ==> e == PpmError::InvalidUtf8 && ppm_decode(bytes@) == Err::<
                (nat, nat, Seq<u8>),
                PpmError,
            >(e),
    {
        match decode_header(bytes) {
            Err(e) => Err(e),
            Ok((w, h, e3)) => {
                let data = copy_tail(bytes, e3);
                Ok(Image { w, h, data })
            },
        }
    }
}

/// Encodes a `P6` file of the given size from its pixel bytes (three per
/// pixel, row by row), with maximum value 255.
pub fn encode_ppm(pixels: &[u8], w: usize, h: usize) -> (r: Vec<u8>)
    ensures
        r@ == ppm_encoding(w as nat, h as nat, pixels@),
{
    let mut out: Vec<u8> = Vec::new();
    out.push(80);
    out.push(54);
    out.push(10);
    push_decimal(&mut out, w);
    out.push(32);
    push_decimal(&mut out, h);
    out.push(10);
    out.push(50);
    out.push(53);
    out.push(53);
    out.push(10);
    let ghost header = out@;
    let mut i: usize = 0;
    while i < pixels.len()
        invariant
            i <= pixels.len(),
            out@ =~= header + pixels@.take(i as int),
        decreases pixels.len() - i,
    {
        out.push(pixels[i]);
        i = i + 1;
    }
    assert(pixels@.take(i as int) =~= pixels@);
    assert(out@ =~= ppm_encoding(w as nat, h as nat, pixels@));
    out
}

/// Bytes below 0x80 are valid UTF-8.
proof fn lemma_ascii_valid_utf8(s: Seq<u8>)
    requires
        forall|i: int| 0 <= i < s.len() ==> #[trigger] s[i] < 0x80,
    ensures
        valid_utf8(s),
{
    assert(s.subrange(0, 0) =~= Seq::<u8>::empty());
    assert(partial_valid_utf8(s, 0));
    assert forall|i: int| 0 <= i < s.len() implies #[trigger] is_leading_byte_width_1(s[i]) by {}
    partial_valid_utf8_extend_ascii_block(s, 0, s.len() as int);
    assert(s.subrange(0, s.len() as int) =~= s);
}

/// A digit starts no whitespace character.
proof fn lemma_digit_not_ws(s: Seq<u8>)
    requires
        s.len() > 0,
        is_digit(s[0]),
    ensures
        ws_len(s) == 0,
{
}

/// The token of `d + rest` is `d` where `d` is digits and `rest` starts with ASCII whitespace.
proof fn lemma_digits_token(d: Seq<u8>, rest: Seq<u8>)
    requires
        all_digits(d),
        rest.len() > 0,
        is_ascii_ws(rest[0]),
    ensures
        token_len(d + rest) == d.len(),
    decreases d.len(),
{
    let s = d + rest;
    if d.len() == 0 {
        assert(s =~= rest);
    } else {
        assert(s[0] == d[0]);
        lemma_digit_not_ws(s);
        let e = d.drop_first();
        assert(all_digits(e)) by {
            assert forall|i: int| 0 <= i < e.len() implies is_digit(#[trigger] e[i]) by {
                assert(e[i] == d[i + 1]);
            }
        }
        lemma_digits_token(e, rest);
        assert(s.drop_first() =~= e + rest);
    }
}

/// The first line of an encoding is `P6`.
proof fn lemma_encoding_magic(s: Seq<u8>, rest: Seq<u8>)
    requires
        s == seq![80u8, 54u8, 10u8] + rest,
    ensures
        valid_utf8(split_line(s).0),
        magic_ok(split_line(s).0),
        split_line(s).1 == rest,
{
    assert(s[0] == 80u8 && s[1] == 54u8 && s[2] == 10u8);
    lemma_span(s, not_newline(), 2);
    let l1 = split_line(s).0;
    assert(l1 =~= seq![80u8, 54u8, 10u8]);
    assert(split_line(s).1 =~= rest);
    lemma_ascii_valid_utf8(l1);
    assert(trim_start(l1) == l1);
    assert(l1.skip(2) =~= seq![10u8]);
    assert(ws_len_back(l1) == 1);
    let p = seq![80u8, 54u8];
    assert(l1.take(2) =~= p);
    assert(p.skip(1) =~= seq![54u8]);
    assert(p.skip(0) =~= p);
    assert(ws_len_back(p) == 0);
    assert(trim_end(p) == p);
    assert(trim(l1) =~= p);
}

/// The second line of an encoding is the size line `w h`.
proof fn lemma_encoding_size_line(w: nat, h: nat, r1: Seq<u8>, tail: Seq<u8>)
    requires
        w <= usize::MAX,
        h <= usize::MAX,
        r1 == decimal(w) + seq![32u8] + decimal(h) + seq![10u8] + tail,
    ensures
        valid_utf8(split_line(r1).0),
        size_line(split_line(r1).0) == Ok::<(nat, nat), PpmError>((w, h)),
        split_line(r1).1 == tail,
{
    let d1 = decimal(w);
    let d2 = decimal(h);
    lemma_decimal(w);
    lemma_decimal(h);
    let n1 = d1.len() as int;
    let n2 = d2.len() as int;
    let ln = n1 + 1 + n2;
    assert forall|j: int| 0 <= j < ln implies not_newline()(#[trigger] r1[j]) && r1[j] < 0x80 by {
        if j < n1 {
            assert(r1[j] == d1[j]);
            assert(is_digit(d1[j]));
        } else if j == n1 {
            assert(r1[j] == 32u8);
        } else {
            assert(r1[j] == d2[j - n1 - 1]);
            assert(is_digit(d2[j - n1 - 1]));
        }
    }
    assert(r1[ln] == 10u8);
    lemma_span(r1, not_newline(), ln);
    let l2 = split_line(r1).0;
    assert(l2 =~= d1 + seq![32u8] + d2 + seq![10u8]);
    assert(split_line(r1).1 =~= tail);
    assert forall|i: int| 0 <= i < l2.len() implies #[trigger] l2[i] < 0x80 by {
        if i < ln {
            assert(l2[i] == r1[i]);
        }
    }
    lemma_ascii_valid_utf8(l2);
    lemma_size_tokens(w, h, l2);
}

/// The tokens of the line `w h` read back as `w` and `h`.
proof fn lemma_size_tokens(w: nat, h: nat, l2: Seq<u8>)
    requires
        w <= usize::MAX,
        h <= usize::MAX,
        l2 == decimal(w) + seq![32u8] + decimal(h) + seq![10u8],
    ensures
        size_line(l2) == Ok::<(nat, nat), PpmError>((w, h)),
{
    let d1 = decimal(w);
    let d2 = decimal(h);
    lemma_decimal(w);
    lemma_decimal(h);
    let n1 = d1.len() as int;
    let rest = seq![32u8] + d2 + seq![10u8];
    assert(l2 =~= d1 + rest);
    assert(l2[0] == d1[0]);
    lemma_digit_not_ws(l2);
    assert(trim_start(l2) == l2);
    lemma_digits_token(d1, rest);
    let t1 = next_token(l2).unwrap().0;
    assert(t1 =~= d1);
    assert(next_token(l2).unwrap().1 =~= rest);
    assert(unsigned_digits(d1) =~= d1);
    assert(parse_unsigned(t1) == Some(w));
    assert(ws_len(rest) == 1);
    let t = d2 + seq![10u8];
    assert(rest.skip(1) =~= t);
    assert(t[0] == d2[0]);
    lemma_digit_not_ws(t);
    assert(trim_start(t) == t);
    assert(trim_start(rest) == t);
    lemma_digits_token(d2, seq![10u8]);
    let t2 = next_token(rest).unwrap().0;
    assert(t2 =~= d2);
    assert(unsigned_digits(d2) =~= d2);
    assert(parse_unsigned(t2) == Some(h));
}

/// The third line of an encoding is `255`.
proof fn lemma_encoding_max_line(r2: Seq<u8>, pixels: Seq<u8>)
    requires
        r2 == seq![50u8, 53u8, 53u8, 10u8] + pixels,
    ensures
        valid_utf8(split_line(r2).0),
        max_value_line(split_line(r2).0) == Ok::<(), PpmError>(()),
        split_line(r2).1 == pixels,
{
    assert forall|j: int| 0 <= j < 3 implies not_newline()(#[trigger] r2[j]) by {}
    assert(r2[3] == 10u8);
    lemma_span(r2, not_newline(), 3);
    let l3 = split_line(r2).0;
    assert(l3 =~= seq![50u8, 53u8, 53u8, 10u8]);
    assert(split_line(r2).1 =~= pixels);
    lemma_ascii_valid_utf8(l3);
    assert(trim_start(l3) == l3);
    assert(l3.skip(3) =~= seq![10u8]);
    assert(ws_len_back(l3) == 1);
    let m = seq![50u8, 53u8, 53u8];
    assert(l3.take(3) =~= m);
    assert(m.skip(2) =~= seq![53u8]);
    assert(m.skip(1) =~= seq![53u8, 53u8]);
    assert(m.skip(0) =~= m);
    assert(ws_len_back(m) == 0);
    assert(trim_end(m) == m);
    assert(trim(l3) =~= m);
    assert(unsigned_digits(m) =~= m);
    lemma_value_255(m);
}

proof fn lemma_value_255(m: Seq<u8>)
    requires
        m == seq![50u8, 53u8, 53u8],
    ensures
        all_digits(m),
        digits_value(m) == 255,
{
    let a = seq![50u8];
    let b = seq![50u8, 53u8];
    assert(a.drop_last() =~= Seq::<u8>::empty());
    assert(digits_value(a.drop_last()) == 0);
    assert(a.last() == 50u8);
    assert(digits_value(a) == 2);
    assert(b.drop_last() =~= a);
    assert(digits_value(b) == 25);
    assert(m.drop_last() =~= b);
}

/// The header's fixed parts are the texts `P6`, a line feed, a space and `255`.
pub proof fn lemma_ppm_header_text(w: nat, h: nat, pixels: Seq<u8>, line: Seq<u8>)
    ensures
        ppm_encoding(w, h, pixels) == "P6\n".spec_bytes() + decimal(w) + " ".spec_bytes() + decimal(h)
            + "\n255\n".spec_bytes() + pixels,
        magic_ok(line) <==> trim(line) == "P6".spec_bytes(),
        max_value_line(line) is Ok <==> parse_unsigned(trim(line)) == Some(255nat),
{
    reveal_strlit("P6\n");
    reveal_strlit(" ");
    reveal_strlit("\n255\n");
    reveal_strlit("P6");
    vstd::string::is_ascii_spec_bytes("P6\n");
    vstd::string::is_ascii_spec_bytes(" ");
    vstd::string::is_ascii_spec_bytes("\n255\n");
    vstd::string::is_ascii_spec_bytes("P6");
    assert("P6\n".spec_bytes() =~= seq![80u8, 54u8, 10u8]);
    assert(" ".spec_bytes() =~= seq![32u8]);
    assert("\n255\n".spec_bytes() =~= seq![10u8, 50u8, 53u8, 53u8, 10u8]);
    assert("P6".spec_bytes() =~= seq![80u8, 54u8]);
}

/// Reading back what `encode_ppm` wrote gives the same width, height and
/// pixel bytes: a frame written as `P6` is a valid texture file.
pub proof fn lemma_ppm_roundtrip(w: nat, h: nat, pixels: Seq<u8>)
    requires
        w <= usize::MAX,
        h <= usize::MAX,
    ensures
        ppm_decode(ppm_encoding(w, h, pixels)) == Ok::<(nat, nat, Seq<u8>), PpmError>((w, h, pixels)),
{
    let s = ppm_encoding(w, h, pixels);
    let tail = seq![50u8, 53u8, 53u8, 10u8] + pixels;
    let r1 = decimal(w) + seq![32u8] + decimal(h) + seq![10u8] + tail;
    assert(s =~= seq![80u8, 54u8, 10u8] + r1);
    lemma_encoding_magic(s, r1);
    lemma_encoding_size_line(w, h, r1, tail);
    lemma_encoding_max_line(tail, pixels);
}

} // verus!
