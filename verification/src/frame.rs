//! Frame bookkeeping: where each pixel of a frame buffer lies on the screen,
//! and the file name under which each frame of the animation is written.
use vstd::prelude::*;
use vstd::string::StringSliceAdditionalSpecFns;

use crate::decimal::{all_digits, decimal, digits_value, is_digit, lemma_decimal, push_decimal};

verus! {

/// Column and row of the pixel stored at `idx` in a row-by-row buffer of
/// the given width.
pub fn pixel_coords(idx: usize, width: usize) -> (r: (usize, usize))
    requires
        width > 0,
    ensures
        r.0 == idx % width,
        r.1 == idx / width,
        r.0 < width,
        r.1 * width + r.0 == idx,
{
    let x = idx % width;
    let y = idx / width;
    assert(y * width + x == idx) by (nonlinear_arith)
        requires
            width > 0,
            x == idx % width,
            y == idx / width,
    ;
    (x, y)
}

/// `n` bytes `'0'`.
pub open spec fn zeros(n: nat) -> Seq<u8> {
    Seq::new(n, |_i: int| 48u8)
}

/// `d` with `'0'` bytes in front until it is `width` bytes long.
pub open spec fn zero_pad(d: Seq<u8>, width: nat) -> Seq<u8> {
    if d.len() >= width {
        d
    } else {
        zeros((width - d.len()) as nat) + d
    }
}

/// `frames/frame_` in ASCII.
pub open spec fn frame_name_prefix() -> Seq<u8> {
    seq![102u8, 114u8, 97u8, 109u8, 101u8, 115u8, 47u8, 102u8, 114u8, 97u8, 109u8, 101u8, 95u8]
}

/// `.ppm` in ASCII.
pub open spec fn frame_name_suffix() -> Seq<u8> {
    seq![46u8, 112u8, 112u8, 109u8]
}

/// The file name of frame `i`: `frames/frame_`, the frame number in decimal
/// with zeros in front up to three digits, then `.ppm`.
pub open spec fn frame_name(i: nat) -> Seq<u8> {
    frame_name_prefix() + zero_pad(decimal(i), 3) + frame_name_suffix()
}

/// The file name of frame `i`, as ASCII bytes.
pub fn frame_file_name(i: usize) -> (r: Vec<u8>)
    ensures
        r@ == frame_name(i as nat),
{
    let prefix: [u8; 13] = [102, 114, 97, 109, 101, 115, 47, 102, 114, 97, 109, 101, 95];
    let suffix: [u8; 4] = [46, 112, 112, 109];
    let mut digits: Vec<u8> = Vec::new();
    push_decimal(&mut digits, i);
    assert(digits@ =~= decimal(i as nat));
    let mut out: Vec<u8> = Vec::new();
    let mut k: usize = 0;
    while k < 13
        invariant
            k <= 13,
            prefix@ == frame_name_prefix(),
            out@ =~= frame_name_prefix().take(k as int),
        decreases 13 - k,
    {
        out.push(prefix[k]);
        k = k + 1;
    }
    let ghost head = out@;
    let mut n: usize = digits.len();
    while n < 3
        invariant
            digits.len() <= n,
            n <= 3 || n == digits.len(),
            out@ =~= head + zeros((n - digits.len()) as nat),
        decreases 3 - n,
    {
        out.push(48);
        n = n + 1;
    }
    let ghost padded = out@;
    let mut j: usize = 0;
    while j < digits.len()
        invariant
            j <= digits.len(),
            out@ =~= padded + digits@.take(j as int),
        decreases digits.len() - j,
    {
        out.push(digits[j]);
        j = j + 1;
    }
    let ghost body = out@;
    let mut m: usize = 0;
    while m < 4
        invariant
            m <= 4,
            suffix@ == frame_name_suffix(),
            out@ =~= body + frame_name_suffix().take(m as int),
        decreases 4 - m,
    {
        out.push(suffix[m]);
        m = m + 1;
    }
    assert(digits@.take(j as int) =~= digits@);
    assert(frame_name_suffix().take(4) =~= frame_name_suffix());
    assert(out@ =~= frame_name(i as nat));
    out
}

proof fn lemma_zeros_value(n: nat)
    ensures
        all_digits(zeros(n)),
        digits_value(zeros(n)) == 0,
    decreases n,
{
    if n > 0 {
        lemma_zeros_value((n - 1) as nat);
        assert(zeros(n).drop_last() =~= zeros((n - 1) as nat));
    } else {
        assert(zeros(n) =~= Seq::<u8>::empty());
    }
}

/// Zeros in front of a string of digits do not change the number it denotes.
proof fn lemma_leading_zeros(n: nat, d: Seq<u8>)
    requires
        all_digits(d),
    ensures
        all_digits(zeros(n) + d),
        digits_value(zeros(n) + d) == digits_value(d),
    decreases d.len(),
{
    lemma_zeros_value(n);
    let s = zeros(n) + d;
    assert forall|i: int| 0 <= i < s.len() implies is_digit(#[trigger] s[i]) by {
        if i < n {
            assert(s[i] == zeros(n)[i]);
        } else {
            assert(s[i] == d[i - n]);
        }
    }
    if d.len() == 0 {
        assert(s =~= zeros(n));
    } else {
        let e = d.drop_last();
        assert(all_digits(e)) by {
            assert forall|i: int| 0 <= i < e.len() implies is_digit(#[trigger] e[i]) by {
                assert(e[i] == d[i]);
            }
        }
        lemma_leading_zeros(n, e);
        assert(s.drop_last() =~= zeros(n) + e);
    }
}

/// The digits between `frames/frame_` and `.ppm` in the name of frame `i`
/// read back as `i`.
pub proof fn lemma_frame_name_number(i: nat)
    ensures
        ({
            let name = frame_name(i);
            let digits = name.subrange(13, name.len() - 4);
            &&& name.take(13) == frame_name_prefix()
            &&& name.skip(name.len() - 4) == frame_name_suffix()
            &&& all_digits(digits)
            &&& digits_value(digits) == i
            &&& (i < 1000 ==> digits.len() == 3)
            &&& (i >= 1000 ==> digits == decimal(i))
        }),
{
    lemma_decimal(i);
    let d = decimal(i);
    let p = zero_pad(d, 3);
    let name = frame_name(i);
    assert(name.subrange(13, name.len() - 4) =~= p);
    assert(name.take(13) =~= frame_name_prefix());
    assert(name.skip(name.len() - 4) =~= frame_name_suffix());
    if d.len() < 3 {
        lemma_leading_zeros((3 - d.len()) as nat, d);
    }
    lemma_decimal_len(i);
}

/// Numbers below 1000 have at most three decimal digits, and the others more.
proof fn lemma_decimal_len(i: nat)
    ensures
        i < 10 ==> decimal(i).len() == 1,
        i < 100 ==> decimal(i).len() <= 2,
        i < 1000 ==> decimal(i).len() <= 3,
        i >= 10 ==> decimal(i).len() >= 2,
        i >= 100 ==> decimal(i).len() >= 3,
        i >= 1000 ==> decimal(i).len() > 3,
    decreases i,
{
    lemma_decimal(i);
    if i >= 10 {
        lemma_decimal_len(i / 10);
        lemma_decimal(i / 10);
        assert(decimal(i).len() == decimal(i / 10).len() + 1);
    }
}

/// The name's fixed parts are the texts `frames/frame_` and `.ppm`.
pub proof fn lemma_frame_name_text()
    ensures
        frame_name_prefix() == "frames/frame_".spec_bytes(),
        frame_name_suffix() == ".ppm".spec_bytes(),
{
    reveal_strlit("frames/frame_");
    reveal_strlit(".ppm");
    vstd::string::is_ascii_spec_bytes("frames/frame_");
    vstd::string::is_ascii_spec_bytes(".ppm");
    assert(frame_name_prefix() =~= "frames/frame_".spec_bytes());
    assert(frame_name_suffix() =~= ".ppm".spec_bytes());
}

/// Different frames are written under different file names.
pub proof fn lemma_frame_names_distinct(i: nat, j: nat)
    requires
        i != j,
    ensures
        frame_name(i) != frame_name(j),
{
    lemma_frame_name_number(i);
    lemma_frame_name_number(j);
}

} // verus!
