//! Unsigned decimal numbers as ASCII bytes: the text form of image sizes
//! and frame numbers.
use vstd::prelude::*;

verus! {

/// An ASCII decimal digit, `'0'..='9'`.
pub open spec fn is_digit(b: u8) -> bool {
    48 <= b <= 57
}

/// Every byte of `s` is a decimal digit.
pub open spec fn all_digits(s: Seq<u8>) -> bool {
    forall|i: int| 0 <= i < s.len() ==> is_digit(#[trigger] s[i])
}

/// The number that a string of decimal digits denotes, most significant digit first.
pub open spec fn digits_value(s: Seq<u8>) -> nat
    decreases s.len(),
{
    if s.len() == 0 {
        0
    } else {
        digits_value(s.drop_last()) * 10 + (s.last() - 48) as nat
    }
}

/// The shortest decimal text of `n` (no sign, no leading zeros; `"0"` for zero).
pub open spec fn decimal(n: nat) -> Seq<u8>
    decreases n,
{
    if n < 10 {
        seq![(48 + n) as u8]
    } else {
        decimal(n / 10).push((48 + n % 10) as u8)
    }
}

/// The digits that an unsigned integer token carries: one leading `'+'` is allowed.
pub open spec fn unsigned_digits(tok: Seq<u8>) -> Seq<u8> {
    if tok.len() > 0 && tok[0] == 43 {
        tok.drop_first()
    } else {
        tok
    }
}

/// What reading `tok` as a `usize` gives: an optional `'+'`, then at least one
/// decimal digit and nothing else, with a value that fits in a `usize`.
pub open spec fn parse_unsigned(tok: Seq<u8>) -> Option<nat> {
    let d = unsigned_digits(tok);
    if d.len() > 0 && all_digits(d) && digits_value(d) <= usize::MAX {
        Some(digits_value(d))
    } else {
        None
    }
}

/// The decimal text of a number is made of digits, is never empty,
/// and reads back as the number.
pub proof fn lemma_decimal(n: nat)
    ensures
        decimal(n).len() > 0,
        all_digits(decimal(n)),
        digits_value(decimal(n)) == n,
        is_digit(decimal(n)[0]),
        decimal(n).len() == 1 || decimal(n)[0] != 48,
        n < 10 <==> decimal(n).len() == 1,
    decreases n,
{
    let s = decimal(n);
    if n < 10 {
        assert(s.drop_last() =~= Seq::<u8>::empty());
        assert(s.len() == 1);
        assert(s.last() == 48 + n);
        assert(digits_value(s) == digits_value(s.drop_last()) * 10 + (s.last() - 48) as nat);
    } else {
        lemma_decimal(n / 10);
        assert(s.drop_last() =~= decimal(n / 10));
        assert(s[0] == decimal(n / 10)[0]);
        assert((n / 10) * 10 + n % 10 == n) by (nonlinear_arith);
        assert(s.last() == 48 + n % 10);
        assert(digits_value(s) == digits_value(s.drop_last()) * 10 + (s.last() - 48) as nat);
        assert forall|i: int| 0 <= i < s.len() implies is_digit(#[trigger] s[i]) by {
            if i < s.len() - 1 {
                assert(s[i] == decimal(n / 10)[i]);
            }
        }
    }
}

/// A prefix of a string of digits never denotes more than the whole string.
pub proof fn lemma_value_prefix_le(s: Seq<u8>, i: int)
    requires
        all_digits(s),
        0 <= i <= s.len(),
    ensures
        digits_value(s.take(i)) <= digits_value(s),
    decreases s.len(),
{
    if i == s.len() {
        assert(s.take(i) =~= s);
    } else {
        let t = s.drop_last();
        assert(all_digits(t)) by {
            assert forall|j: int| 0 <= j < t.len() implies is_digit(#[trigger] t[j]) by {
                assert(t[j] == s[j]);
            }
        }
        lemma_value_prefix_le(t, i);
        assert(t.take(i) =~= s.take(i));
    }
}

/// Appends the decimal text of `n` to `out`.
pub fn push_decimal(out: &mut Vec<u8>, n: usize)
    ensures
        final(out)@ == old(out)@ + decimal(n as nat),
    decreases n,
{
    if n >= 10 {
        push_decimal(out, n / 10);
    }
    let d: u8 = (n % 10) as u8;
    out.push(48 + d);
    proof {
        if n >= 10 {
            assert(decimal(n as nat) == decimal((n / 10) as nat).push((48 + n % 10) as u8));
        }
    }
    assert(final(out)@ =~= old(out)@ + decimal(n as nat));
}

/// Reads `s[lo..hi]` as a `usize` in the way `str::parse::<usize>` reads text:
/// an optional `'+'`, then decimal digits only, within range.
pub fn parse_usize(s: &[u8], lo: usize, hi: usize) -> (r: Option<usize>)
    requires
        lo <= hi <= s.len(),
    ensures
        r == (match parse_unsigned(s@.subrange(lo as int, hi as int)) {
            Some(v) => Some(v as usize),
            None => None,
        }),
{
    let ghost tok = s@.subrange(lo as int, hi as int);
    let mut start = lo;
    if lo < hi && s[lo] == 43 {
        start = lo + 1;
    }
    let ghost d = s@.subrange(start as int, hi as int);
    assert(d =~= unsigned_digits(tok));
    if start == hi {
        return None;
    }
    let mut v: usize = 0;
    let mut i = start;
    while i < hi
        invariant
            lo <= start <= i <= hi <= s.len(),
            d == s@.subrange(start as int, hi as int),
            d == unsigned_digits(tok),
            tok == s@.subrange(lo as int, hi as int),
            all_digits(d.take(i - start)),
            v == digits_value(d.take(i - start)),
        decreases hi - i,
    {
        let b = s[i];
        let ghost k: int = i - start;
        assert(d[k] == b);
        if b < 48 || b > 57 {
            assert(!all_digits(d)) by {
                assert(!is_digit(d[k]));
            }
            return None;
        }
        assert(d.take(k + 1).drop_last() =~= d.take(k));
        assert(all_digits(d.take(k + 1))) by {
            assert forall|j: int| 0 <= j < k + 1 implies is_digit(#[trigger] d.take(k + 1)[j]) by {
                if j < k {
                    assert(d.take(k + 1)[j] == d.take(k)[j]);
                }
            }
        }
        assert(digits_value(d.take(k + 1)) == v * 10 + (b - 48) as nat);
        let dig: usize = (b - 48) as usize;
        match v.checked_mul(10) {
            None => {
                proof {
                    if all_digits(d) {
                        lemma_value_prefix_le(d, k + 1);
                    }
                }
                return None;
            },
            Some(v10) => match v10.checked_add(dig) {
                None => {
                    proof {
                        if all_digits(d) {
                            lemma_value_prefix_le(d, k + 1);
                        }
                    }
                    return None;
                },
                Some(nv) => {
                    v = nv;
                },
            },
        }
        i = i + 1;
    }
    assert(d.take(hi - start) =~= d);
    Some(v)
}

/// Reading the decimal text of a number gives the number back, with or
/// without a `'+'` in front, and with any number of zeros in front.
pub proof fn lemma_parse_decimal(n: nat, zeros: nat)
    requires
        n <= usize::MAX,
    ensures
        parse_unsigned(decimal(n)) == Some(n),
        parse_unsigned(seq![43u8] + decimal(n)) == Some(n),
        parse_unsigned(Seq::new(zeros, |_i: int| 48u8) + decimal(n)) == Some(n),
{
    lemma_decimal(n);
    let d = decimal(n);
    assert(unsigned_digits(d) =~= d);
    assert(unsigned_digits(seq![43u8] + d) =~= d);
    let z = Seq::new(zeros, |_i: int| 48u8) + d;
    lemma_zeros_prefix(zeros, d);
    assert(z[0] == 48u8 || z[0] == d[0]);
    assert(unsigned_digits(z) =~= z);
}

/// Zeros in front of a string of digits do not change the number it denotes.
pub proof fn lemma_zeros_prefix(zeros: nat, d: Seq<u8>)
    requires
        all_digits(d),
    ensures
        all_digits(Seq::new(zeros, |_i: int| 48u8) + d),
        digits_value(Seq::new(zeros, |_i: int| 48u8) + d) == digits_value(d),
    decreases d.len() + zeros,
{
    let z = Seq::new(zeros, |_i: int| 48u8);
    let s = z + d;
    assert forall|i: int| 0 <= i < s.len() implies is_digit(#[trigger] s[i]) by {
        if i >= zeros {
            assert(s[i] == d[i - zeros]);
        }
    }
    if d.len() == 0 {
        assert(s =~= z);
        if zeros > 0 {
            lemma_zeros_prefix((zeros - 1) as nat, d);
            assert(s.drop_last() =~= Seq::new((zeros - 1) as nat, |_i: int| 48u8) + d);
        } else {
            assert(s =~= Seq::<u8>::empty());
        }
    } else {
        let e = d.drop_last();
        assert(all_digits(e)) by {
            assert forall|i: int| 0 <= i < e.len() implies is_digit(#[trigger] e[i]) by {
                assert(e[i] == d[i]);
            }
        }
        lemma_zeros_prefix(zeros, e);
        assert(s.drop_last() =~= z + e);
    }
}

/// A token with a byte that is neither a digit nor one leading `'+'` does not read as a number,
/// and neither does an empty one or a lone `'+'`.
pub proof fn lemma_parse_rejects(tok: Seq<u8>, i: int)
    requires
        0 <= i < tok.len(),
        !is_digit(tok[i]),
        !(i == 0 && tok[0] == 43 && tok.len() > 1),
    ensures
        parse_unsigned(tok) is None,
{
    let d = unsigned_digits(tok);
    if tok[0] == 43 && i > 0 {
        assert(d[i - 1] == tok[i]);
    } else if tok[0] != 43 {
        assert(d[i] == tok[i]);
    }
}

} // verus!
