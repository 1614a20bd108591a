//! Line and token scanning over UTF-8 header bytes, in the way `read_line`,
//! `trim` and `split_whitespace` treat text.
use vstd::prelude::*;

verus! {

/// An ASCII whitespace byte: tab, line feed, vertical tab, form feed,
/// carriage return and space.
pub open spec fn is_ascii_ws(b: u8) -> bool {
    b == 32 || (9 <= b <= 13)
}

/// Length of the UTF-8 encoding of a whitespace character (one for which
/// `char::is_whitespace` holds) at the start of `s`, or 0 where `s` does not
/// start with one. Besides ASCII whitespace these are U+0085, U+00A0,
/// U+1680, U+2000 to U+200A, U+2028, U+2029, U+202F, U+205F and U+3000.
pub open spec fn ws_len(s: Seq<u8>) -> nat {
    if s.len() >= 1 && is_ascii_ws(s[0]) {
        1
    } else if s.len() >= 2 && s[0] == 0xc2 && (s[1] == 0x85 || s[1] == 0xa0) {
        2
    } else if s.len() >= 3 && s[0] == 0xe1 && s[1] == 0x9a && s[2] == 0x80 {
        3
    } else if s.len() >= 3 && s[0] == 0xe2 && s[1] == 0x80 && (s[2] <= 0x8a || s[2] == 0xa8
        || s[2] == 0xa9 || s[2] == 0xaf) && s[2] >= 0x80 {
        3
    } else if s.len() >= 3 && s[0] == 0xe2 && s[1] == 0x81 && s[2] == 0x9f {
        3
    } else if s.len() >= 3 && s[0] == 0xe3 && s[1] == 0x80 && s[2] == 0x80 {
        3
    } else {
        0
    }
}

/// Length of the UTF-8 encoding of a whitespace character at the end of `s`,
/// or 0 where `s` does not end with one.
pub open spec fn ws_len_back(s: Seq<u8>) -> nat {
    let n = s.len() as int;
    if n >= 1 && ws_len(s.skip(n - 1)) == 1 {
        1
    } else if n >= 2 && ws_len(s.skip(n - 2)) == 2 {
        2
    } else if n >= 3 && ws_len(s.skip(n - 3)) == 3 {
        3
    } else {
        0
    }
}

pub open spec fn not_newline() -> spec_fn(u8) -> bool {
    |b: u8| b != 10
}

/// How many bytes at the front of `s` satisfy `p`.
pub open spec fn span(s: Seq<u8>, p: spec_fn(u8) -> bool) -> nat
    decreases s.len(),
{
    if s.len() > 0 && p(s[0]) {
        1 + span(s.drop_first(), p)
    } else {
        0
    }
}

/// Length of the first line of `s`, its line feed included when there is one.
pub open spec fn line_len(s: Seq<u8>) -> nat {
    let k = span(s, not_newline());
    if k < s.len() {
        k + 1
    } else {
        k
    }
}

/// The first line of `s` (with its line feed) and what follows it.
pub open spec fn split_line(s: Seq<u8>) -> (Seq<u8>, Seq<u8>) {
    (s.take(line_len(s) as int), s.skip(line_len(s) as int))
}

/// `s` without its leading whitespace characters.
pub open spec fn trim_start(s: Seq<u8>) -> Seq<u8>
    decreases s.len(),
{
    if ws_len(s) > 0 {
        trim_start(s.skip(ws_len(s) as int))
    } else {
        s
    }
}

/// `s` without its trailing whitespace characters.
pub open spec fn trim_end(s: Seq<u8>) -> Seq<u8>
    decreases s.len(),
{
    if ws_len_back(s) > 0 {
        trim_end(s.take(s.len() - ws_len_back(s)))
    } else {
        s
    }
}

/// `s` without its leading and trailing whitespace characters.
pub open spec fn trim(s: Seq<u8>) -> Seq<u8> {
    trim_end(trim_start(s))
}

/// How many bytes at the front of `s` come before its first whitespace character.
pub open spec fn token_len(s: Seq<u8>) -> nat
    decreases s.len(),
{
    if s.len() == 0 || ws_len(s) > 0 {
        0
    } else {
        1 + token_len(s.drop_first())
    }
}

/// The first whitespace-separated token of `s` and the text after it,
/// or `None` where `s` holds only whitespace.
pub open spec fn next_token(s: Seq<u8>) -> Option<(Seq<u8>, Seq<u8>)> {
    let t = trim_start(s);
    if t.len() == 0 {
        None
    } else {
        let n = token_len(t) as int;
        Some((t.take(n), t.skip(n)))
    }
}

/// `span` is the index of the first byte that fails `p`.
pub proof fn lemma_span(s: Seq<u8>, p: spec_fn(u8) -> bool, k: int)
    requires
        0 <= k <= s.len(),
        forall|j: int| 0 <= j < k ==> p(#[trigger] s[j]),
        k == s.len() || !p(s[k]),
    ensures
        span(s, p) == k,
    decreases k,
{
    if k > 0 {
        let t = s.drop_first();
        assert forall|j: int| 0 <= j < k - 1 implies p(#[trigger] t[j]) by {
            assert(t[j] == s[j + 1]);
        }
        if k < s.len() {
            assert(t[k - 1] == s[k]);
        }
        assert(p(s[0]));
        lemma_span(t, p, k - 1);
    } else if s.len() > 0 {
        assert(!p(s[0]));
    }
}

/// Index just after the first line of `s[lo..]`, line feed included.
pub fn line_end(s: &[u8], lo: usize) -> (r: usize)
    requires
        lo <= s.len(),
    ensures
        lo <= r <= s.len(),
        r - lo == line_len(s@.subrange(lo as int, s.len() as int)),
{
    let ghost t = s@.subrange(lo as int, s.len() as int);
    let mut i = lo;
    while i < s.len() && s[i] != 10
        invariant
            lo <= i <= s.len(),
            t == s@.subrange(lo as int, s.len() as int),
            forall|j: int| 0 <= j < i - lo ==> not_newline()(#[trigger] t[j]),
        decreases s.len() - i,
    {
        assert(t[i - lo] == s[i as int]);
        i = i + 1;
    }
    proof {
        if i < s.len() {
            assert(t[i - lo] == s[i as int]);
        }
        lemma_span(t, not_newline(), i - lo);
    }
    if i < s.len() {
        i + 1
    } else {
        i
    }
}

/// Length of the whitespace character encoded at the start of `s[i..hi]` (0 if none).
pub fn ws_len_at(s: &[u8], i: usize, hi: usize) -> (n: usize)
    requires
        i <= hi <= s.len(),
    ensures
        n == ws_len(s@.subrange(i as int, hi as int)),
        n <= hi - i,
{
    let ghost t = s@.subrange(i as int, hi as int);
    let rem = hi - i;
    if rem >= 1 {
        assert(t[0] == s[i as int]);
    }
    if rem >= 2 {
        assert(t[1] == s[i + 1]);
    }
    if rem >= 3 {
        assert(t[2] == s[i + 2]);
    }
    if rem >= 1 && (s[i] == 32 || (9 <= s[i] && s[i] <= 13)) {
        1
    } else if rem >= 2 && s[i] == 0xc2 && (s[i + 1] == 0x85 || s[i + 1] == 0xa0) {
        2
    } else if rem >= 3 && s[i] == 0xe1 && s[i + 1] == 0x9a && s[i + 2] == 0x80 {
        3
    } else if rem >= 3 && s[i] == 0xe2 && s[i + 1] == 0x80 && (s[i + 2] <= 0x8a || s[i + 2]
        == 0xa8 || s[i + 2] == 0xa9 || s[i + 2] == 0xaf) && s[i + 2] >= 0x80 {
        3
    } else if rem >= 3 && s[i] == 0xe2 && s[i + 1] == 0x81 && s[i + 2] == 0x9f {
        3
    } else if rem >= 3 && s[i] == 0xe3 && s[i + 1] == 0x80 && s[i + 2] == 0x80 {
        3
    } else {
        0
    }
}

/// Length of the whitespace character encoded at the end of `s[lo..j]` (0 if none).
pub fn ws_len_before(s: &[u8], lo: usize, j: usize) -> (n: usize)
    requires
        lo <= j <= s.len(),
    ensures
        n == ws_len_back(s@.subrange(lo as int, j as int)),
        n <= j - lo,
{
    let ghost t = s@.subrange(lo as int, j as int);
    let len = j - lo;
    if len >= 1 {
        let n1 = ws_len_at(s, j - 1, j);
        assert(t.skip(len - 1) =~= s@.subrange(j - 1, j as int));
        if n1 == 1 {
            return 1;
        }
    }
    if len >= 2 {
        let n2 = ws_len_at(s, j - 2, j);
        assert(t.skip(len - 2) =~= s@.subrange(j - 2, j as int));
        if n2 == 2 {
            return 2;
        }
    }
    if len >= 3 {
        let n3 = ws_len_at(s, j - 3, j);
        assert(t.skip(len - 3) =~= s@.subrange(j - 3, j as int));
        if n3 == 3 {
            return 3;
        }
    }
    0
}

/// Index of the first byte of `s[lo..hi]` after its leading whitespace characters.
pub fn skip_whitespace(s: &[u8], lo: usize, hi: usize) -> (r: usize)
    requires
        lo <= hi <= s.len(),
    ensures
        lo <= r <= hi,
        s@.subrange(r as int, hi as int) == trim_start(s@.subrange(lo as int, hi as int)),
{
    let mut i = lo;
    loop
        invariant
            lo <= i <= hi <= s.len(),
            trim_start(s@.subrange(i as int, hi as int)) == trim_start(
                s@.subrange(lo as int, hi as int),
            ),
        decreases hi - i,
    {
        let n = ws_len_at(s, i, hi);
        if n == 0 {
            return i;
        }
        assert(s@.subrange(i as int, hi as int).skip(n as int) =~= s@.subrange(
            i + n,
            hi as int,
        ));
        i = i + n;
    }
}

/// Index of the first byte of `s[lo..hi]` that starts a whitespace character (or `hi`).
pub fn skip_token(s: &[u8], lo: usize, hi: usize) -> (r: usize)
    requires
        lo <= hi <= s.len(),
    ensures
        lo <= r <= hi,
        r - lo == token_len(s@.subrange(lo as int, hi as int)),
{
    let mut i = lo;
    loop
        invariant
            lo <= i <= hi <= s.len(),
            token_len(s@.subrange(lo as int, hi as int)) == (i - lo) + token_len(
                s@.subrange(i as int, hi as int),
            ),
        decreases hi - i,
    {
        if i == hi {
            return i;
        }
        let n = ws_len_at(s, i, hi);
        if n > 0 {
            return i;
        }
        assert(s@.subrange(i as int, hi as int).drop_first() =~= s@.subrange(
            i + 1,
            hi as int,
        ));
        i = i + 1;
    }
}

/// Bounds of `s[lo..hi]` with its leading and trailing whitespace characters removed.
pub fn trim_bounds(s: &[u8], lo: usize, hi: usize) -> (r: (usize, usize))
    requires
        lo <= hi <= s.len(),
    ensures
        lo <= r.0 <= r.1 <= hi,
        s@.subrange(r.0 as int, r.1 as int) == trim(s@.subrange(lo as int, hi as int)),
{
    let a = skip_whitespace(s, lo, hi);
    let mut b = hi;
    loop
        invariant
            lo <= a <= b <= hi <= s.len(),
            trim_end(s@.subrange(a as int, b as int)) == trim(s@.subrange(lo as int, hi as int)),
        decreases b - a,
    {
        let n = ws_len_before(s, a, b);
        if n == 0 {
            return (a, b);
        }
        assert(s@.subrange(a as int, b as int).take(b - a - n) =~= s@.subrange(
            a as int,
            b - n,
        ));
        b = b - n;
    }
}

} // verus!
