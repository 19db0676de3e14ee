use vstd::prelude::*;

use crate::tsp_parser::lexer::{
    all_digits, digits_value, is_digit, lemma_digits_nonneg, line_end, next_line,
    next_line_start, next_word, words,
};
use crate::tsp_parser::{TspParsingError, VariantParser};

verus! {

/// How many digits `s` starts with.
pub open spec fn digit_run(s: Seq<u8>) -> nat
    decreases s.len(),
{
    if s.len() > 0 && is_digit(s[0]) {
        1 + digit_run(s.drop_first())
    } else {
        0
    }
}

/// The signed exponent that `t` spells: an optional sign, then digits, at
/// least one.
pub open spec fn exponent_value(t: Seq<u8>) -> Option<int> {
    let negative = t.len() > 0 && t[0] == 45;
    let d = if t.len() > 0 && (t[0] == 43 || t[0] == 45) {
        t.drop_first()
    } else {
        t
    };
    if d.len() > 0 && all_digits(d) {
        Some(
            if negative {
                -digits_value(d)
            } else {
                digits_value(d)
            },
        )
    } else {
        None
    }
}

/// `m` zero digits.
pub open spec fn zeros(m: int) -> Seq<u8> {
    Seq::new(m as nat, |i: int| 48u8)
}

/// The digits of `s` that come before a decimal point at position `p`,
/// with zeros added where `p` lies beyond the end of `s`.
pub open spec fn digits_before(s: Seq<u8>, p: int) -> Seq<u8> {
    if p <= 0 {
        Seq::empty()
    } else if p <= s.len() {
        s.take(p)
    } else {
        s + zeros(p - s.len())
    }
}

/// The parts of the unsigned decimal `body`: its digits, how many of them
/// come before its point, and its exponent of ten. It has digits with an
/// optional fractional part, at least one digit in all, then an optional
/// exponent after `e` or `E`.
pub open spec fn decimal_parts(body: Seq<u8>) -> Option<(Seq<u8>, int, int)> {
    let k = digit_run(body) as int;
    let after_int = body.skip(k);
    let after_dot = if after_int.len() > 0 && after_int[0] == 46 {
        after_int.drop_first()
    } else {
        after_int
    };
    let f = digit_run(after_dot) as int;
    let tail = after_dot.skip(f);
    let exponent = if tail.len() == 0 {
        Some(0int)
    } else if tail[0] == 101 || tail[0] == 69 {
        exponent_value(tail.drop_first())
    } else {
        None
    };
    if (k > 0 || f > 0) && exponent is Some {
        Some((body.take(k) + after_dot.take(f), k, exponent.unwrap()))
    } else {
        None
    }
}

/// The integer nearest to the decimal number that `w` spells, after an
/// optional sign, halves going away from zero.
pub open spec fn rounded_decimal(w: Seq<u8>) -> Option<int> {
    let negative = w.len() > 0 && w[0] == 45;
    let body = if w.len() > 0 && (w[0] == 43 || w[0] == 45) {
        w.drop_first()
    } else {
        w
    };
    match decimal_parts(body) {
        Some((s, k, e)) => {
            let p = k + e;
            let magnitude = digits_value(digits_before(s, p)) + if 0 <= p < s.len() && s[p]
                >= 53 {
                1int
            } else {
                0int
            };
            Some(
                if negative {
                    -magnitude
                } else {
                    magnitude
                },
            )
        },
        None => None,
    }
}

pub open spec fn clamp_i32(v: int) -> i32 {
    if v < i32::MIN {
        i32::MIN
    } else if v > i32::MAX {
        i32::MAX
    } else {
        v as i32
    }
}

/// A coordinate: the decimal `w` rounded to the nearest integer and held
/// within the range of `i32`.
pub open spec fn coordinate(w: Seq<u8>) -> Option<i32> {
    match rounded_decimal(w) {
        Some(v) => Some(clamp_i32(v)),
        None => None,
    }
}

/// The coordinates that the line `s[a..b]` gives in its second and third
/// words.
pub open spec fn line_coords(s: Seq<u8>, a: int, b: int) -> Result<(i32, i32), TspParsingError> {
    let ws = words(s.subrange(a, b));
    if ws.len() < 3 {
        Err(TspParsingError::NotEnoughData)
    } else if coordinate(ws[1]) is None {
        Err(TspParsingError::WeightNotANumber)
    } else if coordinate(ws[2]) is None {
        Err(TspParsingError::WeightNotANumber)
    } else {
        Ok((coordinate(ws[1]).unwrap(), coordinate(ws[2]).unwrap()))
    }
}

/// Where the line `a` lines after the one at `pos` starts.
pub open spec fn line_start(s: Seq<u8>, pos: int, a: int) -> int
    decreases a,
{
    if a <= 0 {
        pos
    } else {
        next_line_start(s, line_start(s, pos, a - 1))
    }
}

/// The coordinates of the `a` lines from `pos`.
pub open spec fn coords_upto(s: Seq<u8>, pos: int, a: int) -> Result<
    Seq<(i32, i32)>,
    TspParsingError,
>
    decreases a,
{
    if a <= 0 {
        Ok(Seq::empty())
    } else {
        match coords_upto(s, pos, a - 1) {
            Err(e) => Err(e),
            Ok(cs) => {
                let l = line_start(s, pos, a - 1);
                if l >= s.len() {
                    Err(TspParsingError::NotEnoughData)
                } else {
                    match line_coords(s, l, line_end(s, l)) {
                        Err(e) => Err(e),
                        Ok(c) => Ok(cs.push(c)),
                    }
                }
            },
        }
    }
}

/// `k` is the integer nearest to the square root of `d`.
pub open spec fn is_rounded_root(k: int, d: int) -> bool {
    &&& k >= 0
    &&& 4 * d < (2 * k + 1) * (2 * k + 1)
    &&& (k == 0 || (2 * k - 1) * (2 * k - 1) <= 4 * d)
}

/// `w` is the Euclidean distance between `p` and `q` rounded to the nearest
/// integer, or the largest `u32` where that is larger.
pub open spec fn is_rounded_distance(w: u32, p: (i32, i32), q: (i32, i32)) -> bool {
    let d = (p.0 - q.0) * (p.0 - q.0) + (p.1 - q.1) * (p.1 - q.1);
    exists|k: int| is_rounded_root(k, d) && w == (if k > u32::MAX {
        u32::MAX as int
    } else {
        k
    })
}

/// The matrix of an EUC_2D section, for the coordinates `cs`.
pub open spec fn euc2d_matrix(m: Seq<Seq<u32>>, cs: Seq<(i32, i32)>) -> bool {
    &&& m.len() == cs.len()
    &&& forall|a: int| 0 <= a < cs.len() ==> (#[trigger] m[a]).len() == cs.len()
    &&& forall|a: int, b: int|
        0 <= a < cs.len() && 0 <= b < cs.len() ==> is_rounded_distance(
            #[trigger] m[a][b],
            cs[a],
            cs[b],
        )
}

proof fn lemma_digit_run(s: Seq<u8>, k: int)
    requires
        0 <= k <= s.len(),
        forall|q: int| 0 <= q < k ==> is_digit(#[trigger] s[q]),
        k == s.len() || !is_digit(s[k]),
    ensures
        digit_run(s) == k,
    decreases k,
{
    if k > 0 {
        lemma_digit_run(s.drop_first(), k - 1);
    }
}

/// Where the magnitude of a coordinate is held while it is read: it already
/// lies outside the range of `i32`.
pub const SATURATION: u64 = 0x8000_0000;

/// Where an exponent is held while it is read: beyond it every coordinate is
/// zero or held at `SATURATION`.
pub const EXPONENT_LIMIT: u128 = 0x1_0000_0000_0000_0000_0000;

/// `v`, or `limit` where `v` is larger.
pub open spec fn saturated(v: int, limit: int) -> int {
    if v < limit {
        v
    } else {
        limit
    }
}

/// Appending zeros to digits multiplies their value: it stays zero, never
/// shrinks, and grows by at least one per zero when it is not zero.
proof fn lemma_zeros(x: Seq<u8>, m: int)
    requires
        all_digits(x),
        m >= 0,
    ensures
        all_digits(x + zeros(m)),
        digits_value(x + zeros(m)) >= digits_value(x),
        digits_value(x) == 0 ==> digits_value(x + zeros(m)) == 0,
        digits_value(x) >= 1 ==> digits_value(x + zeros(m)) >= digits_value(x) + m,
    decreases m,
{
    lemma_digits_nonneg(x);
    if m > 0 {
        lemma_zeros(x, m - 1);
        assert((x + zeros(m)).drop_last() =~= x + zeros(m - 1));
    } else {
        assert(x + zeros(m) =~= x);
    }
}

/// The end of the run of digits of `text` that starts at `from`, before
/// `to`.
fn scan_digits(text: &[u8], from: usize, to: usize) -> (end: usize)
    requires
        from <= to <= text@.len(),
    ensures
        from <= end <= to,
        digit_run(text@.subrange(from as int, to as int)) == end - from,
        all_digits(text@.subrange(from as int, end as int)),
        end < to ==> !is_digit(text@[end as int]),
{
    let mut e = from;
    while e < to && 48 <= text[e] && text[e] <= 57
        invariant
            from <= e <= to <= text@.len(),
            forall|q: int| from <= q < e ==> is_digit(#[trigger] text@[q]),
        decreases to - e,
    {
        e = e + 1;
    }
    proof {
        let t = text@.subrange(from as int, to as int);
        assert forall|q: int| 0 <= q < e - from implies is_digit(#[trigger] t[q]) by {
            assert(t[q] == text@[from + q]);
        }
        lemma_digit_run(t, e - from);
        assert forall|q: int| 0 <= q < e - from implies is_digit(
            #[trigger] text@.subrange(from as int, e as int)[q],
        ) by {
            assert(text@.subrange(from as int, e as int)[q] == text@[from + q]);
        }
    }
    e
}

/// Reads the exponent `text[a..b]`, held within `EXPONENT_LIMIT` either
/// way.
fn parse_exponent(text: &[u8], a: usize, b: usize) -> (res: Option<i128>)
    requires
        a <= b <= text@.len(),
    ensures
        match exponent_value(text@.subrange(a as int, b as int)) {
            None => res is None,
            Some(e) => res is Some && res.unwrap() == limited_exponent(e),
        },
{
    let ghost t = text@.subrange(a as int, b as int);
    let negative = a < b && text[a] == 45;
    let start = if a < b && (text[a] == 43 || text[a] == 45) {
        a + 1
    } else {
        a
    };
    let ghost d = text@.subrange(start as int, b as int);
    assert(d =~= (if t.len() > 0 && (t[0] == 43 || t[0] == 45) {
        t.drop_first()
    } else {
        t
    }));
    if start == b {
        return None;
    }
    let end = scan_digits(text, start, b);
    if end < b {
        assert(!is_digit(d[end - start]));
        return None;
    }
    assert(d.take(d.len() as int) =~= d);
    let mut value: u128 = 0;
    let mut k = start;
    while k < b
        invariant
            start <= k <= b <= text@.len(),
            d == text@.subrange(start as int, b as int),
            all_digits(d),
            value == saturated(digits_value(d.take(k - start)), EXPONENT_LIMIT as int),
        decreases b - k,
    {
        proof {
            assert(d.take(k - start + 1).drop_last() =~= d.take(k - start));
            lemma_digits_nonneg(d.take(k - start));
            assert(is_digit(d[k - start]));
        }
        let digit = (text[k] - 48) as u128;
        value = if value >= EXPONENT_LIMIT || value * 10 + digit >= EXPONENT_LIMIT {
            EXPONENT_LIMIT
        } else {
            value * 10 + digit
        };
        k = k + 1;
    }
    let limited = value as i128;
    Some(
        if negative {
            0 - limited
        } else {
            limited
        },
    )
}

/// The value of the digits `text[start..int_end]` followed by
/// `text[dot_end..frac_end]` that come before a decimal point at position
/// `p`, held at `SATURATION`.
fn digits_magnitude(
    text: &[u8],
    start: usize,
    int_end: usize,
    dot_end: usize,
    frac_end: usize,
    p: i128,
) -> (magnitude: u64)
    requires
        start <= int_end <= dot_end <= frac_end <= text@.len(),
        all_digits(text@.subrange(start as int, int_end as int)),
        all_digits(text@.subrange(dot_end as int, frac_end as int)),
    ensures
        magnitude == saturated(
            digits_value(
                digits_before(
                    text@.subrange(start as int, int_end as int) + text@.subrange(
                        dot_end as int,
                        frac_end as int,
                    ),
                    p as int,
                ),
            ),
            SATURATION as int,
        ),
{
    let ghost s = text@.subrange(start as int, int_end as int) + text@.subrange(
        dot_end as int,
        frac_end as int,
    );
    let int_len = int_end - start;
    let len = int_len + (frac_end - dot_end);
    let b = frac_end;
    let ghost k = int_len as int;
    assert(all_digits(s)) by {
        assert forall|q: int| 0 <= q < s.len() implies is_digit(#[trigger] s[q]) by {
            if q < int_len {
                assert(s[q] == text@.subrange(start as int, int_end as int)[q]);
            } else {
                assert(s[q] == text@.subrange(dot_end as int, frac_end as int)[q - int_len]);
            }
        }
    }
    let mut magnitude: u64 = 0;
    let mut i: usize = 0;
    while (i as i128) < p && i < len
        invariant
            i <= len,
            len == s.len(),
            int_len == k,
            start + int_len <= b <= text@.len(),
            dot_end + (len - int_len) <= b,
            forall|q: int| 0 <= q < int_len ==> s[q] == text@[start + q],
            forall|q: int| int_len <= q < len ==> s[q] == text@[dot_end + q - int_len],
            all_digits(s),
            magnitude == saturated(digits_value(s.take(i as int)), SATURATION as int),
            i == 0 || i <= p,
        decreases len - i,
    {
        let digit_pos = if i < int_len {
            start + i
        } else {
            dot_end + (i - int_len)
        };
        proof {
            assert(s.take(i + 1).drop_last() =~= s.take(i as int));
            assert(all_digits(s.take(i as int)));
            lemma_digits_nonneg(s.take(i as int));
            assert(is_digit(s[i as int]));
        }
        let digit = (text[digit_pos] - 48) as u64;
        magnitude = if magnitude >= SATURATION || magnitude * 10 + digit >= SATURATION {
            SATURATION
        } else {
            magnitude * 10 + digit
        };
        i = i + 1;
    }
    if p > len as i128 {
        let m = p - len as i128;
        assert(s.take(len as int) =~= s);
        proof {
            lemma_zeros(s, m as int);
        }
        if m >= SATURATION as i128 {
            magnitude = if magnitude == 0 {
                0
            } else {
                SATURATION
            };
        } else {
            let mut j: i128 = 0;
            while j < m && 0 < magnitude && magnitude < SATURATION
                invariant
                    0 <= j <= m,
                    all_digits(s),
                    magnitude == saturated(digits_value(s + zeros(j as int)), SATURATION as int),
                decreases m - j,
            {
                proof {
                    lemma_zeros(s, j as int);
                    assert((s + zeros(j + 1)).drop_last() =~= s + zeros(j as int));
                }
                magnitude = if magnitude * 10 >= SATURATION {
                    SATURATION
                } else {
                    magnitude * 10
                };
                j = j + 1;
            }
            proof {
                lemma_zeros(s, j as int);
                lemma_zeros(s + zeros(j as int), m - j);
                assert(s + zeros(j as int) + zeros(m - j) =~= s + zeros(m as int));
            }
        }
    } else if p > 0 {
        assert(i == p);
    } else {
        assert(i == 0);
    }
    if p <= 0 {
        assert(digits_before(s, p as int) =~= s.take(0));
    }
    magnitude
}

/// Holding the exponent within `EXPONENT_LIMIT` changes neither the
/// digits before the decimal point, once held at `SATURATION`, nor the
/// digit after it.
proof fn lemma_limited_exponent(s: Seq<u8>, k: int, e: int)
    requires
        all_digits(s),
        0 <= k <= s.len() <= u64::MAX,
    ensures
        ({
            let limited = limited_exponent(e);
            &&& saturated(digits_value(digits_before(s, k + limited)), SATURATION as int)
                == saturated(digits_value(digits_before(s, k + e)), SATURATION as int)
            &&& (0 <= k + limited < s.len()) == (0 <= k + e < s.len())
            &&& 0 <= k + e < s.len() ==> limited == e
        }),
{
    if e > EXPONENT_LIMIT {
        let m1 = k + EXPONENT_LIMIT - s.len();
        let m2 = k + e - s.len();
        lemma_zeros(s, m1);
        lemma_zeros(s, m2);
        lemma_digits_nonneg(s);
    }
}

/// The coordinate of sign `negative` and magnitude `v`, from `total`:
/// `v` where it is below `SATURATION`, and no less than `SATURATION` where
/// `v` is not.
fn signed_coordinate(negative: bool, total: u64, Ghost(v): Ghost<int>) -> (c: i32)
    requires
        v >= 0,
        total <= SATURATION + 1,
        v < SATURATION ==> total == v,
        v >= SATURATION ==> total >= SATURATION,
    ensures
        c == clamp_i32(
            if negative {
                -v
            } else {
                v
            },
        ),
{
    if negative {
        if total > SATURATION {
            i32::MIN
        } else {
            (0 - total as i64) as i32
        }
    } else {
        if total >= SATURATION {
            i32::MAX
        } else {
            total as i32
        }
    }
}

/// `e` held within `EXPONENT_LIMIT` either way.
pub open spec fn limited_exponent(e: int) -> int {
    if e > EXPONENT_LIMIT {
        EXPONENT_LIMIT as int
    } else if e < -EXPONENT_LIMIT {
        -EXPONENT_LIMIT
    } else {
        e
    }
}

/// Splits the unsigned decimal `text[start..b]`: where its integer digits
/// end, where its fractional digits start and end, and its exponent held
/// within `EXPONENT_LIMIT`.
fn split_decimal(text: &[u8], start: usize, b: usize) -> (res: Option<(usize, usize, usize, i128)>)
    requires
        start <= b <= text@.len(),
    ensures
        match decimal_parts(text@.subrange(start as int, b as int)) {
            None => res is None,
            Some((s, k, e)) => res matches Some((int_end, dot_end, frac_end, x)) && {
                &&& start <= int_end <= dot_end <= frac_end <= b
                &&& k == int_end - start
                &&& s == text@.subrange(start as int, int_end as int) + text@.subrange(
                    dot_end as int,
                    frac_end as int,
                )
                &&& all_digits(text@.subrange(start as int, int_end as int))
                &&& all_digits(text@.subrange(dot_end as int, frac_end as int))
                &&& x == limited_exponent(e)
                &&& all_digits(s)
            },
        },
{
    let ghost body = text@.subrange(start as int, b as int);
    let int_end = scan_digits(text, start, b);
    let ghost k = int_end - start;
    assert(body.skip(k) =~= text@.subrange(int_end as int, b as int));
    let dot_end = if int_end < b && text[int_end] == 46 {
        int_end + 1
    } else {
        int_end
    };
    let ghost after_dot = text@.subrange(dot_end as int, b as int);
    assert(after_dot =~= (if body.skip(k).len() > 0 && body.skip(k)[0] == 46 {
        body.skip(k).drop_first()
    } else {
        body.skip(k)
    }));
    let frac_end = scan_digits(text, dot_end, b);
    let ghost f = frac_end - dot_end;
    assert(after_dot.skip(f) =~= text@.subrange(frac_end as int, b as int));
    assert(frac_end < b ==> after_dot.skip(f)[0] == text@[frac_end as int]);
    let exponent: i128 = if frac_end == b {
        0
    } else if text[frac_end] == 101 || text[frac_end] == 69 {
        assert(after_dot.skip(f).drop_first() =~= text@.subrange(frac_end + 1, b as int));
        match parse_exponent(text, frac_end + 1, b) {
            Some(e) => e,
            None => {
                return None;
            },
        }
    } else {
        return None;
    };
    if int_end == start && frac_end == dot_end {
        return None;
    }
    assert(body.take(k) =~= text@.subrange(start as int, int_end as int));
    assert(after_dot.take(f) =~= text@.subrange(dot_end as int, frac_end as int));
    proof {
        let s = body.take(k) + after_dot.take(f);
        assert forall|q: int| 0 <= q < s.len() implies is_digit(#[trigger] s[q]) by {
            if q < k {
                assert(s[q] == text@.subrange(start as int, int_end as int)[q]);
            } else {
                assert(s[q] == text@.subrange(dot_end as int, frac_end as int)[q - k]);
            }
        }
    }
    Some((int_end, dot_end, frac_end, exponent))
}

/// Reads `text[a..b]` as a decimal coordinate, rounded and held within
/// `i32`.
#[verifier::rlimit(100)]
fn parse_coordinate(text: &[u8], a: usize, b: usize) -> (res: Option<i32>)
    requires
        a <= b <= text@.len(),
    ensures
        res == coordinate(text@.subrange(a as int, b as int)),
{
    let ghost w = text@.subrange(a as int, b as int);
    let negative = a < b && text[a] == 45;
    let start = if a < b && (text[a] == 43 || text[a] == 45) {
        a + 1
    } else {
        a
    };
    assert(text@.subrange(start as int, b as int) =~= (if w.len() > 0 && (w[0] == 43 || w[0]
        == 45) {
        w.drop_first()
    } else {
        w
    }));
    let (int_end, dot_end, frac_end, exponent) = match split_decimal(text, start, b) {
        Some(parts) => parts,
        None => {
            return None;
        },
    };
    let ghost parts = decimal_parts(text@.subrange(start as int, b as int)).unwrap();
    let ghost s = parts.0;
    let ghost e = parts.2;
    let int_len = int_end - start;
    let len = int_len + (frac_end - dot_end);
    let p: i128 = int_len as i128 + exponent;
    let magnitude = digits_magnitude(text, start, int_end, dot_end, frac_end, p);
    let round_up = if 0 <= p && p < len as i128 {
        let q = p as usize;
        let digit_pos = if q < int_len {
            start + q
        } else {
            dot_end + (q - int_len)
        };
        assert(s[q as int] == text@[digit_pos as int]);
        text[digit_pos] >= 53
    } else {
        false
    };
    let total = magnitude + if round_up {
        1u64
    } else {
        0u64
    };
    let ghost true_p = int_len + e;
    let ghost v = digits_value(digits_before(s, true_p)) + if round_up {
        1int
    } else {
        0int
    };
    proof {
        lemma_limited_exponent(s, int_len as int, e);
        lemma_zeros(s, 0);
        if true_p > 0 && true_p <= s.len() {
            assert(all_digits(s.take(true_p)));
            lemma_digits_nonneg(s.take(true_p));
        } else if true_p > s.len() {
            lemma_zeros(s, true_p - s.len());
            lemma_digits_nonneg(s + zeros(true_p - s.len()));
        }
    }
    Some(signed_coordinate(negative, total, Ghost(v)))
}

/// The largest `r` with `r * r <= d`.
fn floor_sqrt(d: u128) -> (r: u128)
    requires
        d < 0x4_0000_0000_0000_0000,
    ensures
        r * r <= d < (r + 1) * (r + 1),
{
    let mut lo: u128 = 0;
    let mut hi: u128 = 0x2_0000_0000;
    assert(hi * hi == 0x4_0000_0000_0000_0000) by (nonlinear_arith)
        requires
            hi == 0x2_0000_0000,
    ;
    while hi - lo > 1
        invariant
            lo < hi <= 0x2_0000_0000,
            lo * lo <= d < hi * hi,
        decreases hi - lo,
    {
        let mid = lo + (hi - lo) / 2;
        assert(mid * mid <= 0x4_0000_0000_0000_0000) by (nonlinear_arith)
            requires
                mid < 0x2_0000_0000,
        ;
        if mid * mid <= d {
            lo = mid;
        } else {
            hi = mid;
        }
    }
    assert(hi == lo + 1);
    lo
}

/// The Euclidean distance between two points, rounded to the nearest
/// integer.
pub fn calculate_distance(p: (i32, i32), q: (i32, i32)) -> (w: u32)
    ensures
        is_rounded_distance(w, p, q),
{
    let dx: u128 = if p.0 >= q.0 {
        (p.0 as i64 - q.0 as i64) as u128
    } else {
        (q.0 as i64 - p.0 as i64) as u128
    };
    let dy: u128 = if p.1 >= q.1 {
        (p.1 as i64 - q.1 as i64) as u128
    } else {
        (q.1 as i64 - p.1 as i64) as u128
    };
    assert(dx * dx <= 0xFFFF_FFFF * 0xFFFF_FFFF && dy * dy <= 0xFFFF_FFFF * 0xFFFF_FFFF)
        by (nonlinear_arith)
        requires
            dx <= 0xFFFF_FFFF,
            dy <= 0xFFFF_FFFF,
    ;
    let d = dx * dx + dy * dy;
    let r = floor_sqrt(d);
    let k = if d - r * r > r {
        r + 1
    } else {
        r
    };
    proof {
        let di = (p.0 - q.0) * (p.0 - q.0) + (p.1 - q.1) * (p.1 - q.1);
        assert(d == di) by (nonlinear_arith)
            requires
                dx == if p.0 >= q.0 {
                    p.0 - q.0
                } else {
                    q.0 - p.0
                },
                dy == if p.1 >= q.1 {
                    p.1 - q.1
                } else {
                    q.1 - p.1
                },
                d == dx * dx + dy * dy,
                di == (p.0 - q.0) * (p.0 - q.0) + (p.1 - q.1) * (p.1 - q.1),
        ;
        if d - r * r > r {
            assert(is_rounded_root(k as int, d as int)) by (nonlinear_arith)
                requires
                    r * r <= d < (r + 1) * (r + 1),
                    d - r * r > r,
                    k == r + 1,
            ;
        } else {
            assert(is_rounded_root(k as int, d as int)) by (nonlinear_arith)
                requires
                    r * r <= d < (r + 1) * (r + 1),
                    d - r * r <= r,
                    k == r,
                    r >= 0,
            ;
        }
    }
    if k > u32::MAX as u128 {
        u32::MAX
    } else {
        k as u32
    }
}

/// The coordinates given in the second and third words of the line
/// `text[a..b]`.
fn parse_line_into_coords(text: &[u8], a: usize, b: usize) -> (res: Result<
    (i32, i32),
    TspParsingError,
>)
    requires
        a <= b <= text@.len(),
    ensures
        res == line_coords(text@, a as int, b as int),
{
    let ghost ws = words(text@.subrange(a as int, b as int));
    let (_, e0) = match next_word(text, a, b) {
        Some(w) => w,
        None => {
            return Err(TspParsingError::NotEnoughData);
        },
    };
    let (s1, e1) = match next_word(text, e0, b) {
        Some(w) => w,
        None => {
            return Err(TspParsingError::NotEnoughData);
        },
    };
    let (s2, e2) = match next_word(text, e1, b) {
        Some(w) => w,
        None => {
            return Err(TspParsingError::NotEnoughData);
        },
    };
    assert(ws[1] == text@.subrange(s1 as int, e1 as int));
    assert(ws[2] == text@.subrange(s2 as int, e2 as int));
    let x = match parse_coordinate(text, s1, e1) {
        Some(x) => x,
        None => {
            return Err(TspParsingError::WeightNotANumber);
        },
    };
    let y = match parse_coordinate(text, s2, e2) {
        Some(y) => y,
        None => {
            return Err(TspParsingError::WeightNotANumber);
        },
    };
    Ok((x, y))
}

/// The distances from `point` to each point of `coords`.
fn calculate_distances_to_other_points(point: (i32, i32), coords: &[(i32, i32)]) -> (row: Vec<u32>)
    ensures
        row@.len() == coords@.len(),
        forall|b: int| 0 <= b < coords@.len() ==> is_rounded_distance(#[trigger] row@[b], point, coords@[b]),
{
    let mut row: Vec<u32> = Vec::new();
    let mut b: usize = 0;
    while b < coords.len()
        invariant
            b <= coords@.len(),
            row@.len() == b,
            forall|q: int| 0 <= q < b ==> is_rounded_distance(#[trigger] row@[q], point, coords@[q]),
        decreases coords@.len() - b,
    {
        row.push(calculate_distance(point, coords[b]));
        b = b + 1;
    }
    row
}

/// The matrix of the distances between every two points of `coords`.
fn parse_distances(coords: &[(i32, i32)]) -> (edges: Vec<Vec<u32>>)
    ensures
        euc2d_matrix(edges.deep_view(), coords@),
{
    let mut edges: Vec<Vec<u32>> = Vec::new();
    let mut a: usize = 0;
    while a < coords.len()
        invariant
            a <= coords@.len(),
            edges@.len() == a,
            forall|r: int| 0 <= r < a ==> (#[trigger] edges@[r])@.len() == coords@.len(),
            forall|r: int, q: int|
                0 <= r < a && 0 <= q < coords@.len() ==> is_rounded_distance(
                    #[trigger] edges@[r]@[q],
                    coords@[r],
                    coords@[q],
                ),
        decreases coords@.len() - a,
    {
        let row = calculate_distances_to_other_points(coords[a], coords);
        let ghost before = edges@;
        edges.push(row);
        proof {
            assert forall|r: int| 0 <= r < a + 1 implies (#[trigger] edges@[r])@.len()
                == coords@.len() by {
                if r < a {
                    assert(edges@[r] == before[r]);
                }
            }
            assert forall|r: int, q: int|
                0 <= r < a + 1 && 0 <= q < coords@.len() implies is_rounded_distance(
                    #[trigger] edges@[r]@[q],
                    coords@[r],
                    coords@[q],
                ) by {
                if r < a {
                    assert(edges@[r] == before[r]);
                    assert(is_rounded_distance(before[r]@[q], coords@[r], coords@[q]));
                } else {
                    assert(edges@[r]@[q] == row@[q]);
                }
            }
        }
        a = a + 1;
    }
    proof {
        assert forall|r: int| 0 <= r < coords@.len() implies #[trigger] edges.deep_view()[r]
            == edges@[r]@ by {
            assert(edges.deep_view()[r] =~= edges@[r]@);
        }
    }
    edges
}

pub struct Euc2dTspParser;

impl VariantParser for Euc2dTspParser {
    fn parse(text: &[u8], pos: usize, dimension: usize) -> (res: Result<
        Vec<Vec<u32>>,
        TspParsingError,
    >)
        ensures
            match (res, coords_upto(text@, pos as int, dimension as int)) {
                (Ok(m), Ok(cs)) => euc2d_matrix(m.deep_view(), cs),
                (Err(e), Err(f)) => e == f,
                _ => false,
            },
    {
        let mut coords: Vec<(i32, i32)> = Vec::new();
        let mut p = pos;
        let mut a: usize = 0;
        while a < dimension
            invariant
                pos <= p <= text@.len(),
                a <= dimension,
                p == line_start(text@, pos as int, a as int),
                coords_upto(text@, pos as int, a as int) == Ok::<Seq<(i32, i32)>, TspParsingError>(
                    coords@,
                ),
            decreases dimension - a,
        {
            match next_line(text, p) {
                None => {
                    assert(coords_upto(text@, pos as int, a + 1) == Err::<
                        Seq<(i32, i32)>,
                        TspParsingError,
                    >(TspParsingError::NotEnoughData));
                    proof {
                        lemma_coords_error_stays(text@, pos as int, a + 1, dimension as int);
                    }
                    return Err(TspParsingError::NotEnoughData);
                },
                Some((e, next)) => {
                    match parse_line_into_coords(text, p, e) {
                        Err(err) => {
                            proof {
                                lemma_coords_error_stays(text@, pos as int, a + 1, dimension as int);
                            }
                            return Err(err);
                        },
                        Ok(c) => {
                            coords.push(c);
                        },
                    }
                    p = next;
                },
            }
            a = a + 1;
        }
        Ok(parse_distances(coords.as_slice()))
    }
}

/// Reading the coordinates of `a` lines gives `a` of them.
pub proof fn lemma_coords_len(s: Seq<u8>, pos: int, a: int)
    requires
        a >= 0,
        coords_upto(s, pos, a) is Ok,
    ensures
        coords_upto(s, pos, a)->Ok_0.len() == a,
    decreases a,
{
    if a > 0 {
        lemma_coords_len(s, pos, a - 1);
    }
}

/// A rounded square root is unique.
proof fn lemma_rounded_root_unique(k1: int, k2: int, d: int)
    requires
        is_rounded_root(k1, d),
        is_rounded_root(k2, d),
    ensures
        k1 == k2,
{
    if k1 < k2 {
        assert(false) by (nonlinear_arith)
            requires
                0 <= k1 < k2,
                4 * d < (2 * k1 + 1) * (2 * k1 + 1),
                (2 * k2 - 1) * (2 * k2 - 1) <= 4 * d,
        ;
    } else if k2 < k1 {
        assert(false) by (nonlinear_arith)
            requires
                0 <= k2 < k1,
                4 * d < (2 * k2 + 1) * (2 * k2 + 1),
                (2 * k1 - 1) * (2 * k1 - 1) <= 4 * d,
        ;
    }
}

/// The distance matrix of a set of points is symmetric.
pub proof fn lemma_euc2d_symmetric(m: Seq<Seq<u32>>, cs: Seq<(i32, i32)>)
    requires
        euc2d_matrix(m, cs),
    ensures
        forall|a: int, b: int|
            0 <= a < cs.len() && 0 <= b < cs.len() ==> #[trigger] m[a][b] == m[b][a],
{
    assert forall|a: int, b: int| 0 <= a < cs.len() && 0 <= b < cs.len() implies #[trigger] m[a][b]
        == m[b][a] by {
        let (p, q) = (cs[a], cs[b]);
        let d1 = (p.0 - q.0) * (p.0 - q.0) + (p.1 - q.1) * (p.1 - q.1);
        let d2 = (q.0 - p.0) * (q.0 - p.0) + (q.1 - p.1) * (q.1 - p.1);
        assert(d1 == d2) by (nonlinear_arith)
            requires
                d1 == (p.0 - q.0) * (p.0 - q.0) + (p.1 - q.1) * (p.1 - q.1),
                d2 == (q.0 - p.0) * (q.0 - p.0) + (q.1 - p.1) * (q.1 - p.1),
        ;
        assert(is_rounded_distance(m[a][b], p, q));
        assert(is_rounded_distance(m[b][a], q, p));
        let k1 = choose|k: int| is_rounded_root(k, d1) && m[a][b] == (if k > u32::MAX {
            u32::MAX as int
        } else {
            k
        });
        let k2 = choose|k: int| is_rounded_root(k, d2) && m[b][a] == (if k > u32::MAX {
            u32::MAX as int
        } else {
            k
        });
        lemma_rounded_root_unique(k1, k2, d1);
    }
}

/// Once reading the coordinates fails, reading more lines fails the same
/// way.
proof fn lemma_coords_error_stays(s: Seq<u8>, pos: int, a: int, b: int)
    requires
        1 <= a <= b,
        coords_upto(s, pos, a) is Err,
    ensures
        coords_upto(s, pos, b) == coords_upto(s, pos, a),
    decreases b - a,
{
    if a < b {
        lemma_coords_error_stays(s, pos, a, b - 1);
    }
}

} // verus!
