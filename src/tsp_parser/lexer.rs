use vstd::prelude::*;

verus! {

/// ASCII whitespace: space, tab, line feed, vertical tab, form feed and
/// carriage return.
pub open spec fn is_space(b: u8) -> bool {
    b == 32 || (9 <= b && b <= 13)
}

pub open spec fn is_digit(b: u8) -> bool {
    48 <= b && b <= 57
}

/// The whitespace-separated words of `s`, in order.
pub open spec fn words(s: Seq<u8>) -> Seq<Seq<u8>>
    decreases s.len(),
{
    if s.len() == 0 {
        Seq::empty()
    } else {
        let rest = words(s.drop_first());
        if is_space(s[0]) {
            rest
        } else if s.len() > 1 && !is_space(s[1]) {
            seq![seq![s[0]] + rest[0]] + rest.drop_first()
        } else {
            seq![seq![s[0]]] + rest
        }
    }
}

/// The value of a string of decimal digits.
pub open spec fn digits_value(s: Seq<u8>) -> int
    decreases s.len(),
{
    if s.len() == 0 {
        0
    } else {
        digits_value(s.drop_last()) * 10 + (s.last() - 48)
    }
}

pub open spec fn all_digits(s: Seq<u8>) -> bool {
    forall|k: int| 0 <= k < s.len() ==> is_digit(#[trigger] s[k])
}

/// The number that `w` spells as an unsigned decimal: digits, at least
/// one, after an optional `+`.
pub open spec fn unsigned_value(w: Seq<u8>) -> Option<int> {
    let d = if w.len() > 0 && w[0] == 43 {
        w.drop_first()
    } else {
        w
    };
    if d.len() > 0 && all_digits(d) {
        Some(digits_value(d))
    } else {
        None
    }
}

/// The `u32` that `w` spells as an unsigned decimal.
pub open spec fn word_u32(w: Seq<u8>) -> Option<u32> {
    match unsigned_value(w) {
        Some(v) => if v <= u32::MAX {
            Some(v as u32)
        } else {
            None
        },
        None => None,
    }
}

/// Where the line that starts at `pos` ends: at the first line feed at or
/// after `pos`, or at the end of the text.
pub open spec fn raw_line_end(s: Seq<u8>, pos: int) -> int
    decreases s.len() - pos,
{
    if pos >= s.len() || s[pos] == 10 {
        pos
    } else {
        raw_line_end(s, pos + 1)
    }
}

/// The end of the text of the line that starts at `pos`, without its line
/// feed and a carriage return before it.
pub open spec fn line_end(s: Seq<u8>, pos: int) -> int {
    let r = raw_line_end(s, pos);
    if r > pos && s[r - 1] == 13 {
        r - 1
    } else {
        r
    }
}

/// Where the line after the one that starts at `pos` starts.
pub open spec fn next_line_start(s: Seq<u8>, pos: int) -> int {
    let r = raw_line_end(s, pos);
    if r < s.len() {
        r + 1
    } else {
        r
    }
}

/// The start of the first line, at or after `pos`, whose text holds `pat`.
pub open spec fn find_line(s: Seq<u8>, pos: int, pat: Seq<u8>) -> Option<int>
    decreases s.len() - pos,
    via find_line_decreases
{
    if pos < 0 || pos >= s.len() {
        None
    } else if contains_at(s, pos, line_end(s, pos), pat) {
        Some(pos)
    } else {
        find_line(s, next_line_start(s, pos), pat)
    }
}

#[via_fn]
proof fn find_line_decreases(s: Seq<u8>, pos: int, pat: Seq<u8>) {
    if 0 <= pos < s.len() {
        lemma_raw_line_end(s, pos);
    }
}

/// A line ends at or after its start, at a line feed or at the end of the
/// text, with no line feed before.
pub proof fn lemma_raw_line_end(s: Seq<u8>, pos: int)
    requires
        0 <= pos <= s.len(),
    ensures
        pos <= raw_line_end(s, pos) <= s.len(),
        raw_line_end(s, pos) < s.len() ==> s[raw_line_end(s, pos)] == 10,
        pos <= line_end(s, pos) <= next_line_start(s, pos) <= s.len(),
        pos < s.len() ==> pos < next_line_start(s, pos),
    decreases s.len() - pos,
{
    if pos < s.len() && s[pos] != 10 {
        lemma_raw_line_end(s, pos + 1);
    }
}

/// `pat` occurs in `s[a..b]`.
pub open spec fn contains_at(s: Seq<u8>, a: int, b: int, pat: Seq<u8>) -> bool {
    exists|k: int| a <= k && k + pat.len() <= b && #[trigger] s.subrange(k, k + pat.len()) == pat
}

proof fn lemma_words_space(s: Seq<u8>, p: int, end: int)
    requires
        0 <= p < end <= s.len(),
        is_space(s[p]),
    ensures
        words(s.subrange(p, end)) == words(s.subrange(p + 1, end)),
{
    assert(s.subrange(p, end).drop_first() =~= s.subrange(p + 1, end));
}

proof fn lemma_words_word(s: Seq<u8>, p: int, e: int, end: int)
    requires
        0 <= p < e <= end <= s.len(),
        forall|k: int| p <= k < e ==> !is_space(#[trigger] s[k]),
        e == end || is_space(s[e]),
    ensures
        words(s.subrange(p, end)) == seq![s.subrange(p, e)] + words(s.subrange(e, end)),
    decreases e - p,
{
    let t = s.subrange(p, end);
    assert(t.drop_first() =~= s.subrange(p + 1, end));
    if e - p == 1 {
        assert(seq![t[0]] =~= s.subrange(p, e));
    } else {
        lemma_words_word(s, p + 1, e, end);
        assert(!is_space(t[1]));
        assert(seq![t[0]] + s.subrange(p + 1, e) =~= s.subrange(p, e));
        assert(seq![s.subrange(p + 1, e)] + words(s.subrange(e, end)) =~= words(
            s.subrange(p + 1, end),
        ));
        assert(words(s.subrange(p + 1, end))[0] == s.subrange(p + 1, e));
        assert(words(s.subrange(p + 1, end)).drop_first() =~= words(s.subrange(e, end)));
    }
}

/// The next word of `text[pos..end]`, as its start and its end.
pub fn next_word(text: &[u8], pos: usize, end: usize) -> (res: Option<(usize, usize)>)
    requires
        pos <= end <= text@.len(),
    ensures
        match res {
            None => words(text@.subrange(pos as int, end as int)) == Seq::<Seq<u8>>::empty(),
            Some((s, e)) => {
                &&& pos <= s < e <= end
                &&& words(text@.subrange(pos as int, end as int)) == seq![
                    text@.subrange(s as int, e as int),
                ] + words(text@.subrange(e as int, end as int))
            },
        },
{
    let mut p = pos;
    while p < end && is_space_byte(text[p])
        invariant
            pos <= p <= end <= text@.len(),
            words(text@.subrange(pos as int, end as int)) == words(
                text@.subrange(p as int, end as int),
            ),
        decreases end - p,
    {
        proof {
            lemma_words_space(text@, p as int, end as int);
        }
        p = p + 1;
    }
    if p == end {
        assert(text@.subrange(p as int, end as int).len() == 0);
        return None;
    }
    let mut e = p + 1;
    while e < end && !is_space_byte(text[e])
        invariant
            p < e <= end <= text@.len(),
            forall|k: int| p <= k < e ==> !is_space(#[trigger] text@[k]),
        decreases end - e,
    {
        e = e + 1;
    }
    proof {
        lemma_words_word(text@, p as int, e as int, end as int);
    }
    Some((p, e))
}

pub fn is_space_byte(b: u8) -> (r: bool)
    ensures
        r == is_space(b),
{
    b == 32 || (9 <= b && b <= 13)
}

/// The line that starts at `pos`: the end of its text, and where the next
/// line starts; `None` at the end of the text.
pub fn next_line(text: &[u8], pos: usize) -> (res: Option<(usize, usize)>)
    requires
        pos <= text@.len(),
    ensures
        match res {
            None => pos == text@.len(),
            Some((e, next)) => {
                &&& pos < text@.len()
                &&& e == line_end(text@, pos as int)
                &&& next == next_line_start(text@, pos as int)
                &&& pos <= e <= next <= text@.len()
            },
        },
{
    if pos == text.len() {
        return None;
    }
    let mut r = pos;
    while r < text.len() && text[r] != 10
        invariant
            pos <= r <= text@.len(),
            raw_line_end(text@, r as int) == raw_line_end(text@, pos as int),
        decreases text@.len() - r,
    {
        r = r + 1;
    }
    let e = if r > pos && text[r - 1] == 13 {
        r - 1
    } else {
        r
    };
    let next = if r < text.len() {
        r + 1
    } else {
        r
    };
    Some((e, next))
}

/// Whether `pat` occurs in `text[a..b]`.
pub fn contains_pattern(text: &[u8], a: usize, b: usize, pat: &[u8]) -> (r: bool)
    requires
        a <= b <= text@.len(),
    ensures
        r == contains_at(text@, a as int, b as int, pat@),
{
    let m = pat.len();
    if m > b - a {
        return false;
    }
    let mut k = a;
    while k <= b - m
        invariant
            a <= k,
            m == pat@.len(),
            m <= b - a,
            b <= text@.len(),
            forall|q: int|
                a <= q < k ==> #[trigger] text@.subrange(q, q + pat@.len()) != pat@,
        decreases b - k,
    {
        let mut t: usize = 0;
        while t < m && text[k + t] == pat[t]
            invariant
                t <= m,
                k + m <= b <= text@.len(),
                m == pat@.len(),
                forall|u: int| 0 <= u < t ==> text@[k + u] == pat@[u],
            decreases m - t,
        {
            t = t + 1;
        }
        if t == m {
            assert(text@.subrange(k as int, k + m) =~= pat@);
            return true;
        }
        assert(text@.subrange(k as int, k + m)[t as int] != pat@[t as int]);
        k = k + 1;
    }
    proof {
        assert forall|q: int| a <= q && q + pat@.len() <= b implies #[trigger] text@.subrange(
            q,
            q + pat@.len(),
        ) != pat@ by {
            assert(q < k);
        }
    }
    false
}

proof fn lemma_digits_prefix(s: Seq<u8>, k: int)
    requires
        0 <= k <= s.len(),
        all_digits(s),
    ensures
        0 <= digits_value(s.take(k)) <= digits_value(s),
    decreases s.len(),
{
    if k < s.len() {
        assert(s.drop_last().take(k) =~= s.take(k));
        lemma_digits_prefix(s.drop_last(), k);
    } else {
        assert(s.take(k) =~= s);
        lemma_digits_nonneg(s);
    }
}

pub proof fn lemma_digits_nonneg(s: Seq<u8>)
    requires
        all_digits(s),
    ensures
        digits_value(s) >= 0,
    decreases s.len(),
{
    if s.len() > 0 {
        lemma_digits_nonneg(s.drop_last());
    }
}

/// Reads `text[a..b]` as an unsigned decimal no greater than `max`.
pub fn parse_bounded(text: &[u8], a: usize, b: usize, max: u64) -> (res: Option<u64>)
    requires
        a <= b <= text@.len(),
    ensures
        ({
            let v = unsigned_value(text@.subrange(a as int, b as int));
            &&& res is Some <==> (v is Some && v.unwrap() <= max)
            &&& res matches Some(x) ==> x == v.unwrap()
        }),
{
    let ghost w = text@.subrange(a as int, b as int);
    let start = if a < b && text[a] == 43 {
        a + 1
    } else {
        a
    };
    let ghost d = text@.subrange(start as int, b as int);
    assert(d =~= (if w.len() > 0 && w[0] == 43 {
        w.drop_first()
    } else {
        w
    }));
    if start == b {
        return None;
    }
    let mut value: u64 = 0;
    let mut k = start;
    while k < b
        invariant
            start <= k <= b <= text@.len(),
            d == text@.subrange(start as int, b as int),
            w == text@.subrange(a as int, b as int),
            d == (if w.len() > 0 && w[0] == 43 {
                w.drop_first()
            } else {
                w
            }),
            d.len() > 0,
            value <= max,
            all_digits(d.take(k - start)),
            value == digits_value(d.take(k - start)),
        decreases b - k,
    {
        let c = text[k];
        if c < 48 || c > 57 {
            assert(!is_digit(d[k - start]));
            assert(!all_digits(d));
            return None;
        }
        let digit = (c - 48) as u64;
        assert(d.take(k - start + 1).drop_last() =~= d.take(k - start));
        if digit > max || value > (max - digit) / 10 {
            proof {
                assert(value * 10 + digit > max);
                if all_digits(d) {
                    lemma_digits_prefix(d, k - start + 1);
                }
            }
            return None;
        }
        value = value * 10 + digit;
        k = k + 1;
    }
    assert(d.take(k - start) =~= d);
    Some(value)
}

} // verus!
