use vstd::prelude::*;

use crate::tsp_parser::lexer::{next_word, parse_bounded, word_u32, words};
use crate::tsp_parser::{same_outcome, TspParsingError, VariantParser};

verus! {

/// How many words the first `a` rows of a lower triangle with its diagonal
/// hold: `1 + 2 + ... + a`.
pub open spec fn triangle_count(a: int) -> int
    decreases a,
{
    if a <= 0 {
        0
    } else {
        triangle_count(a - 1) + a
    }
}

proof fn lemma_triangle_count_monotone(a: int, b: int)
    requires
        0 <= a <= b,
    ensures
        triangle_count(a) <= triangle_count(b),
    decreases b - a,
{
    if a < b {
        lemma_triangle_count_monotone(a, b - 1);
    }
}

/// The symmetric matrix that a lower-diagonal-row weight section starting
/// at `pos` gives: row `a` of the triangle lists the weights from vertex
/// `a` to the vertices `0..=a`.
pub open spec fn lower_diag_row_matrix(s: Seq<u8>, pos: int, n: int) -> Result<
    Seq<Seq<u32>>,
    TspParsingError,
> {
    let ws = words(s.subrange(pos, s.len() as int));
    let total = triangle_count(n);
    if exists|k: int| 0 <= k < total && k < ws.len() && #[trigger] word_u32(ws[k]) is None {
        Err(TspParsingError::WeightNotANumber)
    } else if ws.len() < total {
        Err(TspParsingError::NotEnoughData)
    } else {
        Ok(
            Seq::new(
                n as nat,
                |a: int|
                    Seq::new(
                        n as nat,
                        |b: int|
                            if b <= a {
                                word_u32(ws[triangle_count(a) + b]).unwrap()
                            } else {
                                word_u32(ws[triangle_count(b) + a]).unwrap()
                            },
                    ),
            ),
        )
    }
}

pub struct LowerDiagRowTspParser;

impl VariantParser for LowerDiagRowTspParser {
    fn parse(text: &[u8], pos: usize, dimension: usize) -> (res: Result<
        Vec<Vec<u32>>,
        TspParsingError,
    >)
        ensures
            same_outcome(res, lower_diag_row_matrix(text@, pos as int, dimension as int)),
    {
        let len = text.len();
        let ghost ws = words(text@.subrange(pos as int, len as int));
        let ghost n = dimension as int;
        assert(ws.skip(0) =~= ws);
        let mut p = pos;
        let mut triangle: Vec<Vec<u32>> = Vec::new();
        let mut a: usize = 0;
        while a < dimension
            invariant
                pos <= p <= len,
                len == text@.len(),
                n == dimension,
                ws == words(text@.subrange(pos as int, len as int)),
                a <= dimension,
                triangle@.len() == a,
                triangle_count(a as int) <= ws.len(),
                words(text@.subrange(p as int, len as int)) == ws.skip(triangle_count(a as int)),
                forall|k: int| 0 <= k < triangle_count(a as int) ==> #[trigger] word_u32(ws[k]) is Some,
                forall|r: int| 0 <= r < a ==> (#[trigger] triangle@[r])@.len() == r + 1,
                forall|r: int, q: int|
                    0 <= r < a && 0 <= q <= r ==> #[trigger] triangle@[r]@[q] == word_u32(
                        ws[triangle_count(r) + q],
                    ).unwrap(),
            decreases dimension - a,
        {
            let mut row: Vec<u32> = Vec::new();
            let mut b: usize = 0;
            while b <= a
                invariant
                    pos <= p <= len,
                    len == text@.len(),
                    n == dimension,
                    ws == words(text@.subrange(pos as int, len as int)),
                    a < dimension,
                    b <= a + 1,
                    row@.len() == b,
                    triangle_count(a as int) + b <= ws.len(),
                    words(text@.subrange(p as int, len as int)) == ws.skip(
                        triangle_count(a as int) + b,
                    ),
                    forall|k: int|
                        0 <= k < triangle_count(a as int) + b ==> #[trigger] word_u32(ws[k]) is Some,
                    forall|q: int|
                        0 <= q < b ==> #[trigger] row@[q] == word_u32(
                            ws[triangle_count(a as int) + q],
                        ).unwrap(),
                decreases a + 1 - b,
            {
                let ghost c = triangle_count(a as int) + b;
                proof {
                    lemma_triangle_count_monotone(a + 1, n);
                    lemma_triangle_count_monotone(0, a as int);
                }
                match next_word(text, p, len) {
                    None => {
                        assert(ws.len() == c);
                        return Err(TspParsingError::NotEnoughData);
                    },
                    Some((s, e)) => {
                        assert(ws.skip(c)[0] == text@.subrange(s as int, e as int));
                        assert(ws.skip(c).len() == ws.len() - c);
                        assert(ws[c] == ws.skip(c)[0]);
                        assert(ws.skip(c + 1) =~= ws.skip(c).drop_first());
                        match parse_bounded(text, s, e, u32::MAX as u64) {
                            None => {
                                assert(word_u32(ws[c]) is None);
                                return Err(TspParsingError::WeightNotANumber);
                            },
                            Some(v) => {
                                row.push(v as u32);
                            },
                        }
                        p = e;
                    },
                }
                b = b + 1;
            }
            let ghost before = triangle@;
            triangle.push(row);
            proof {
                assert forall|r: int| 0 <= r < a + 1 implies (#[trigger] triangle@[r])@.len() == r
                    + 1 by {
                    if r < a {
                        assert(triangle@[r] == before[r]);
                    }
                }
                assert forall|r: int, q: int|
                    0 <= r < a + 1 && 0 <= q <= r implies #[trigger] triangle@[r]@[q] == word_u32(
                        ws[triangle_count(r) + q],
                    ).unwrap() by {
                    if r < a {
                        assert(triangle@[r] == before[r]);
                        assert(before[r]@[q] == word_u32(ws[triangle_count(r) + q]).unwrap());
                    } else {
                        assert(triangle@[r]@[q] == row@[q]);
                    }
                }
            }
            a = a + 1;
        }
        proof {
            assert(!(exists|k: int|
                0 <= k < triangle_count(n) && k < ws.len() && #[trigger] word_u32(ws[k]) is None));
        }
        let mut edges: Vec<Vec<u32>> = Vec::new();
        let mut a: usize = 0;
        while a < dimension
            invariant
                n == dimension,
                a <= dimension,
                triangle@.len() == n,
                forall|r: int| 0 <= r < n ==> (#[trigger] triangle@[r])@.len() == r + 1,
                forall|r: int, q: int|
                    0 <= r < n && 0 <= q <= r ==> #[trigger] triangle@[r]@[q] == word_u32(
                        ws[triangle_count(r) + q],
                    ).unwrap(),
                edges@.len() == a,
                forall|r: int| 0 <= r < a ==> (#[trigger] edges@[r])@.len() == n,
                forall|r: int, q: int|
                    0 <= r < a && 0 <= q < n ==> #[trigger] edges@[r]@[q] == (if q <= r {
                        word_u32(ws[triangle_count(r) + q]).unwrap()
                    } else {
                        word_u32(ws[triangle_count(q) + r]).unwrap()
                    }),
            decreases dimension - a,
        {
            let mut row: Vec<u32> = Vec::new();
            let mut b: usize = 0;
            while b < dimension
                invariant
                    n == dimension,
                    a < dimension,
                    b <= dimension,
                    triangle@.len() == n,
                    forall|r: int| 0 <= r < n ==> (#[trigger] triangle@[r])@.len() == r + 1,
                    forall|r: int, q: int|
                        0 <= r < n && 0 <= q <= r ==> #[trigger] triangle@[r]@[q] == word_u32(
                            ws[triangle_count(r) + q],
                        ).unwrap(),
                    row@.len() == b,
                    forall|q: int|
                        0 <= q < b ==> #[trigger] row@[q] == (if q <= a {
                            word_u32(ws[triangle_count(a as int) + q]).unwrap()
                        } else {
                            word_u32(ws[triangle_count(q) + a]).unwrap()
                        }),
                decreases dimension - b,
            {
                assert(triangle@[a as int]@.len() == a + 1);
                assert(triangle@[b as int]@.len() == b + 1);
                let w = if b <= a {
                    triangle[a][b]
                } else {
                    triangle[b][a]
                };
                row.push(w);
                b = b + 1;
            }
            let ghost before = edges@;
            edges.push(row);
            proof {
                assert forall|r: int| 0 <= r < a + 1 implies (#[trigger] edges@[r])@.len() == n by {
                    if r < a {
                        assert(edges@[r] == before[r]);
                    }
                }
                assert forall|r: int, q: int| 0 <= r < a + 1 && 0 <= q < n implies #[trigger] edges@[
                    r]@[q] == (if q <= r {
                    word_u32(ws[triangle_count(r) + q]).unwrap()
                } else {
                    word_u32(ws[triangle_count(q) + r]).unwrap()
                }) by {
                    if r < a {
                        assert(edges@[r] == before[r]);
                        assert(before[r]@[q] == (if q <= r {
                            word_u32(ws[triangle_count(r) + q]).unwrap()
                        } else {
                            word_u32(ws[triangle_count(q) + r]).unwrap()
                        }));
                    } else {
                        assert(edges@[r]@[q] == row@[q]);
                    }
                }
            }
            a = a + 1;
        }
        proof {
            let expected = Seq::new(
                n as nat,
                |r: int|
                    Seq::new(
                        n as nat,
                        |q: int|
                            if q <= r {
                                word_u32(ws[triangle_count(r) + q]).unwrap()
                            } else {
                                word_u32(ws[triangle_count(q) + r]).unwrap()
                            },
                    ),
            );
            assert forall|r: int| 0 <= r < n implies #[trigger] edges.deep_view()[r] == expected[r] by {
                assert(edges.deep_view()[r] =~= edges@[r]@);
                assert(expected[r] =~= edges@[r]@);
            }
            assert(edges.deep_view() =~= expected);
        }
        Ok(edges)
    }
}

} // verus!
