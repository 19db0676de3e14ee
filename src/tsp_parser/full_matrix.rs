use vstd::prelude::*;

use crate::tsp_parser::lexer::{next_word, parse_bounded, word_u32, words};
use crate::tsp_parser::{same_outcome, TspParsingError, VariantParser};

verus! {

/// The matrix that a full-matrix weight section starting at `pos` gives:
/// its first `n * n` words, row after row.
pub open spec fn full_matrix(s: Seq<u8>, pos: int, n: int) -> Result<Seq<Seq<u32>>, TspParsingError> {
    let ws = words(s.subrange(pos, s.len() as int));
    if pos >= s.len() {
        Err(TspParsingError::NotEnoughData)
    } else if exists|k: int| 0 <= k < n * n && k < ws.len() && #[trigger] word_u32(ws[k]) is None {
        Err(TspParsingError::WeightNotANumber)
    } else if ws.len() < n * n {
        Err(TspParsingError::NotEnoughData)
    } else {
        Ok(Seq::new(n as nat, |a: int| Seq::new(n as nat, |b: int| word_u32(ws[a * n + b]).unwrap())))
    }
}

pub struct FullMatrixTspParser;

impl VariantParser for FullMatrixTspParser {
    fn parse(text: &[u8], pos: usize, dimension: usize) -> (res: Result<
        Vec<Vec<u32>>,
        TspParsingError,
    >)
        ensures
            same_outcome(res, full_matrix(text@, pos as int, dimension as int)),
    {
        let len = text.len();
        if pos >= len {
            return Err(TspParsingError::NotEnoughData);
        }
        let ghost ws = words(text@.subrange(pos as int, len as int));
        let ghost n = dimension as int;
        assert(ws.skip(0) =~= ws);
        let mut p = pos;
        let mut edges: Vec<Vec<u32>> = Vec::new();
        let mut a: usize = 0;
        while a < dimension
            invariant
                pos <= p <= len,
                len == text@.len(),
                n == dimension,
                ws == words(text@.subrange(pos as int, len as int)),
                a <= dimension,
                edges@.len() == a,
                a * n <= ws.len(),
                words(text@.subrange(p as int, len as int)) == ws.skip(a * n),
                forall|k: int| 0 <= k < a * n ==> #[trigger] word_u32(ws[k]) is Some,
                forall|r: int| 0 <= r < a ==> (#[trigger] edges@[r])@.len() == n,
                forall|r: int, q: int|
                    0 <= r < a && 0 <= q < n ==> #[trigger] edges@[r]@[q] == word_u32(
                        ws[r * n + q],
                    ).unwrap(),
            decreases dimension - a,
        {
            let mut row: Vec<u32> = Vec::new();
            let mut b: usize = 0;
            while b < dimension
                invariant
                    pos <= p <= len,
                    len == text@.len(),
                    n == dimension,
                    ws == words(text@.subrange(pos as int, len as int)),
                    a < dimension,
                    b <= dimension,
                    row@.len() == b,
                    a * n + b <= ws.len(),
                    words(text@.subrange(p as int, len as int)) == ws.skip(a * n + b),
                    forall|k: int| 0 <= k < a * n + b ==> #[trigger] word_u32(ws[k]) is Some,
                    forall|q: int| 0 <= q < b ==> #[trigger] row@[q] == word_u32(ws[a * n + q]).unwrap(),
                decreases dimension - b,
            {
                let ghost c = a * n + b;
                assert(c < n * n) by (nonlinear_arith)
                    requires
                        c == a * n + b,
                        0 <= a < n,
                        0 <= b < n,
                ;
                match next_word(text, p, len) {
                    None => {
                        assert(ws.len() == c);
                        return Err(TspParsingError::NotEnoughData);
                    },
                    Some((s, e)) => {
                        assert(ws.skip(c)[0] == text@.subrange(s as int, e as int));
                        assert(ws.skip(c).len() == ws.len() - c);
                        assert(ws[c] == ws.skip(c)[0]);
                        assert(ws.skip(c + 1) =~= ws.skip(c).drop_first());
                        match parse_bounded(text, s, e, u32::MAX as u64) {
                            None => {
                                assert(word_u32(ws[c]) is None);
                                return Err(TspParsingError::WeightNotANumber);
                            },
                            Some(v) => {
                                row.push(v as u32);
                            },
                        }
                        p = e;
                    },
                }
                b = b + 1;
            }
            assert((a + 1) * n == a * n + n) by (nonlinear_arith);
            assert(row@.len() == n);
            let ghost before = edges@;
            edges.push(row);
            proof {
                assert forall|r: int| 0 <= r < a + 1 implies (#[trigger] edges@[r])@.len() == n by {
                    if r < a {
                        assert(edges@[r] == before[r]);
                    }
                }
                assert forall|r: int, q: int|
                    0 <= r < a + 1 && 0 <= q < n implies #[trigger] edges@[r]@[q] == word_u32(
                        ws[r * n + q],
                    ).unwrap() by {
                    if r < a {
                        assert(edges@[r] == before[r]);
                        assert(before[r]@[q] == word_u32(ws[r * n + q]).unwrap());
                    } else {
                        assert(edges@[r] == row);
                        assert(edges@[r]@[q] == row@[q]);
                    }
                }
            }
            a = a + 1;
        }
        proof {
            assert(!(exists|k: int| 0 <= k < n * n && k < ws.len() && #[trigger] word_u32(ws[k]) is None));
            let expected = Seq::new(
                n as nat,
                |r: int| Seq::new(n as nat, |q: int| word_u32(ws[r * n + q]).unwrap()),
            );
            assert forall|r: int| 0 <= r < n implies #[trigger] edges.deep_view()[r] == expected[r] by {
                assert(edges.deep_view()[r] =~= edges@[r]@);
                assert(expected[r] =~= edges@[r]@);
            }
            assert(edges.deep_view() =~= expected);
        }
        Ok(edges)
    }
}

} // verus!
