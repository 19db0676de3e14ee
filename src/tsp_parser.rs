pub mod euc2d;
pub mod full_matrix;
pub mod lexer;
pub mod lower_diag_row;

use vstd::prelude::*;
use vstd::string::StringSliceAdditionalSpecFns;

use crate::tsp::{valid_model, Tsp, TspType, MAX_DIMENSION};
use crate::tsp_parser::euc2d::{
    coords_upto, euc2d_matrix, lemma_coords_len, lemma_euc2d_symmetric, Euc2dTspParser,
};
use crate::tsp_parser::full_matrix::{full_matrix, FullMatrixTspParser};
use crate::tsp_parser::lexer::{
    contains_at, contains_pattern, find_line, lemma_raw_line_end, line_end, next_line,
    next_line_start, next_word, parse_bounded, unsigned_value, words,
};
use crate::tsp_parser::lower_diag_row::{lower_diag_row_matrix, LowerDiagRowTspParser};

verus! {

/// How a problem file gives its weights.
#[derive(Debug, PartialEq, Eq, Clone, Copy, Structural)]
pub enum TspFileType {
    LowerDiagRow,
    FullMatrix,
    Euc2d,
}

/// Why a problem file could not be read.
#[derive(Debug, PartialEq, Eq, Clone, Copy, Structural)]
pub enum TspParsingError {
    FileDoesntExist,
    NoExplicitFileType,
    NoFileType,
    NoDimension,
    NotEnoughData,
    DimensionNotANumber,
    WeightNotANumber,
}

/// `res` holds the matrix `expected` holds, or the same error.
pub open spec fn same_outcome(
    res: Result<Vec<Vec<u32>>, TspParsingError>,
    expected: Result<Seq<Seq<u32>>, TspParsingError>,
) -> bool {
    match (res, expected) {
        (Ok(m), Ok(e)) => m.deep_view() == e,
        (Err(a), Err(b)) => a == b,
        _ => false,
    }
}

/// A reader of the weight section of one kind of problem file, which
/// starts at `pos` of `text`.
pub trait VariantParser {
    fn parse(text: &[u8], pos: usize, dimension: usize) -> (res: Result<
        Vec<Vec<u32>>,
        TspParsingError,
    >)
        requires
            pos <= text@.len(),
    ;
}

pub open spec fn dimension_key() -> Seq<u8> {
    "DIMENSION".spec_bytes()
}

pub open spec fn weight_type_key() -> Seq<u8> {
    "EDGE_WEIGHT_TYPE".spec_bytes()
}

pub open spec fn euc2d_key() -> Seq<u8> {
    "EUC_2D".spec_bytes()
}

pub open spec fn explicit_key() -> Seq<u8> {
    "EXPLICIT".spec_bytes()
}

pub open spec fn full_matrix_key() -> Seq<u8> {
    "FULL_MATRIX".spec_bytes()
}

pub open spec fn lower_diag_row_key() -> Seq<u8> {
    "LOWER_DIAG_ROW".spec_bytes()
}

pub open spec fn weight_section_key() -> Seq<u8> {
    "EDGE_WEIGHT_SECTION".spec_bytes()
}

pub open spec fn coord_section_key() -> Seq<u8> {
    "NODE_COORD_SECTION".spec_bytes()
}

/// The dimension that the line starting at `l` gives in its last word.
pub open spec fn dimension_of_line(s: Seq<u8>, l: int) -> Result<usize, TspParsingError> {
    let ws = words(s.subrange(l, line_end(s, l)));
    if ws.len() == 0 {
        Err(TspParsingError::NoDimension)
    } else {
        match unsigned_value(ws.last()) {
            Some(v) => if v <= usize::MAX {
                Ok(v as usize)
            } else {
                Err(TspParsingError::DimensionNotANumber)
            },
            None => Err(TspParsingError::DimensionNotANumber),
        }
    }
}

/// The file type that the line starting at `pos` gives after `EXPLICIT`.
pub open spec fn explicit_file_type(s: Seq<u8>, pos: int) -> Result<TspFileType, TspParsingError> {
    if pos >= s.len() {
        Err(TspParsingError::NoExplicitFileType)
    } else if contains_at(s, pos, line_end(s, pos), full_matrix_key()) {
        Ok(TspFileType::FullMatrix)
    } else if contains_at(s, pos, line_end(s, pos), lower_diag_row_key()) {
        Ok(TspFileType::LowerDiagRow)
    } else {
        Err(TspParsingError::NoExplicitFileType)
    }
}

/// The file type that the line starting at `l` gives, and where reading
/// goes on.
pub open spec fn file_type_of_line(s: Seq<u8>, l: int) -> (Result<TspFileType, TspParsingError>, int) {
    let after = next_line_start(s, l);
    if contains_at(s, l, line_end(s, l), euc2d_key()) {
        (Ok(TspFileType::Euc2d), after)
    } else if contains_at(s, l, line_end(s, l), explicit_key()) {
        (explicit_file_type(s, after), if after < s.len() {
            next_line_start(s, after)
        } else {
            after
        })
    } else {
        (Err(TspParsingError::NoFileType), after)
    }
}

/// The start of the first line at or after `pos` that opens the weight
/// section or the coordinate section.
pub open spec fn find_section(s: Seq<u8>, pos: int) -> Option<int>
    decreases s.len() - pos,
    via find_section_decreases
{
    if pos < 0 || pos >= s.len() {
        None
    } else if contains_at(s, pos, line_end(s, pos), weight_section_key()) || contains_at(
        s,
        pos,
        line_end(s, pos),
        coord_section_key(),
    ) {
        Some(pos)
    } else {
        find_section(s, next_line_start(s, pos))
    }
}

#[via_fn]
proof fn find_section_decreases(s: Seq<u8>, pos: int) {
    if 0 <= pos < s.len() {
        lemma_raw_line_end(s, pos);
    }
}

/// What the header of a problem file gives: the dimension, the file type,
/// and where the data after the section line starts.
pub open spec fn header(s: Seq<u8>) -> Result<(usize, TspFileType, int), TspParsingError> {
    match find_line(s, 0, dimension_key()) {
        None => Err(TspParsingError::NoDimension),
        Some(l) => match dimension_of_line(s, l) {
            Err(e) => Err(e),
            Ok(n) => match find_line(s, next_line_start(s, l), weight_type_key()) {
                None => Err(TspParsingError::NoFileType),
                Some(l2) => {
                    let (ft, p) = file_type_of_line(s, l2);
                    match ft {
                        Err(e) => Err(e),
                        Ok(t) => match find_section(s, p) {
                            None => Err(TspParsingError::NotEnoughData),
                            Some(l3) => Ok((n, t, next_line_start(s, l3))),
                        },
                    }
                },
            },
        },
    }
}

/// `res` is the model of the matrix `m`, or the error for a matrix that
/// makes none.
pub open spec fn model_outcome(
    res: Result<Tsp, TspParsingError>,
    m: Seq<Seq<u32>>,
    n: usize,
    kind: TspType,
) -> bool {
    if valid_model(m, n as nat, kind) {
        res matches Ok(t) && t.weights() == m && t.dim() == n && t.kind() == kind
    } else {
        res == Err::<Tsp, TspParsingError>(TspParsingError::NotEnoughData)
    }
}

/// `res` is what the problem file `s` gives.
pub open spec fn parsed_problem(s: Seq<u8>, res: Result<Tsp, TspParsingError>) -> bool {
    match header(s) {
        Err(e) => res == Err::<Tsp, TspParsingError>(e),
        Ok((n, t, p)) => match t {
            TspFileType::FullMatrix => match full_matrix(s, p, n as int) {
                Err(e) => res == Err::<Tsp, TspParsingError>(e),
                Ok(m) => model_outcome(res, m, n, TspType::Asymmetric),
            },
            TspFileType::LowerDiagRow => match lower_diag_row_matrix(s, p, n as int) {
                Err(e) => res == Err::<Tsp, TspParsingError>(e),
                Ok(m) => model_outcome(res, m, n, TspType::Symmetric),
            },
            TspFileType::Euc2d => match coords_upto(s, p, n as int) {
                Err(e) => res == Err::<Tsp, TspParsingError>(e),
                Ok(cs) => if 1 <= n <= MAX_DIMENSION {
                    res matches Ok(tsp) && euc2d_matrix(tsp.weights(), cs) && tsp.dim() == n
                        && tsp.kind() == TspType::Symmetric
                } else {
                    res == Err::<Tsp, TspParsingError>(TspParsingError::NotEnoughData)
                },
            },
        },
    }
}

/// The first line at or after `pos` that holds `pat`, and where the line
/// after it starts.
fn find_line_with(text: &[u8], pos: usize, pat: &[u8]) -> (res: Option<(usize, usize)>)
    requires
        pos <= text@.len(),
    ensures
        match res {
            None => find_line(text@, pos as int, pat@) is None,
            Some((l, next)) => find_line(text@, pos as int, pat@) == Some(l as int) && next
                == next_line_start(text@, l as int) && next <= text@.len(),
        },
{
    let mut p = pos;
    loop
        invariant
            pos <= p <= text@.len(),
            find_line(text@, pos as int, pat@) == find_line(text@, p as int, pat@),
        decreases text@.len() - p,
    {
        match next_line(text, p) {
            None => {
                return None;
            },
            Some((e, next)) => {
                proof {
                    lemma_raw_line_end(text@, p as int);
                }
                if contains_pattern(text, p, e, pat) {
                    return Some((p, next));
                }
                p = next;
            },
        }
    }
}

/// Where the data after the line that opens the weight or coordinate
/// section starts, searching from `pos`.
fn section_data_start(text: &[u8], pos: usize) -> (res: Option<usize>)
    requires
        pos <= text@.len(),
    ensures
        match find_section(text@, pos as int) {
            None => res is None,
            Some(l) => res is Some && res.unwrap() == next_line_start(text@, l),
        },
        res matches Some(start) ==> start <= text@.len(),
{
    let mut p = pos;
    loop
        invariant
            pos <= p <= text@.len(),
            find_section(text@, pos as int) == find_section(text@, p as int),
        decreases text@.len() - p,
    {
        match next_line(text, p) {
            None => {
                return None;
            },
            Some((e, next)) => {
                proof {
                    lemma_raw_line_end(text@, p as int);
                }
                if contains_pattern(text, p, e, "EDGE_WEIGHT_SECTION".as_bytes())
                    || contains_pattern(text, p, e, "NODE_COORD_SECTION".as_bytes()) {
                    return Some(next);
                }
                p = next;
            },
        }
    }
}

/// The last word of `text[a..b]`, as its start and its end.
fn last_word(text: &[u8], a: usize, b: usize) -> (res: Option<(usize, usize)>)
    requires
        a <= b <= text@.len(),
    ensures
        match res {
            None => words(text@.subrange(a as int, b as int)).len() == 0,
            Some((s, e)) => {
                &&& s <= e <= text@.len()
                &&& words(text@.subrange(a as int, b as int)).len() > 0
                &&& text@.subrange(s as int, e as int) == words(
                    text@.subrange(a as int, b as int),
                ).last()
            },
        },
{
    let ghost all = words(text@.subrange(a as int, b as int));
    let ghost mut seen: Seq<Seq<u8>> = Seq::empty();
    let mut last: Option<(usize, usize)> = None;
    let mut p = a;
    while p < b
        invariant
            a <= p <= b <= text@.len(),
            all == seen + words(text@.subrange(p as int, b as int)),
            last is None <==> seen.len() == 0,
            last matches Some((s, e)) ==> s <= e <= text@.len() && seen.last() == text@.subrange(
                s as int,
                e as int,
            ),
        decreases b - p,
    {
        match next_word(text, p, b) {
            None => {
                assert(all =~= seen);
                p = b;
            },
            Some((s, e)) => {
                proof {
                    assert(all =~= seen.push(text@.subrange(s as int, e as int)) + words(
                        text@.subrange(e as int, b as int),
                    ));
                    seen = seen.push(text@.subrange(s as int, e as int));
                }
                last = Some((s, e));
                p = e;
            },
        }
    }
    assert(text@.subrange(p as int, b as int).len() == 0);
    assert(all =~= seen);
    last
}

pub struct TspParser;

impl TspParser {
    /// Reads a problem file: its dimension, its file type, then the weight
    /// or coordinate section that follows the line that opens it.
    pub fn from_text(text: &[u8]) -> (res: Result<Tsp, TspParsingError>)
        ensures
            parsed_problem(text@, res),
    {
        let mut pos: usize = 0;
        let dimension = match TspParser::check_dimension(text, &mut pos) {
            Ok(dimension) => dimension,
            Err(e) => {
                return Err(e);
            },
        };
        let file_type = match TspParser::check_file_type(text, &mut pos) {
            Ok(file_type) => file_type,
            Err(e) => {
                return Err(e);
            },
        };
        let start = match section_data_start(text, pos) {
            Some(start) => start,
            None => {
                return Err(TspParsingError::NotEnoughData);
            },
        };
        let parsed = match file_type {
            TspFileType::LowerDiagRow => LowerDiagRowTspParser::parse(text, start, dimension),
            TspFileType::FullMatrix => FullMatrixTspParser::parse(text, start, dimension),
            TspFileType::Euc2d => Euc2dTspParser::parse(text, start, dimension),
        };
        let edges = match parsed {
            Ok(edges) => edges,
            Err(e) => {
                return Err(e);
            },
        };
        let kind = match file_type {
            TspFileType::FullMatrix => TspType::Asymmetric,
            TspFileType::LowerDiagRow => TspType::Symmetric,
            TspFileType::Euc2d => {
                proof {
                    let cs = coords_upto(text@, start as int, dimension as int)->Ok_0;
                    lemma_euc2d_symmetric(edges.deep_view(), cs);
                    lemma_coords_len(text@, start as int, dimension as int);
                    if 1 <= dimension <= MAX_DIMENSION {
                        assert(valid_model(edges.deep_view(), dimension as nat, TspType::Symmetric));
                    }
                }
                TspType::Symmetric
            },
        };
        match Tsp::new(edges, dimension, kind) {
            Ok(tsp) => Ok(tsp),
            Err(_) => Err(TspParsingError::NotEnoughData),
        }
    }

    /// Finds the first line at or after `pos` that holds `DIMENSION` and
    /// reads the number that ends it; `pos` moves past that line.
    pub fn check_dimension(text: &[u8], pos: &mut usize) -> (res: Result<usize, TspParsingError>)
        requires
            *old(pos) <= text@.len(),
        ensures
            *final(pos) <= text@.len(),
            match find_line(text@, *old(pos) as int, dimension_key()) {
                None => res == Err::<usize, TspParsingError>(TspParsingError::NoDimension),
                Some(l) => res == dimension_of_line(text@, l) && *final(pos) == next_line_start(
                    text@,
                    l,
                ),
            },
    {
        let key = "DIMENSION".as_bytes();
        match find_line_with(text, *pos, key) {
            None => Err(TspParsingError::NoDimension),
            Some((l, next)) => {
                *pos = next;
                let e = match next_line(text, l) {
                    Some((e, _)) => e,
                    None => l,
                };
                proof {
                    lemma_raw_line_end(text@, l as int);
                }
                match last_word(text, l, e) {
                    None => Err(TspParsingError::NoDimension),
                    Some((s, w)) => match parse_bounded(text, s, w, usize::MAX as u64) {
                        Some(v) => Ok(v as usize),
                        None => Err(TspParsingError::DimensionNotANumber),
                    },
                }
            },
        }
    }

    /// Finds the first line at or after `pos` that holds
    /// `EDGE_WEIGHT_TYPE` and reads the file type from it, and for explicit
    /// weights from the line after it; `pos` moves past what was read.
    pub fn check_file_type(text: &[u8], pos: &mut usize) -> (res: Result<TspFileType, TspParsingError>)
        requires
            *old(pos) <= text@.len(),
        ensures
            *final(pos) <= text@.len(),
            match find_line(text@, *old(pos) as int, weight_type_key()) {
                None => res == Err::<TspFileType, TspParsingError>(TspParsingError::NoFileType),
                Some(l) => (res, *final(pos) as int) == file_type_of_line(text@, l),
            },
    {
        let key = "EDGE_WEIGHT_TYPE".as_bytes();
        match find_line_with(text, *pos, key) {
            None => Err(TspParsingError::NoFileType),
            Some((l, next)) => {
                *pos = next;
                let e = match next_line(text, l) {
                    Some((e, _)) => e,
                    None => l,
                };
                proof {
                    lemma_raw_line_end(text@, l as int);
                }
                if contains_pattern(text, l, e, "EUC_2D".as_bytes()) {
                    Ok(TspFileType::Euc2d)
                } else if contains_pattern(text, l, e, "EXPLICIT".as_bytes()) {
                    TspParser::check_explicit_file_type(text, pos)
                } else {
                    Err(TspParsingError::NoFileType)
                }
            },
        }
    }

    /// Reads the explicit file type from the line at `pos`; `pos` moves past
    /// it.
    pub fn check_explicit_file_type(text: &[u8], pos: &mut usize) -> (res: Result<
        TspFileType,
        TspParsingError,
    >)
        requires
            *old(pos) <= text@.len(),
        ensures
            res == explicit_file_type(text@, *old(pos) as int),
            *final(pos) == (if *old(pos) < text@.len() {
                next_line_start(text@, *old(pos) as int)
            } else {
                *old(pos) as int
            }),
            *final(pos) <= text@.len(),
    {
        match next_line(text, *pos) {
            None => Err(TspParsingError::NoExplicitFileType),
            Some((e, next)) => {
                let l = *pos;
                *pos = next;
                if contains_pattern(text, l, e, "FULL_MATRIX".as_bytes()) {
                    Ok(TspFileType::FullMatrix)
                } else if contains_pattern(text, l, e, "LOWER_DIAG_ROW".as_bytes()) {
                    Ok(TspFileType::LowerDiagRow)
                } else {
                    Err(TspParsingError::NoExplicitFileType)
                }
            },
        }
    }
}

} // verus!
