use tsp_heuristics::tsp_parser::euc2d::{calculate_distance, Euc2dTspParser};
use tsp_heuristics::tsp_parser::full_matrix::FullMatrixTspParser;
use tsp_heuristics::tsp_parser::lower_diag_row::LowerDiagRowTspParser;
use tsp_heuristics::tsp_parser::{TspFileType, TspParser, TspParsingError, VariantParser};
use tsp_heuristics::TspType;

const EUC_2D: &str = "NAME : euc_2d
TYPE : TSP
COMMENT : three points
DIMENSION : 3
EDGE_WEIGHT_TYPE : EUC_2D
NODE_COORD_SECTION
1 0.0 10.0
2 0.0 0.0
3 5.0 5.0
EOF
";

const FULL_MATRIX: &str = "NAME : full_matrix
TYPE : ATSP
COMMENT : three vertices
DIMENSION : 3
EDGE_WEIGHT_TYPE : EXPLICIT
EDGE_WEIGHT_FORMAT : FULL_MATRIX
EDGE_WEIGHT_SECTION
9999    2    3
    2 9999    3
    3    3 9999
EOF
";

const LOWER_DIAG_ROW: &str = "NAME : lower_diag_row
TYPE : TSP
COMMENT : three vertices
DIMENSION : 3
EDGE_WEIGHT_TYPE : EXPLICIT
EDGE_WEIGHT_FORMAT : LOWER_DIAG_ROW
EDGE_WEIGHT_SECTION
0 2 0 3
 3 0
EOF
";

/// Where the line after the first `skipped` lines of `text` starts.
fn after_lines(text: &str, skipped: usize) -> usize {
    text.match_indices('\n').nth(skipped - 1).map(|(i, _)| i + 1).unwrap()
}

#[test]
fn euc2d_parser_working() {
    let data = "1 0.0 10.0
2 0.0 0.0
3 5.0 5.0";

    let edges = Euc2dTspParser::parse(data.as_bytes(), 0, 3).expect("error while parsing data");

    assert_eq!(vec![vec![0, 10, 7], vec![10, 0, 7], vec![7, 7, 0]], edges);
}

#[test]
fn full_matrix_parser_working() {
    let data = "9999    2    3
    2 9999    3
    3    3 9999";

    let edges =
        FullMatrixTspParser::parse(data.as_bytes(), 0, 3).expect("error while parsing data");
    assert_eq!(vec![vec![9999, 2, 3], vec![2, 9999, 3], vec![3, 3, 9999]], edges);
}

#[test]
fn lower_diag_row_parser_works() {
    let data = "0 2 0 3
 3 0
EOF";

    let edges =
        LowerDiagRowTspParser::parse(data.as_bytes(), 0, 3).expect("error while parsing data");
    assert_eq!(vec![vec![0, 2, 3], vec![2, 0, 3], vec![3, 3, 0]], edges);
}

fn check_file_type_works(file_content: &str, file_type: TspFileType) {
    let mut pos = after_lines(file_content, 4);

    let tsp_type = TspParser::check_file_type(file_content.as_bytes(), &mut pos)
        .expect("file couldn't be parsed");
    assert_eq!(file_type, tsp_type);
}

#[test]
fn check_euc_2d_file_type_works() {
    check_file_type_works(EUC_2D, TspFileType::Euc2d);
}

#[test]
fn check_full_matrix_file_type_works() {
    check_file_type_works(FULL_MATRIX, TspFileType::FullMatrix);
}

#[test]
fn check_lower_diag_row_file_type_works() {
    check_file_type_works(LOWER_DIAG_ROW, TspFileType::LowerDiagRow);
}

fn check_dimension_works(file_content: &str, expected_dimension: usize) {
    let mut pos = 0;

    let dimension = TspParser::check_dimension(file_content.as_bytes(), &mut pos)
        .expect("file couldn't be parsed");
    assert_eq!(expected_dimension, dimension);
}

#[test]
fn check_euc_2d_dimension_works() {
    check_dimension_works(EUC_2D, 3);
}

#[test]
fn check_full_matrix_dimension_works() {
    check_dimension_works(FULL_MATRIX, 3);
}

#[test]
fn check_lower_diag_row_dimension_works() {
    check_dimension_works(LOWER_DIAG_ROW, 3);
}

#[test]
fn lower_diag_row_works() {
    let tsp = TspParser::from_text(LOWER_DIAG_ROW.as_bytes()).expect("Couldn't parse file");
    assert_eq!(vec![vec![0, 2, 3], vec![2, 0, 3], vec![3, 3, 0]], tsp.get_edges());
    assert_eq!(TspType::Symmetric, tsp.get_tsp_type());
}

#[test]
fn full_matrix_works() {
    let tsp = TspParser::from_text(FULL_MATRIX.as_bytes()).expect("Couldn't parse file");
    assert_eq!(
        vec![vec![9999, 2, 3], vec![2, 9999, 3], vec![3, 3, 9999]],
        tsp.get_edges()
    );
    assert_eq!(TspType::Asymmetric, tsp.get_tsp_type());
}

#[test]
fn euc_2d_works() {
    let tsp = TspParser::from_text(EUC_2D.as_bytes()).expect("Couldn't parse file");
    assert_eq!(
        vec![vec![0, 10, 7], vec![10, 0, 7], vec![7, 7, 0]],
        tsp.get_edges()
    );
}

#[test]
fn windows_line_endings() {
    let text = FULL_MATRIX.replace('\n', "\r\n");
    let tsp = TspParser::from_text(text.as_bytes()).expect("Couldn't parse file");
    assert_eq!(3, tsp.get_dimension());
}

#[test]
fn header_errors() {
    assert_eq!(
        Some(TspParsingError::NoDimension),
        TspParser::from_text(b"NAME : x\nEDGE_WEIGHT_TYPE : EUC_2D\n").err()
    );
    assert_eq!(
        Some(TspParsingError::DimensionNotANumber),
        TspParser::from_text(b"DIMENSION : three\n").err()
    );
    assert_eq!(
        Some(TspParsingError::NoFileType),
        TspParser::from_text(b"DIMENSION : 3\n").err()
    );
    assert_eq!(
        Some(TspParsingError::NoFileType),
        TspParser::from_text(b"DIMENSION : 3\nEDGE_WEIGHT_TYPE : GEO\n").err()
    );
    assert_eq!(
        Some(TspParsingError::NoExplicitFileType),
        TspParser::from_text(
            b"DIMENSION : 3\nEDGE_WEIGHT_TYPE : EXPLICIT\nEDGE_WEIGHT_FORMAT : UPPER_ROW\n"
        )
        .err()
    );
    assert_eq!(
        Some(TspParsingError::NoExplicitFileType),
        TspParser::from_text(b"DIMENSION : 3\nEDGE_WEIGHT_TYPE : EXPLICIT\n").err()
    );
    assert_eq!(
        Some(TspParsingError::NotEnoughData),
        TspParser::from_text(b"DIMENSION : 3\nEDGE_WEIGHT_TYPE : EUC_2D\n1 0 0\n").err()
    );
    assert_eq!(
        Some(TspParsingError::NotEnoughData),
        TspParser::from_text(
            b"DIMENSION : 0\nEDGE_WEIGHT_TYPE : EXPLICIT\nFULL_MATRIX\nEDGE_WEIGHT_SECTION\n\n"
        )
        .err()
    );
}

#[test]
fn data_errors() {
    assert_eq!(
        Some(TspParsingError::NotEnoughData),
        FullMatrixTspParser::parse(b"1 2 3\n4 5", 0, 3).err()
    );
    assert_eq!(
        Some(TspParsingError::WeightNotANumber),
        FullMatrixTspParser::parse(b"1 2 x\n4 5", 0, 3).err()
    );
    assert_eq!(
        Some(TspParsingError::WeightNotANumber),
        FullMatrixTspParser::parse(b"1 2 4294967296", 0, 2).err()
    );
    assert_eq!(
        Some(TspParsingError::NotEnoughData),
        LowerDiagRowTspParser::parse(b"0 2 0", 0, 3).err()
    );
    assert_eq!(
        Some(TspParsingError::NotEnoughData),
        Euc2dTspParser::parse(b"1 0.0\n", 0, 1).err()
    );
    assert_eq!(
        Some(TspParsingError::WeightNotANumber),
        Euc2dTspParser::parse(b"1 0.0 1e\n", 0, 1).err()
    );
    assert_eq!(
        Some(TspParsingError::WeightNotANumber),
        Euc2dTspParser::parse(b"1 0.0 1.5x\n", 0, 1).err()
    );
    assert_eq!(
        Some(TspParsingError::NotEnoughData),
        Euc2dTspParser::parse(b"1 0.0 1.0\n", 0, 2).err()
    );
}

#[test]
fn full_matrix_reads_across_lines() {
    let edges = FullMatrixTspParser::parse(b"\n0 1\n\n2\t+3  \n", 0, 2).unwrap();
    assert_eq!(vec![vec![0, 1], vec![2, 3]], edges);
}

#[test]
fn coordinates_round_half_away_from_zero() {
    let edges = Euc2dTspParser::parse(b"1 0.5 0\n2 -2.5 -0.4\n3 .7 9.\n", 0, 3).unwrap();
    // The points are (1, 0), (-3, 0) and (1, 9).
    assert_eq!(vec![vec![0, 4, 9], vec![4, 0, 10], vec![9, 10, 0]], edges);
}

#[test]
fn coordinates_with_exponents() {
    let edges = Euc2dTspParser::parse(
        b"1 6.734000e+03 1.453E3\n2 6734.4 -1.4535e+3\n3 2.5e-1 1e-99999999999999999999999\n",
        0,
        3,
    )
    .unwrap();
    // The points are (6734, 1453), (6734, -1454) and (0, 0).
    assert_eq!(3, edges.len());
    assert_eq!(2907, edges[0][1]);
    assert_eq!(calculate_distance((6734, 1453), (0, 0)), edges[0][2]);
    assert_eq!(calculate_distance((6734, -1454), (0, 0)), edges[1][2]);
}

#[test]
fn coordinates_beyond_i32_are_held() {
    let edges = Euc2dTspParser::parse(b"1 1e400 -9e30\n2 0 0\n", 0, 2).unwrap();
    assert_eq!(
        calculate_distance((i32::MAX, i32::MIN), (0, 0)),
        edges[0][1]
    );
}

#[test]
fn distances_are_rounded() {
    assert_eq!(7, calculate_distance((0, 10), (5, 5)));
    assert_eq!(5, calculate_distance((0, 0), (3, 4)));
    assert_eq!(1, calculate_distance((0, 0), (1, 1)));
    assert_eq!(2, calculate_distance((0, 0), (1, 2)));
    assert_eq!(0, calculate_distance((7, -7), (7, -7)));
    assert_eq!(
        u32::MAX,
        calculate_distance((i32::MIN, i32::MIN), (i32::MAX, i32::MAX))
    );
}
