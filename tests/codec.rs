use gameoflifer::{parse_input_file, Board, Config, ParseError};

#[test]
fn test_parse_input_file() {
    let tests = vec![(
        "21 23\n4\n5 6\n7 8\n9 10\n11 12\n",
        Board::new(21, 23, &vec![(5, 6), (7, 8), (9, 10), (11, 12)]),
    )];
    for (input, expect) in tests {
        assert_eq!(parse_input_file(input), Ok(("", expect)));
    }
}

#[test]
fn parse_reads_dimensions_and_cells() {
    let (rest, board) = parse_input_file("21 23\n4\n5 6\n7 8\n9 10\n11 12\n").unwrap();
    assert_eq!(rest, "");
    assert_eq!(board.width(), 21);
    assert_eq!(board.height(), 23);
}

#[test]
fn parse_leaves_trailing_text() {
    let (rest, board) = parse_input_file("5 5\n1\n2 2\nmore\n").unwrap();
    assert_eq!(rest, "more\n");
    assert_eq!(board, Board::new(5, 5, &vec![(2, 2)]));
}

#[test]
fn parse_accepts_crlf_and_signs() {
    let (rest, board) = parse_input_file("+5 5\r\n2\r\n-1 +7\r\n3 3\n").unwrap();
    assert_eq!(rest, "");
    assert_eq!(board, Board::new(5, 5, &vec![(4, 2), (3, 3)]));
}

#[test]
fn parse_accepts_zero_cells() {
    let (rest, board) = parse_input_file("3 4\n0\n").unwrap();
    assert_eq!(rest, "");
    assert!(board.is_extinct());
    assert_eq!(board.width(), 3);
    assert_eq!(board.height(), 4);
}

#[test]
fn parse_rejects_missing_dimension_line() {
    assert_eq!(parse_input_file(""), Err(ParseError::Dimensions));
    assert_eq!(parse_input_file("4\n1 1\n"), Err(ParseError::Dimensions));
    assert_eq!(parse_input_file("5 5"), Err(ParseError::Dimensions));
}

#[test]
fn parse_rejects_non_integer_tokens() {
    assert_eq!(parse_input_file("a 5\n0\n"), Err(ParseError::Dimensions));
    assert_eq!(parse_input_file("5  5\n0\n"), Err(ParseError::Dimensions));
    assert_eq!(parse_input_file("5 5\nx\n"), Err(ParseError::CellCount));
    assert_eq!(parse_input_file("5 5\n-1\n"), Err(ParseError::CellCount));
    assert_eq!(parse_input_file("5 5\n2\n1 1\n1 q\n"), Err(ParseError::Cell(1)));
    assert_eq!(parse_input_file("5 5\n1\n1 -\n"), Err(ParseError::Cell(0)));
}

#[test]
fn parse_rejects_too_few_cell_lines() {
    assert_eq!(parse_input_file("5 5\n3\n1 1\n2 2\n"), Err(ParseError::Cell(2)));
    assert_eq!(parse_input_file("5 5\n1\n"), Err(ParseError::Cell(0)));
}

#[test]
fn parse_rejects_non_positive_dimensions() {
    assert_eq!(parse_input_file("0 5\n0\n"), Err(ParseError::Dimensions));
    assert_eq!(parse_input_file("5 -2\n0\n"), Err(ParseError::Dimensions));
}

#[test]
fn parse_checks_integer_ranges() {
    assert_eq!(parse_input_file("2147483648 5\n0\n"), Err(ParseError::Dimensions));
    assert_eq!(parse_input_file("5 5\n4294967296\n"), Err(ParseError::CellCount));
    let (_, board) = parse_input_file("2147483647 3\n1\n-2147483648 1\n").unwrap();
    assert_eq!(board.width(), 2147483647);
    assert_eq!(board, Board::new(2147483647, 3, &vec![(2147483646, 1)]));
}

#[test]
fn config_keeps_its_settings() {
    let config = Config::new(String::from("glider.txt"), 250);
    assert_eq!(config.filename(), "glider.txt");
    assert_eq!(config.sleepmillis(), 250);
}
