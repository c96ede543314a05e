use life::testing_board;
use life::Board;
use life::BoardError;

#[test]
fn test_parse_glider_fragment() {
    let g = Board::from_str(".@.\n.@@\n.@@\n").unwrap();
    assert!(!g.cell_live(0, 0));
    assert!(g.cell_live(2, 2));
    assert!(g.living_neighbors(0, 0) == 2);
    assert!(g.living_neighbors(2, 2) == 3);
    assert!(g == testing_board(0));
}

#[test]
fn test_format_exact() {
    assert!(testing_board(0).to_text() == ".@.\n.@@\n.@@");
    assert!(testing_board(1).to_text() == "...\n@@@\n...");
}

#[test]
fn test_roundtrip_format_then_parse() {
    let brd = testing_board(1);
    assert!(Board::from_str(&brd.to_text()).unwrap() == brd);
    let tall = Board::from_str("@\n.\n@\n.\n").unwrap();
    assert!(Board::from_str(&tall.to_text()).unwrap() == tall);
}

#[test]
fn test_roundtrip_parse_then_format() {
    let text = ".@.\n.@@\n.@@";
    assert!(Board::from_str(text).unwrap().to_text() == text);
    let single = "@@..@";
    assert!(Board::from_str(single).unwrap().to_text() == single);
}

#[test]
fn test_parse_optional_trailing_terminator() {
    let with = Board::from_str(".@.\n.@.\n").unwrap();
    let without = Board::from_str(".@.\n.@.").unwrap();
    assert!(with == without);
}

#[test]
fn test_parse_ragged_lines() {
    assert!(Board::from_str("..\n...\n") == Err(BoardError::FormatError));
    assert!(Board::from_str("....\n..\n") == Err(BoardError::FormatError));
}

#[test]
fn test_parse_bad_character() {
    assert!(Board::from_str("x") == Err(BoardError::FormatError));
    assert!(Board::from_str(".@.\n.x.\n.@.\n") == Err(BoardError::FormatError));
}

#[test]
fn test_parse_empty() {
    let brd = Board::from_str("").unwrap();
    assert!(brd.len() == 0);
    assert!(brd.cells().len() == 0);
    assert!(brd.to_text() == "");
}
