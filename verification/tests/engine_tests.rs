use life::testing_board;
use life::Board;

#[test]
fn test_next_generation() {
    assert!(testing_board(1).next_generation() == testing_board(2));
}

#[test]
fn test_parallel_next_generation() {
    assert!(testing_board(1).parallel_next_generation(4) == testing_board(2));
}

#[test]
fn test_successor() {
    let blinker = testing_board(1);
    assert!(blinker.successor(1, 0));
    assert!(!blinker.successor(0, 0));
    assert!(blinker.successor(1, 1));
    assert!(!blinker.successor(0, 1));
    assert!(blinker.successor_cell(4));
    assert!(!blinker.successor_cell(3));
}

#[test]
fn test_blinker_parallel() {
    let b1 = Board::from_str("...\n@@@\n...\n").unwrap();
    let expected = Board::from_str(".@.\n.@.\n.@.\n").unwrap();
    assert!(b1.next_generation() == expected);
    assert!(b1.parallel_next_generation(3) == expected);
}

#[test]
fn test_parallel_matches_sequential_for_every_hint() {
    let brd = Board::new(7, 9).random();
    let sequential = brd.next_generation();
    for hint in 0..=70 {
        assert!(brd.parallel_next_generation(hint) == sequential);
    }
}

#[test]
fn test_next_generation_deterministic() {
    let brd = Board::new(12, 8).random();
    assert!(brd.next_generation() == brd.next_generation());
}

#[test]
fn test_empty_board_generations() {
    let empty = Board::new(0, 5);
    assert!(empty.len() == 0);
    let next = empty.next_generation();
    assert!(next.len() == 0);
    assert!(empty.parallel_next_generation(3) == next);
}
