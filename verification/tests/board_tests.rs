use life::testing_board;
use life::Board;
use life::BoardError;

#[test]
fn test_cell_live() {
    let brd = testing_board(0);
    assert!(!brd.cell_live(0, 0));
    assert!(brd.cell_live(2, 2));
}

#[test]
fn test_live_count() {
    let brd = testing_board(0);
    assert!(brd.living_neighbors(0, 0) == 2);
    assert!(brd.living_neighbors(2, 2) == 3);
}

#[test]
fn test_new_all_dead() {
    let brd = Board::new(4, 5);
    assert!(brd.len() == 20);
    for (_, _, alive) in brd.cells() {
        assert!(!alive);
    }
}

#[test]
fn test_cell_live_out_of_range() {
    let brd = testing_board(0);
    assert!(!brd.cell_live(3, 0));
    assert!(!brd.cell_live(0, 3));
    assert!(!brd.cell_live(100, 100));
}

#[test]
fn test_neighbors_bounded() {
    let brd = Board::from_str("@@@\n@@@\n@@@\n").unwrap();
    assert!(brd.living_neighbors(1, 1) == 8);
    assert!(brd.living_neighbors(0, 0) == 3);
    for y in 0..3 {
        for x in 0..3 {
            assert!(brd.living_neighbors(x, y) <= 8);
        }
    }
}

#[test]
fn test_toggle_flips_one() {
    let brd = testing_board(0);
    let toggled = brd.toggle(0, 0).unwrap();
    assert!(toggled.cell_live(0, 0));
    for (x, y, alive) in toggled.cells() {
        if (x, y) == (0, 0) {
            assert!(alive != brd.cell_live(x, y));
        } else {
            assert!(alive == brd.cell_live(x, y));
        }
    }
}

#[test]
fn test_toggle_twice_restores() {
    let brd = testing_board(0);
    let back = brd.toggle(1, 2).unwrap().toggle(1, 2).unwrap();
    assert!(back == brd);
}

#[test]
fn test_toggle_out_of_range() {
    let brd = testing_board(0);
    assert!(brd.toggle(3, 1) == Err(BoardError::OutOfRange));
    assert!(brd.toggle(1, 3) == Err(BoardError::OutOfRange));
    assert!(brd.toggle(2, 2).is_ok());
}

#[test]
fn test_clear_all_dead() {
    let brd = Board::new(6, 4).random();
    let cleared = brd.clear();
    assert!(cleared.len() == 24);
    for (x, y, alive) in cleared.cells() {
        assert!(!alive);
        assert!(!cleared.cell_live(x, y));
    }
}

#[test]
fn test_equals() {
    assert!(testing_board(0) == testing_board(0));
    assert!(testing_board(0) != testing_board(1));
    assert!(Board::new(2, 3) != Board::new(3, 2));
}

#[test]
fn test_cells_row_major() {
    let brd = testing_board(0);
    let triples = brd.cells();
    assert!(triples.len() == 9);
    assert!(triples[0] == (0, 0, false));
    assert!(triples[1] == (1, 0, true));
    assert!(triples[5] == (2, 1, true));
    assert!(triples[8] == (2, 2, true));
}

#[test]
fn test_random_differs() {
    let dead = Board::new(10, 10);
    let r1 = dead.random();
    let r2 = dead.random();
    assert!(r1.len() == 100);
    assert!(r2.len() == 100);
    assert!(r1 != dead);
    assert!(r2 != dead);
    assert!(r1 != r2);
}
