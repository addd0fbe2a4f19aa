use gameoflifer::{Board, Pos};
use std::cell::RefCell;

fn sorted_cells(board: &Board) -> Vec<Pos> {
    let seen = RefCell::new(Vec::new());
    board.walk(|p| seen.borrow_mut().push(p));
    let mut cells = seen.into_inner();
    cells.sort();
    cells
}

fn sorted(mut cells: Vec<Pos>) -> Vec<Pos> {
    cells.sort();
    cells
}

#[test]
fn test_board_next_gen() {
    let w = 5;
    let h = 5;
    let tests = vec![
        (
            Board::new(w, h, &vec![(4, 2), (2, 3), (4, 3), (3, 4), (4, 4)]),
            Board::new(w, h, &vec![(4, 3), (3, 4), (4, 4), (3, 2), (5, 3)]),
        ),
        (
            Board::new(w, h, &vec![(5, 4), (4, 5), (5, 5), (1, 4), (4, 3)]),
            Board::new(w, h, &vec![(4, 5), (5, 5), (1, 4), (1, 5), (5, 3)]),
        ),
        (
            Board::new(w, h, &vec![(4, 5), (5, 5), (1, 4), (1, 5), (5, 3)]),
            Board::new(w, h, &vec![(5, 5), (1, 4), (1, 5), (4, 4), (5, 1)]),
        ),
    ];
    for (board, expect) in tests {
        assert_eq!(board.next_gen(), expect);
    }
}

#[test]
fn empty_board_stays_extinct() {
    let mut board = Board::new(6, 4, &vec![]);
    assert!(board.is_extinct());
    for _ in 0..5 {
        board = board.next_gen();
        assert!(board.is_extinct());
        assert_eq!(board.width(), 6);
        assert_eq!(board.height(), 4);
    }
}

#[test]
fn lone_cell_dies_out() {
    let board = Board::new(5, 5, &vec![(3, 3)]);
    assert!(!board.is_extinct());
    let next = board.next_gen();
    assert!(next.is_extinct());
}

#[test]
fn wrap_keeps_positions_on_the_grid() {
    let board = Board::new(7, 4, &vec![]);
    for x in 1..=7 {
        for y in 1..=4 {
            assert_eq!(board.wrap((x, y)), (x, y));
        }
    }
}

#[test]
fn wrap_is_periodic() {
    let board = Board::new(5, 3, &vec![]);
    for k in -3..=3 {
        assert_eq!(board.wrap((2 + k * 5, 2)), board.wrap((2, 2)));
        assert_eq!(board.wrap((4, 1 + k * 3)), board.wrap((4, 1)));
    }
    assert_eq!(board.wrap((0, 0)), (5, 3));
    assert_eq!(board.wrap((6, 4)), (1, 1));
    assert_eq!(board.wrap((-1, -4)), (4, 2));
    assert_eq!(board.wrap((i32::MIN, i32::MAX)), (2, 1));
}

#[test]
fn neighbours_are_eight_wrapped_positions() {
    let board = Board::new(5, 5, &vec![]);
    assert_eq!(
        board.neighbs(&(1, 1)),
        vec![(5, 5), (1, 5), (2, 5), (5, 1), (2, 1), (5, 2), (1, 2), (2, 2)]
    );
    assert_eq!(board.neighbs(&(3, 3)).len(), 8);
}

#[test]
fn neighbours_repeat_on_a_narrow_grid() {
    let board = Board::new(2, 1, &vec![]);
    let ns = board.neighbs(&(1, 1));
    assert_eq!(ns.len(), 8);
    assert_eq!(ns, vec![(2, 1), (1, 1), (2, 1), (2, 1), (2, 1), (2, 1), (1, 1), (2, 1)]);
}

#[test]
fn block_is_a_still_life() {
    for (w, h) in [(4, 4), (6, 5), (9, 12)] {
        let block = vec![(2, 2), (3, 2), (2, 3), (3, 3)];
        let board = Board::new(w, h, &block);
        let next = board.next_gen();
        assert_eq!(sorted_cells(&next), sorted(block.clone()));
        assert_eq!(next.width(), w);
        assert_eq!(next.height(), h);
    }
}

#[test]
fn blinker_has_period_two() {
    let horizontal = vec![(2, 3), (3, 3), (4, 3)];
    let vertical = vec![(3, 2), (3, 3), (3, 4)];
    let board = Board::new(5, 5, &horizontal);
    let one = board.next_gen();
    assert_eq!(sorted_cells(&one), sorted(vertical.clone()));
    let two = one.next_gen();
    assert_eq!(sorted_cells(&two), sorted(horizontal.clone()));
    let three = two.next_gen();
    assert_eq!(sorted_cells(&three), sorted(vertical));
}

#[test]
fn glider_moves_on_the_torus() {
    let board = Board::new(5, 5, &vec![(4, 2), (2, 3), (4, 3), (3, 4), (4, 4)]);
    let next = board.next_gen();
    assert_eq!(sorted_cells(&next), sorted(vec![(4, 3), (3, 4), (4, 4), (3, 2), (5, 3)]));
}

#[test]
fn new_wraps_and_dedups_cells() {
    let board = Board::new(5, 5, &vec![(6, 0), (1, 5), (-4, 10), (2, 2)]);
    assert_eq!(board, Board::new(5, 5, &vec![(1, 5), (2, 2)]));
    assert_eq!(sorted_cells(&board), vec![(1, 5), (2, 2)]);
}

#[test]
fn walk_visits_each_cell_in_order() {
    let board = Board::new(8, 8, &vec![(3, 1), (1, 2), (8, 8)]);
    let seen = RefCell::new(Vec::new());
    board.walk(|p| seen.borrow_mut().push(p));
    assert_eq!(seen.into_inner(), vec![(3, 1), (1, 2), (8, 8)]);
}

#[test]
fn births_come_after_survivors_in_position_order() {
    let board = Board::new(6, 6, &vec![(3, 2), (3, 3), (3, 4)]);
    let next = board.next_gen();
    assert_eq!(next, Board::new(6, 6, &vec![(3, 3), (2, 3), (4, 3)]));
}

#[test]
fn block_across_the_corner_is_a_still_life() {
    let block = vec![(4, 4), (1, 4), (4, 1), (1, 1)];
    let board = Board::new(4, 4, &block);
    assert_eq!(sorted_cells(&board.next_gen()), sorted(block));
}

#[test]
fn blinker_across_the_edge_turns() {
    let row = vec![(5, 1), (1, 1), (2, 1)];
    let column = vec![(1, 5), (1, 1), (1, 2)];
    let board = Board::new(5, 6, &row);
    let one = board.next_gen();
    assert_eq!(sorted_cells(&one), sorted(vec![(1, 6), (1, 1), (1, 2)]));
    let board = Board::new(5, 5, &row);
    let one = board.next_gen();
    assert_eq!(sorted_cells(&one), sorted(column));
    assert_eq!(sorted_cells(&one.next_gen()), sorted(row));
}
