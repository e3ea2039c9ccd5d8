use game_of_life::board::GameBoard;
use game_of_life::engine::get_next_generation;

fn sorted(mut v: Vec<(i32, i32)>) -> Vec<(i32, i32)> {
    v.sort();
    v
}

#[test]
fn empty_board_stays_empty() {
    let b = GameBoard::new(4, 9, Vec::new());
    let next = get_next_generation(&b);
    assert!(next.board.is_empty());
    assert_eq!(next.max_x, 4);
    assert_eq!(next.max_y, 9);
}

#[test]
fn block_is_a_still_life() {
    let block = vec![(0, 0), (1, 0), (0, 1), (1, 1)];
    let b = GameBoard::new(3, 3, block.clone());
    let next = get_next_generation(&b);
    assert_eq!(sorted(next.board), sorted(block));
}

#[test]
fn blinker_oscillates() {
    let horizontal = vec![(1, 0), (2, 0), (3, 0)];
    let b = GameBoard::new(5, 2, horizontal.clone());
    let next = get_next_generation(&b);
    assert_eq!(sorted(next.board.clone()), sorted(vec![(2, -1), (2, 0), (2, 1)]));
    let back = get_next_generation(&next);
    assert_eq!(sorted(back.board), sorted(horizontal));
}

#[test]
fn isolated_cell_dies() {
    let b = GameBoard::new(6, 6, vec![(5, 5)]);
    let next = get_next_generation(&b);
    assert!(next.board.is_empty());
}

#[test]
fn l_shape_births_a_block() {
    let b = GameBoard::new(2, 2, vec![(0, 0), (1, 0), (0, 1)]);
    let next = get_next_generation(&b);
    assert_eq!(sorted(next.board), sorted(vec![(0, 0), (1, 0), (0, 1), (1, 1)]));
}

#[test]
fn hint_grows_over_births() {
    let b = GameBoard::new(0, 0, vec![(0, 0), (1, 0), (0, 1)]);
    let next = get_next_generation(&b);
    assert_eq!(next.max_x, 1);
    assert_eq!(next.max_y, 1);
}

#[test]
fn hints_never_shrink() {
    let seed = vec![(2, 2), (3, 2), (4, 2), (1, 3), (2, 3), (3, 3)];
    let mut b = GameBoard::new(6, 6, seed);
    for _ in 0..10 {
        let next = get_next_generation(&b);
        assert!(next.max_x >= b.max_x);
        assert!(next.max_y >= b.max_y);
        b = next;
    }
}

#[test]
fn order_independence() {
    let one_order = vec![(1, 0), (2, 0), (3, 0), (2, 2), (3, 2)];
    let other_order = vec![(3, 2), (2, 0), (2, 2), (1, 0), (3, 0)];
    let a = GameBoard::new(5, 5, one_order);
    let b = GameBoard::new(5, 5, other_order);
    let next_a = get_next_generation(&a);
    let next_b = get_next_generation(&b);
    assert_eq!(sorted(next_a.board), sorted(next_b.board));
}

#[test]
fn negative_coordinates_are_simulated() {
    let b = GameBoard::new(0, 0, vec![(-3, -3), (-2, -3), (-1, -3)]);
    let next = get_next_generation(&b);
    assert_eq!(sorted(next.board), sorted(vec![(-2, -4), (-2, -3), (-2, -2)]));
    assert_eq!(next.max_x, 0);
    assert_eq!(next.max_y, 0);
}

#[test]
fn constructor_drops_duplicates() {
    let b = GameBoard::new(3, 3, vec![(1, 1), (1, 1), (2, 1), (1, 1)]);
    assert_eq!(sorted(b.board), vec![(1, 1), (2, 1)]);
}

#[test]
fn contains_cell_reports_membership() {
    let b = GameBoard::new(3, 3, vec![(0, 2), (-1, 5)]);
    assert!(b.contains_cell((0, 2)));
    assert!(b.contains_cell((-1, 5)));
    assert!(!b.contains_cell((2, 0)));
    assert!(!b.contains_cell((5, -1)));
}

#[test]
fn coordinate_range_check() {
    let fine = GameBoard::new(3, 3, vec![(i32::MIN + 1, 0), (i32::MAX - 1, 7)]);
    assert!(fine.check_coords_in_range());
    let edge = GameBoard::new(3, 3, vec![(0, 0), (i32::MAX, 7)]);
    assert!(!edge.check_coords_in_range());
    let low_edge = GameBoard::new(3, 3, vec![(0, i32::MIN)]);
    assert!(!low_edge.check_coords_in_range());
}
