use puzzle8::board::Board;
use puzzle8::board::Direction;
use puzzle8::board::EMPTY_CELL;

#[test]
fn test_position() {
    // create a new board
    let board = Board::new([[1, 2, 3], [4, 5, 6], [0, 7, 8]]);
    // check that the empty cell is at the expected position
    assert_eq!(board.position(EMPTY_CELL), (2, 0));
    assert_eq!(board.value_at(2, 0), EMPTY_CELL);

    assert_eq!(board.value_at(1, 1), 5);
    assert_eq!(board.value_at(2, 2), 8);
    assert_eq!(board.position(3), (0, 2));
    assert_eq!(board.position(5), (1, 1));
}

#[test]
fn test_apply() {
    let board = Board::new([[1, 2, 3], [4, 5, 6], [0, 7, 8]]);
    assert_eq!(
        board.apply(Direction::Up),
        Some(Board::new([[1, 2, 3], [0, 5, 6], [4, 7, 8]]))
    );
    // the `board` binding is not modified by the apply method
    assert_eq!(
        board.apply(Direction::Right),
        Some(Board::new([[1, 2, 3], [4, 5, 6], [7, 0, 8]]))
    );
    // moving the empty cell out of the board is rejected
    assert_eq!(board.apply(Direction::Left), None);
}

#[test]
fn test_plan() {
    let board = Board::new([[1, 2, 3], [4, 5, 6], [0, 7, 8]]);

    // a valid optimal plan
    assert!(board.is_valid_plan(&[Direction::Right, Direction::Right]));

    // a valid suboptimal plan
    assert!(board.is_valid_plan(&[
        Direction::Right,
        Direction::Up,
        Direction::Down,
        Direction::Right
    ]));

    // invalid plan (does not end in the goal state)
    assert!(!board.is_valid_plan(&[
        Direction::Right,
        Direction::Up,
        Direction::Down,
        Direction::Right,
        Direction::Up
    ]));
    // invalid plan (moves the empty cell out of the board)
    assert!(!board.is_valid_plan(&[Direction::Left]));
}

#[test]
fn test_apply_keeps_permutation() {
    // every board a move produces still holds each label exactly once
    let board = Board::new([[4, 1, 3], [0, 2, 6], [7, 5, 8]]);
    assert!(board.is_well_formed());
    let dirs = [
        Direction::Up,
        Direction::Down,
        Direction::Left,
        Direction::Right,
    ];
    for d in dirs {
        if let Some(next) = board.apply(d) {
            assert!(next.is_well_formed());
        }
    }
}

#[test]
fn test_move_reversibility_concrete() {
    // a successful move is undone exactly by its opposite
    let board = Board::new([[8, 7, 3], [2, 0, 5], [1, 4, 6]]);
    let dirs = [
        Direction::Up,
        Direction::Down,
        Direction::Left,
        Direction::Right,
    ];
    for d in dirs {
        if let Some(next) = board.apply(d) {
            assert_eq!(next.apply(d.opposite()), Some(board));
        }
    }
}

#[test]
fn test_malformed_board_detected() {
    // a duplicated label breaks the permutation invariant
    let board = Board::new([[1, 1, 3], [4, 5, 6], [7, 8, 0]]);
    assert!(!board.is_well_formed());
    // a label out of range breaks it too
    let board = Board::new([[1, 2, 3], [4, 5, 6], [7, 8, 9]]);
    assert!(!board.is_well_formed());
    // the goal itself is well-formed
    assert!(Board::goal().is_well_formed());
    assert!(Board::goal().is_goal());
}
