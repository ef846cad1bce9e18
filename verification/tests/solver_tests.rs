use puzzle8::board::Board;
use puzzle8::board::Direction;
use puzzle8::heuristics::Heuristic;
use puzzle8::search::search;

/// Benchmark fixture: instances of the puzzle with known distance to the
/// goal state.
fn instances() -> Vec<(u32, Board)> {
    vec![
        (0, Board::new([[1, 2, 3], [4, 5, 6], [7, 8, 0]])),
        (1, Board::new([[1, 2, 3], [4, 5, 6], [7, 0, 8]])),
        (2, Board::new([[1, 2, 3], [4, 5, 6], [0, 7, 8]])),
        (3, Board::new([[1, 2, 3], [4, 8, 5], [7, 0, 6]])),
        (4, Board::new([[1, 5, 2], [4, 0, 3], [7, 8, 6]])),
        (5, Board::new([[4, 1, 3], [0, 2, 6], [7, 5, 8]])),
        (6, Board::new([[4, 1, 3], [7, 2, 6], [0, 5, 8]])),
        (7, Board::new([[5, 1, 3], [0, 2, 6], [4, 7, 8]])),
        (8, Board::new([[5, 4, 2], [1, 0, 3], [7, 8, 6]])),
        (9, Board::new([[8, 1, 3], [0, 2, 5], [4, 7, 6]])),
        (10, Board::new([[8, 1, 3], [4, 2, 5], [0, 7, 6]])),
        (11, Board::new([[8, 1, 3], [4, 2, 5], [7, 0, 6]])),
        (12, Board::new([[8, 4, 2], [1, 0, 3], [7, 6, 5]])),
        (13, Board::new([[8, 4, 3], [0, 1, 5], [2, 7, 6]])),
        (14, Board::new([[8, 7, 3], [2, 0, 5], [1, 4, 6]])),
        (15, Board::new([[8, 7, 3], [2, 5, 0], [1, 4, 6]])),
        (16, Board::new([[8, 7, 3], [4, 1, 5], [0, 2, 6]])),
        (17, Board::new([[8, 7, 3], [4, 1, 5], [2, 0, 6]])),
        (18, Board::new([[8, 7, 5], [3, 0, 2], [1, 4, 6]])),
        (19, Board::new([[8, 7, 5], [3, 4, 2], [1, 0, 6]])),
        (20, Board::new([[8, 7, 6], [2, 0, 3], [1, 4, 5]])),
        (21, Board::new([[8, 7, 6], [2, 4, 3], [1, 0, 5]])),
        (22, Board::new([[8, 7, 6], [4, 1, 2], [0, 5, 3]])),
        (23, Board::new([[8, 7, 6], [4, 1, 2], [5, 0, 3]])),
        (24, Board::new([[8, 7, 6], [5, 3, 1], [0, 2, 4]])),
        (25, Board::new([[8, 7, 6], [5, 4, 2], [1, 0, 3]])),
        (26, Board::new([[8, 7, 6], [5, 4, 2], [1, 3, 0]])),
        (27, Board::new([[8, 7, 6], [5, 4, 1], [3, 0, 2]])),
        (28, Board::new([[8, 7, 6], [5, 4, 3], [0, 2, 1]])),
        (29, Board::new([[8, 7, 6], [5, 4, 3], [2, 0, 1]])),
        (30, Board::new([[8, 7, 6], [5, 4, 3], [2, 1, 0]])),
        (31, Board::new([[8, 6, 7], [2, 5, 4], [3, 0, 1]])),
    ]
}

#[test]
fn test_heuristic() {
    let board = Board::new([[8, 7, 3], [2, 0, 5], [1, 4, 6]]);
    assert_eq!(Heuristic::Blind.estimate(&board), 0);
    assert_eq!(Heuristic::Hamming.estimate(&board), 7);
    assert_eq!(Heuristic::Manhattan.estimate(&board), 14);
}

#[test]
fn test_search() {
    // the search returns the optimal plan on the first 20 instances
    let insts = instances();
    for (expected_cost, init) in &insts[0..20] {
        let (path, _stats) = search(*init, &Heuristic::Blind);
        let path = path.expect("no plan");
        assert!(init.is_valid_plan(&path));
        assert_eq!(path.len(), *expected_cost as usize);
    }
}

#[test]
fn test_heuristics_admissible() {
    // no heuristic overestimates the known optimal distance
    for (cost, board) in &instances() {
        assert_eq!(Heuristic::Blind.estimate(board), 0);
        assert!(Heuristic::Hamming.estimate(board) <= *cost);
        assert!(Heuristic::Manhattan.estimate(board) <= *cost);
    }
}

#[test]
fn test_manhattan_dominates_hamming() {
    for (_cost, board) in &instances() {
        assert!(Heuristic::Manhattan.estimate(board) >= Heuristic::Hamming.estimate(board));
    }
}

#[test]
fn test_search_manhattan_optimal() {
    // the informed heuristic finds plans of exactly the known lengths, and
    // replaying each plan reaches the goal
    for (expected_cost, init) in &instances() {
        let (path, _stats) = search(*init, &Heuristic::Manhattan);
        let path = path.expect("no plan");
        assert!(init.is_valid_plan(&path));
        assert_eq!(path.len(), *expected_cost as usize);
    }
}

#[test]
fn test_single_move_scenario() {
    // the goal with tiles 8 and blank swapped: one move right solves it
    let board = Board::new([[1, 2, 3], [4, 5, 6], [7, 0, 8]]);
    assert_eq!(Heuristic::Hamming.estimate(&board), 1);
    assert_eq!(Heuristic::Manhattan.estimate(&board), 1);
    for h in [Heuristic::Blind, Heuristic::Hamming, Heuristic::Manhattan] {
        let (path, _stats) = search(board, &h);
        let path = path.expect("no plan");
        assert_eq!(path, vec![Direction::Right]);
    }
    assert_eq!(board.apply(Direction::Right), Some(Board::goal()));
}

#[test]
fn test_start_is_goal() {
    // the engine finalizes exactly one state and returns the empty plan
    let (path, stats) = search(Board::goal(), &Heuristic::Manhattan);
    assert_eq!(path, Some(vec![]));
    assert_eq!(stats.expanded, 1);
}

#[test]
fn test_unreachable_start() {
    // two swapped tiles put the start in the other permutation class, from
    // which the goal cannot be reached
    let board = Board::new([[2, 1, 3], [4, 5, 6], [7, 8, 0]]);
    let (path, _stats) = search(board, &Heuristic::Manhattan);
    assert_eq!(path, None);
}
