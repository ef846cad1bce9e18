//! A solver for the 3x3 sliding-tile puzzle (the "8-puzzle").
//!
//! The crate models the board as a permutation of the labels `0..9` (with `0`
//! for the blank), offers admissible cost heuristics, a generic min-priority
//! queue, and an A* search engine that returns a move sequence which provably
//! replays from the start state to the goal state, or reports that the goal
//! is unreachable.

pub mod board;
pub mod heuristics;
pub mod min_heap;
pub mod search;
