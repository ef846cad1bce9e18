//! Cost heuristics: admissible lower bounds on the number of moves still
//! needed to reach the goal from a given board.

use vstd::prelude::*;

verus! {

use crate::board::Board;
use crate::board::contains_label;
use crate::board::goal_seq;
use crate::board::idx_of;
use crate::board::lemma_coords_to_flat;
use crate::board::wf_grid;
use vstd::arithmetic::div_mod::lemma_fundamental_div_mod;

/// The goal cell (flat index) of the non-blank label `v`: on the goal grid
/// the tiles `1..=8` stand in order, so tile `v` belongs at index `v - 1`.
pub open spec fn goal_index(v: u8) -> int {
    v - 1
}

pub open spec fn abs_diff(a: int, b: int) -> int {
    if a >= b {
        a - b
    } else {
        b - a
    }
}

/// Grid distance between two flat indices: row distance plus column distance.
pub open spec fn grid_dist(i: int, j: int) -> int {
    abs_diff(i / 3, j / 3) + abs_diff(i % 3, j % 3)
}

/// How many of the labels `v..9` stand away from their goal cell. Counting
/// misplaced non-blank labels is, by the permutation invariant, the same as
/// counting grid positions whose label differs from the goal's label there,
/// the blank excluded.
pub open spec fn hamming_from(s: Seq<u8>, v: int) -> int
    decreases 9 - v,
{
    if 1 <= v < 9 {
        (if idx_of(s, v as u8) != goal_index(v as u8) {
            1int
        } else {
            0int
        }) + hamming_from(s, v + 1)
    } else {
        0
    }
}

/// The number of misplaced non-blank tiles.
pub open spec fn spec_hamming(s: Seq<u8>) -> int {
    hamming_from(s, 1)
}

/// The summed grid distance of the labels `v..9` to their goal cells.
pub open spec fn manhattan_from(s: Seq<u8>, v: int) -> int
    decreases 9 - v,
{
    if 1 <= v < 9 {
        grid_dist(idx_of(s, v as u8), goal_index(v as u8)) + manhattan_from(s, v + 1)
    } else {
        0
    }
}

/// The summed grid distance of every non-blank tile to its goal cell.
pub open spec fn spec_manhattan(s: Seq<u8>) -> int {
    manhattan_from(s, 1)
}

/// A heuristic function to estimate the cost of reaching the goal state
/// from a given board.
#[derive(Debug, Clone, Copy, PartialEq, Eq)]
pub enum Heuristic {
    /// The blind heuristic always returns 0.
    Blind,
    /// The Hamming heuristic, which counts the number of misplaced tiles.
    Hamming,
    /// The Manhattan heuristic, which computes the sum of the grid distances
    /// of each tile to its goal position.
    Manhattan,
}

impl Heuristic {
    /// What the estimate is, per strategy.
    pub open spec fn spec_estimate(self, s: Seq<u8>) -> int {
        match self {
            Heuristic::Blind => 0,
            Heuristic::Hamming => spec_hamming(s),
            Heuristic::Manhattan => spec_manhattan(s),
        }
    }

    /// Computes this heuristic's estimate for the given board.
    pub fn estimate(&self, board: &Board) -> (r: u32)
        requires
            board.wf(),
        ensures
            r as int == self.spec_estimate(board@),
    {
        match self {
            Heuristic::Blind => 0,
            Heuristic::Hamming => {
                let mut h: u32 = 0;
                let mut v: u8 = 1;
                while v < 9
                    invariant
                        board.wf(),
                        1 <= v <= 9,
                        h as int <= v - 1,
                        h as int + hamming_from(board@, v as int) == spec_hamming(board@),
                    decreases 9 - v,
                {
                    let (x, y) = board.position(v);
                    if 3 * x + y != (v as usize) - 1 {
                        h = h + 1;
                    }
                    v = v + 1;
                }
                h
            },
            Heuristic::Manhattan => {
                let mut m: u32 = 0;
                let mut v: u8 = 1;
                while v < 9
                    invariant
                        board.wf(),
                        1 <= v <= 9,
                        m as int <= 4 * (v - 1),
                        m as int + manhattan_from(board@, v as int) == spec_manhattan(board@),
                    decreases 9 - v,
                {
                    let (x, y) = board.position(v);
                    let gi = (v as usize) - 1;
                    let gx = gi / 3;
                    let gy = gi % 3;
                    proof {
                        lemma_coords_to_flat(x as int, y as int);
                        assert(grid_dist(idx_of(board@, v), goal_index(v)) == abs_diff(
                            x as int,
                            gx as int,
                        ) + abs_diff(y as int, gy as int));
                    }
                    let dx = if x >= gx {
                        x - gx
                    } else {
                        gx - x
                    };
                    let dy = if y >= gy {
                        y - gy
                    } else {
                        gy - y
                    };
                    m = m + (dx as u32) + (dy as u32);
                    v = v + 1;
                }
                m
            },
        }
    }
}

/// Heuristic dominance: on every board the Manhattan estimate is at least
/// the Hamming estimate, so under A* it never expands more states.
pub proof fn lemma_manhattan_dominates_hamming(b: Board)
    requires
        b.wf(),
    ensures
        spec_manhattan(b@) >= spec_hamming(b@),
{
    lemma_dominance_from(b@, 1);
}

proof fn lemma_dominance_from(s: Seq<u8>, v: int)
    requires
        wf_grid(s),
        1 <= v <= 9,
    ensures
        manhattan_from(s, v) >= hamming_from(s, v),
    decreases 9 - v,
{
    if v < 9 {
        lemma_dominance_from(s, v + 1);
        assert(contains_label(s, v as u8));
        let i = idx_of(s, v as u8);
        assert(0 <= i < 9 && s[i] == v as u8);
        let j = goal_index(v as u8);
        if i != j {
            lemma_fundamental_div_mod(i, 3);
            lemma_fundamental_div_mod(j, 3);
            assert(grid_dist(i, j) >= 1);
        } else {
            assert(grid_dist(i, j) == 0);
        }
    }
}

} // verus!
