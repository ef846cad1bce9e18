//! The board model: a 3x3 grid of distinct labels `0..9`, where `0` is the
//! blank, together with the four blank moves and their specification.

use vstd::prelude::*;

verus! {

use vstd::arithmetic::div_mod::lemma_fundamental_div_mod;
use vstd::arithmetic::div_mod::lemma_fundamental_div_mod_converse;

/// Width of the square board.
pub const N: usize = 3;

/// A cell's label: a number below the cell count, with `0` marking the blank.
pub type Cell = u8;

/// The label of the blank cell.
pub const EMPTY_CELL: Cell = 0;

/// The goal configuration in row-major order: tiles `1..=8`, blank last.
pub open spec fn goal_seq() -> Seq<u8> {
    seq![1u8, 2u8, 3u8, 4u8, 5u8, 6u8, 7u8, 8u8, 0u8]
}

/// The label `v` occurs somewhere on the grid `s`.
pub open spec fn contains_label(s: Seq<u8>, v: u8) -> bool {
    exists|i: int| 0 <= i < 9 && s[i] == v
}

/// Well-formedness of a grid: nine cells holding each label in `0..9`
/// exactly once (the permutation invariant).
pub open spec fn wf_grid(s: Seq<u8>) -> bool {
    &&& s.len() == 9
    &&& forall|i: int| 0 <= i < 9 ==> s[i] < 9
    &&& forall|i: int, j: int| 0 <= i < j < 9 ==> s[i] != s[j]
    &&& forall|v: u8| v < 9 ==> #[trigger] contains_label(s, v)
}

/// The unique index of label `v` on a well-formed grid.
pub open spec fn idx_of(s: Seq<u8>, v: u8) -> int {
    choose|i: int| 0 <= i < 9 && s[i] == v
}

/// The grid with the cells at `a` and `b` exchanged.
pub open spec fn swap_cells(s: Seq<u8>, a: int, b: int) -> Seq<u8> {
    s.update(a, s[b]).update(b, s[a])
}

/// On a well-formed grid, `idx_of` returns the one index that holds `v`.
pub proof fn lemma_idx_of_unique(s: Seq<u8>, v: u8, i: int)
    requires
        wf_grid(s),
        0 <= i < 9,
        s[i] == v,
    ensures
        idx_of(s, v) == i,
        s[idx_of(s, v)] == v,
{
    assert(contains_label(s, v));
    let k = idx_of(s, v);
    assert(0 <= k < 9 && s[k] == v);
    if k != i {
        if k < i {
            assert(s[k] != s[i]);
        } else {
            assert(s[i] != s[k]);
        }
    }
}

/// Flat index arithmetic: row and column of a flat index below 9.
pub proof fn lemma_flat_to_coords(i: int)
    requires
        0 <= i < 9,
    ensures
        0 <= i / 3 < 3,
        0 <= i % 3 < 3,
        3 * (i / 3) + i % 3 == i,
{
    lemma_fundamental_div_mod(i, 3);
}

/// Flat index arithmetic: the flat index of a row/column pair below 3.
pub proof fn lemma_coords_to_flat(x: int, y: int)
    requires
        0 <= x < 3,
        0 <= y < 3,
    ensures
        (3 * x + y) / 3 == x,
        (3 * x + y) % 3 == y,
{
    lemma_fundamental_div_mod_converse(3 * x + y, 3, x, y);
}

/// One of the four moves of the blank cell.
#[derive(Clone, Copy, Debug, PartialEq, Eq, Structural)]
pub enum Direction {
    Up,
    Down,
    Left,
    Right,
}

impl Direction {
    /// The direction that undoes this one.
    pub open spec fn opposite_spec(self) -> Direction {
        match self {
            Direction::Up => Direction::Down,
            Direction::Down => Direction::Up,
            Direction::Left => Direction::Right,
            Direction::Right => Direction::Left,
        }
    }

    /// Returns the opposite direction of the current one.
    pub fn opposite(&self) -> (r: Direction)
        ensures
            r == self.opposite_spec(),
    {
        match self {
            Direction::Up => Direction::Down,
            Direction::Down => Direction::Up,
            Direction::Left => Direction::Right,
            Direction::Right => Direction::Left,
        }
    }
}

/// Where the blank would go under move `d` on grid `s`, as a flat index,
/// or `None` when the move would leave the board.
pub open spec fn move_target(s: Seq<u8>, d: Direction) -> Option<int> {
    let b = idx_of(s, 0);
    match d {
        Direction::Up => if b >= 3 { Some(b - 3) } else { None },
        Direction::Down => if b < 6 { Some(b + 3) } else { None },
        Direction::Left => if b % 3 > 0 { Some(b - 1) } else { None },
        Direction::Right => if b % 3 < 2 { Some(b + 1) } else { None },
    }
}

/// The grid after moving the blank in direction `d`, or `None` when the
/// move is not applicable.
pub open spec fn spec_move(s: Seq<u8>, d: Direction) -> Option<Seq<u8>> {
    match move_target(s, d) {
        Some(t) => Some(swap_cells(s, idx_of(s, 0), t)),
        None => None,
    }
}

/// The grid reached by playing `moves` from `s` in order, or `None` as soon
/// as one move is not applicable.
pub open spec fn replay(s: Seq<u8>, moves: Seq<Direction>) -> Option<Seq<u8>>
    decreases moves.len(),
{
    if moves.len() == 0 {
        Some(s)
    } else {
        match spec_move(s, moves[0]) {
            Some(t) => replay(t, moves.drop_first()),
            None => None,
        }
    }
}

/// The grid reached by playing `moves` from `s`, where a move that is not
/// applicable leaves the grid unchanged.
pub open spec fn lenient_replay(s: Seq<u8>, moves: Seq<Direction>) -> Seq<u8>
    decreases moves.len(),
{
    if moves.len() == 0 {
        s
    } else {
        match spec_move(s, moves[0]) {
            Some(t) => lenient_replay(t, moves.drop_first()),
            None => lenient_replay(s, moves.drop_first()),
        }
    }
}

/// Exchanging two cells keeps the grid a permutation of `0..9`.
pub proof fn lemma_swap_preserves_wf(s: Seq<u8>, a: int, b: int)
    requires
        wf_grid(s),
        0 <= a < 9,
        0 <= b < 9,
    ensures
        wf_grid(swap_cells(s, a, b)),
{
    let t = swap_cells(s, a, b);
    assert forall|v: u8| v < 9 implies #[trigger] contains_label(t, v) by {
        assert(contains_label(s, v));
        let i = choose|i: int| 0 <= i < 9 && s[i] == v;
        if i == a {
            assert(t[b] == v);
        } else if i == b {
            assert(t[a] == v);
        } else {
            assert(t[i] == v);
        }
    }
}

/// The goal grid is well-formed.
pub proof fn lemma_goal_wf()
    ensures
        wf_grid(goal_seq()),
{
    let g = goal_seq();
    assert(contains_label(g, 0u8)) by { assert(g[8] == 0u8); }
    assert(contains_label(g, 1u8)) by { assert(g[0] == 1u8); }
    assert(contains_label(g, 2u8)) by { assert(g[1] == 2u8); }
    assert(contains_label(g, 3u8)) by { assert(g[2] == 3u8); }
    assert(contains_label(g, 4u8)) by { assert(g[3] == 4u8); }
    assert(contains_label(g, 5u8)) by { assert(g[4] == 5u8); }
    assert(contains_label(g, 6u8)) by { assert(g[5] == 6u8); }
    assert(contains_label(g, 7u8)) by { assert(g[6] == 7u8); }
    assert(contains_label(g, 8u8)) by { assert(g[7] == 8u8); }
    assert(forall|v: u8| v < 9 ==> #[trigger] contains_label(g, v));
}

/// The permutation invariant, stated over the labels themselves: a
/// well-formed grid carries exactly the same multiset of labels as the
/// goal. Every board `apply` produces is well-formed, so this holds of
/// every reachable state.
pub proof fn lemma_wf_labels_match_goal(s: Seq<u8>)
    requires
        wf_grid(s),
    ensures
        s.to_multiset() == goal_seq().to_multiset(),
{
    broadcast use vstd::seq_lib::group_to_multiset_ensures;

    let g = goal_seq();
    lemma_goal_wf();
    s.lemma_multiset_has_no_duplicates();
    g.lemma_multiset_has_no_duplicates();
    assert forall|e: u8| #[trigger] s.to_multiset().count(e) == g.to_multiset().count(e) by {
        if e < 9 {
            assert(contains_label(s, e) && contains_label(g, e));
            assert(s.contains(e) && g.contains(e));
            assert(s.to_multiset().count(e) == 1 && g.to_multiset().count(e) == 1);
        } else {
            assert(!s.contains(e) && !g.contains(e));
            assert(s.to_multiset().count(e) == 0 && g.to_multiset().count(e) == 0);
        }
    }
    assert(s.to_multiset() =~= g.to_multiset());
}

/// Move reversibility: a move that succeeds is undone exactly by its
/// opposite direction.
pub proof fn lemma_move_reversibility(s: Seq<u8>, d: Direction)
    requires
        wf_grid(s),
        spec_move(s, d) is Some,
    ensures
        wf_grid(spec_move(s, d).unwrap()),
        spec_move(spec_move(s, d).unwrap(), d.opposite_spec()) == Some(s),
{
    assert(contains_label(s, 0u8));
    let b = idx_of(s, 0);
    assert(0 <= b < 9 && s[b] == 0u8);
    let tgt = move_target(s, d).unwrap();
    let t = swap_cells(s, b, tgt);
    lemma_swap_preserves_wf(s, b, tgt);
    lemma_fundamental_div_mod(b, 3);
    assert(t[tgt] == 0u8);
    lemma_idx_of_unique(t, 0u8, tgt);
    match d {
        Direction::Up => {
            assert(move_target(t, Direction::Down) == Some(b));
        },
        Direction::Down => {
            assert(move_target(t, Direction::Up) == Some(b));
        },
        Direction::Left => {
            lemma_fundamental_div_mod_converse(b - 1, 3, b / 3, b % 3 - 1);
            assert(move_target(t, Direction::Right) == Some(b));
        },
        Direction::Right => {
            lemma_fundamental_div_mod_converse(b + 1, 3, b / 3, b % 3 + 1);
            assert(move_target(t, Direction::Left) == Some(b));
        },
    }
    assert(swap_cells(t, tgt, b) =~= s);
}

/// A strictly valid move sequence is also valid under the lenient reading
/// that skips inapplicable moves: both end on the same grid.
pub proof fn lemma_replay_lenient(s: Seq<u8>, moves: Seq<Direction>)
    requires
        replay(s, moves) is Some,
    ensures
        lenient_replay(s, moves) == replay(s, moves).unwrap(),
    decreases moves.len(),
{
    if moves.len() > 0 {
        lemma_replay_lenient(spec_move(s, moves[0]).unwrap(), moves.drop_first());
    }
}

/// Sixteen to the power `k`.
pub(crate) open spec fn pow16(k: int) -> int
    decreases k,
{
    if k <= 0 {
        1
    } else {
        16 * pow16(k - 1)
    }
}

pub(crate) proof fn lemma_pow16_mono(j: int, k: int)
    requires
        0 <= j <= k,
    ensures
        1 <= pow16(j) <= pow16(k),
    decreases k - j,
{
    if j < k {
        lemma_pow16_mono(j, k - 1);
    } else {
        lemma_pow16_mono_base(j);
    }
}

pub(crate) proof fn lemma_pow16_mono_base(j: int)
    requires
        0 <= j,
    ensures
        1 <= pow16(j),
    decreases j,
{
    if j > 0 {
        lemma_pow16_mono_base(j - 1);
    }
}

/// The grid packed into one integer, sixteen digits a cell, from cell `i` on.
pub(crate) open spec fn code_of(s: Seq<u8>, i: int) -> int
    decreases 9 - i,
{
    if 0 <= i < 9 {
        s[i] + 16 * code_of(s, i + 1)
    } else {
        0
    }
}

pub(crate) proof fn lemma_code_bounds(s: Seq<u8>, i: int)
    requires
        forall|k: int| 0 <= k < 9 ==> s[k] < 16,
        0 <= i <= 9,
    ensures
        0 <= code_of(s, i) < pow16(9 - i),
    decreases 9 - i,
{
    if i < 9 {
        lemma_code_bounds(s, i + 1);
    }
}

/// Equal codes come only from equal digits.
pub(crate) proof fn lemma_code_digits(a: Seq<u8>, b: Seq<u8>, i: int)
    requires
        forall|k: int| 0 <= k < 9 ==> a[k] < 16,
        forall|k: int| 0 <= k < 9 ==> b[k] < 16,
        0 <= i <= 9,
        code_of(a, i) == code_of(b, i),
    ensures
        forall|j: int| i <= j < 9 ==> a[j] == b[j],
    decreases 9 - i,
{
    if i < 9 {
        lemma_code_bounds(a, i + 1);
        lemma_code_bounds(b, i + 1);
        let x = code_of(a, i);
        lemma_fundamental_div_mod_converse(x, 16, code_of(a, i + 1), a[i] as int);
        lemma_fundamental_div_mod_converse(x, 16, code_of(b, i + 1), b[i] as int);
        lemma_code_digits(a, b, i + 1);
    }
}

/// A board: an immutable 3x3 grid of distinct labels, one of them the blank.
/// Its view is the sequence of labels in row-major order.
#[derive(Clone, Copy, PartialEq, Eq, PartialOrd, Ord, Hash, Debug)]
pub struct Board {
    cells: [Cell; 9],
}

impl View for Board {
    type V = Seq<u8>;

    closed spec fn view(&self) -> Seq<u8> {
        self.cells@
    }
}

impl Board {
    /// The permutation invariant, which every reachable state keeps.
    pub open spec fn wf(self) -> bool {
        wf_grid(self@)
    }

    /// Builds a board from rows of cells. The rows may hold any labels;
    /// `is_well_formed` tells whether they form a valid puzzle state.
    pub fn new(cells: [[Cell; N]; N]) -> (r: Board)
        ensures
            forall|i: int, j: int| 0 <= i < 3 && 0 <= j < 3 ==> r@[3 * i + j] == cells[i][j],
    {
        let flat: [Cell; 9] = [
            cells[0][0],
            cells[0][1],
            cells[0][2],
            cells[1][0],
            cells[1][1],
            cells[1][2],
            cells[2][0],
            cells[2][1],
            cells[2][2],
        ];
        Board { cells: flat }
    }

    /// The goal board: tiles `1..=8` in order, blank in the last cell.
    pub fn goal() -> (r: Board)
        ensures
            r@ == goal_seq(),
            r.wf(),
    {
        let b = Board { cells: [1, 2, 3, 4, 5, 6, 7, 8, 0] };
        proof {
            assert(b@ =~= goal_seq());
            assert(contains_label(b@, 0u8)) by { assert(b@[8] == 0u8); }
            assert(contains_label(b@, 1u8)) by { assert(b@[0] == 1u8); }
            assert(contains_label(b@, 2u8)) by { assert(b@[1] == 2u8); }
            assert(contains_label(b@, 3u8)) by { assert(b@[2] == 3u8); }
            assert(contains_label(b@, 4u8)) by { assert(b@[3] == 4u8); }
            assert(contains_label(b@, 5u8)) by { assert(b@[4] == 5u8); }
            assert(contains_label(b@, 6u8)) by { assert(b@[5] == 6u8); }
            assert(contains_label(b@, 7u8)) by { assert(b@[6] == 7u8); }
            assert(contains_label(b@, 8u8)) by { assert(b@[7] == 8u8); }
            assert(forall|v: u8| v < 9 ==> #[trigger] contains_label(b@, v));
        }
        b
    }

    /// Returns the value of the cell at the given position.
    pub fn value_at(&self, line: usize, column: usize) -> (r: Cell)
        requires
            line < 3,
            column < 3,
        ensures
            r == self@[3 * line + column],
    {
        self.cells[3 * line + column]
    }

    /// Decides the permutation invariant: each label in `0..9` occurs
    /// exactly once on the board.
    pub fn is_well_formed(&self) -> (r: bool)
        ensures
            r == self.wf(),
    {
        let mut i: usize = 0;
        while i < 9
            invariant
                i <= 9,
                forall|k: int| 0 <= k < i ==> self@[k] < 9,
            decreases 9 - i,
        {
            if self.cells[i] >= 9 {
                return false;
            }
            i = i + 1;
        }
        let mut a: usize = 0;
        while a < 9
            invariant
                a <= 9,
                forall|k: int, l: int| 0 <= k < l < 9 && k < a ==> self@[k] != self@[l],
            decreases 9 - a,
        {
            let mut c: usize = a + 1;
            while c < 9
                invariant
                    a < c <= 9,
                    forall|l: int| a < l < c ==> self@[a as int] != self@[l],
                decreases 9 - c,
            {
                if self.cells[a] == self.cells[c] {
                    return false;
                }
                c = c + 1;
            }
            a = a + 1;
        }
        let mut v: u8 = 0;
        while v < 9
            invariant
                v <= 9,
                forall|w: u8| w < v ==> #[trigger] contains_label(self@, w),
            decreases 9 - v,
        {
            let mut i: usize = 0;
            let mut found: bool = false;
            while i < 9
                invariant
                    i <= 9,
                    found ==> contains_label(self@, v),
                    !found ==> forall|k: int| 0 <= k < i ==> self@[k] != v,
                decreases 9 - i,
            {
                if self.cells[i] == v {
                    found = true;
                }
                i = i + 1;
            }
            if !found {
                proof {
                    assert(!contains_label(self@, v));
                }
                return false;
            }
            v = v + 1;
        }
        true
    }

    /// Returns the position `(line, column)` of the given cell value.
    pub fn position(&self, value: Cell) -> (r: (usize, usize))
        requires
            self.wf(),
            value < 9,
        ensures
            r.0 < 3,
            r.1 < 3,
            self@[3 * r.0 + r.1] == value,
            3 * r.0 + r.1 == idx_of(self@, value),
    {
        let mut i: usize = 0;
        while i < 9
            invariant
                self.wf(),
                value < 9,
                i <= 9,
                forall|k: int| 0 <= k < i ==> self@[k] != value,
            decreases 9 - i,
        {
            if self.cells[i] == value {
                proof {
                    lemma_flat_to_coords(i as int);
                    lemma_idx_of_unique(self@, value, i as int);
                }
                return (i / 3, i % 3);
            }
            i = i + 1;
        }
        proof {
            assert(contains_label(self@, value));
            assert(false);
        }
        (0, 0)
    }

    /// Exact structural equality of the two boards' grids.
    pub fn same_as(&self, other: &Board) -> (r: bool)
        ensures
            r == (self@ == other@),
    {
        let mut i: usize = 0;
        while i < 9
            invariant
                i <= 9,
                forall|k: int| 0 <= k < i ==> self@[k] == other@[k],
            decreases 9 - i,
        {
            if self.cells[i] != other.cells[i] {
                return false;
            }
            i = i + 1;
        }
        proof {
            assert(self@ =~= other@);
        }
        true
    }

    /// Whether this board is the goal configuration.
    pub fn is_goal(&self) -> (r: bool)
        ensures
            r == (self@ == goal_seq()),
    {
        let g = Board::goal();
        self.same_as(&g)
    }

    /// Returns the result of applying the given move to the board.
    /// If the move is not applicable (the blank would leave the board),
    /// returns `None`; otherwise the new board, with the blank and the
    /// neighbouring tile exchanged.
    pub fn apply(&self, direction: Direction) -> (r: Option<Board>)
        requires
            self.wf(),
        ensures
            match r {
                Some(b) => spec_move(self@, direction) == Some(b@) && b.wf(),
                None => spec_move(self@, direction) is None,
            },
    {
        let (x, y) = self.position(EMPTY_CELL);
        let bidx = 3 * x + y;
        proof {
            lemma_coords_to_flat(x as int, y as int);
            assert(bidx == idx_of(self@, 0u8));
        }
        let target: Option<usize> = match direction {
            Direction::Up => if x > 0 { Some(bidx - 3) } else { None },
            Direction::Down => if x < 2 { Some(bidx + 3) } else { None },
            Direction::Left => if y > 0 { Some(bidx - 1) } else { None },
            Direction::Right => if y < 2 { Some(bidx + 1) } else { None },
        };
        match target {
            Some(t) => {
                proof {
                    assert(move_target(self@, direction) == Some(t as int));
                }
                let mut nc = self.cells;
                nc[bidx] = nc[t];
                nc[t] = EMPTY_CELL;
                let nb = Board { cells: nc };
                proof {
                    assert(self@[bidx as int] == 0u8);
                    assert(nb@ =~= swap_cells(self@, bidx as int, t as int));
                    lemma_swap_preserves_wf(self@, bidx as int, t as int);
                }
                Some(nb)
            },
            None => {
                proof {
                    assert(move_target(self@, direction) is None);
                }
                None
            },
        }
    }

    /// Returns `true` if the given sequence of actions is a valid plan that
    /// leads to the goal state. As `lenient_replay` states, an action that
    /// is not applicable is skipped: it leaves the board unchanged.
    pub fn is_valid_plan(&self, actions: &[Direction]) -> (r: bool)
        requires
            self.wf(),
        ensures
            r == (lenient_replay(self@, actions@) == goal_seq()),
    {
        let mut board: Board = *self;
        let mut i: usize = 0;
        proof {
            assert(actions@.skip(0) =~= actions@);
        }
        while i < actions.len()
            invariant
                board.wf(),
                i <= actions@.len(),
                lenient_replay(board@, actions@.skip(i as int)) == lenient_replay(
                    self@,
                    actions@,
                ),
            decreases actions@.len() - i,
        {
            let d = actions[i];
            proof {
                let m = actions@.skip(i as int);
                assert(m.len() > 0);
                assert(m[0] == d);
                assert(m.drop_first() =~= actions@.skip(i as int + 1));
            }
            match board.apply(d) {
                Some(next) => {
                    board = next;
                },
                None => {},
            }
            i = i + 1;
        }
        proof {
            assert(actions@.skip(i as int) =~= Seq::<Direction>::empty());
        }
        board.is_goal()
    }

    /// The grid packed into one integer, so that states can key a hash map.
    pub(crate) open spec fn code_spec(self) -> u64 {
        code_of(self@, 0) as u64
    }

    /// Computes `code_spec`: the cells as nine base-sixteen digits.
    pub(crate) fn code(&self) -> (r: u64)
        requires
            self.wf(),
        ensures
            r == self.code_spec(),
    {
        proof {
            lemma_pow16_values();
        }
        let mut r: u64 = 0;
        let mut i: usize = 9;
        while i > 0
            invariant
                self.wf(),
                i <= 9,
                r as int == code_of(self@, i as int),
            decreases i,
        {
            i = i - 1;
            proof {
                lemma_code_bounds(self@, i as int + 1);
                lemma_pow16_mono(8 - i as int, 8);
                lemma_pow16_values();
            }
            r = r * 16 + (self.cells[i] as u64);
        }
        r
    }
}

pub(crate) proof fn lemma_pow16_values()
    ensures
        pow16(8) == 0x100000000,
        pow16(9) == 0x1000000000,
{
    assert(pow16(0) == 1);
    assert(pow16(1) == 16);
    assert(pow16(2) == 0x100);
    assert(pow16(3) == 0x1000);
    assert(pow16(4) == 0x10000);
    assert(pow16(5) == 0x100000);
    assert(pow16(6) == 0x1000000);
    assert(pow16(7) == 0x10000000);
    assert(pow16(8) == 0x100000000);
    assert(pow16(9) == 0x1000000000);
}

/// Distinct well-formed boards pack to distinct codes.
pub(crate) proof fn lemma_code_injective(a: Board, b: Board)
    requires
        a.wf(),
        b.wf(),
        a.code_spec() == b.code_spec(),
    ensures
        a == b,
{
    lemma_code_bounds(a@, 0);
    lemma_code_bounds(b@, 0);
    lemma_pow16_values();
    assert(code_of(a@, 0) == code_of(b@, 0));
    lemma_code_digits(a@, b@, 0);
    assert(a.cells =~= b.cells) by {
        broadcast use vstd::array::axiom_array_ext_equal;

        assert(forall|i: int| 0 <= i < 9 ==> a.cells[i] == b.cells[i]);
    }
    assert(a == b);
}

} // verus!
