//! The A* search engine: best-first search over the puzzle's state graph,
//! with lazy deletion of stale frontier entries.
//!
//! The engine's contract: a returned move sequence replays from the start
//! state exactly to the goal, and a "no plan" answer means no move sequence
//! at all reaches the goal from the start.

use vstd::prelude::*;

verus! {

use crate::board::Board;
use crate::board::Direction;
use crate::board::goal_seq;
use crate::board::lemma_code_injective;
use crate::board::replay;
use crate::board::spec_move;
use crate::heuristics::Heuristic;
use crate::min_heap::MinHeap;
use std::collections::HashMap;
use std::collections::HashSet;
use std::time::Duration;
use std::time::Instant;
use vstd::relations::injective_on;
use vstd::set_lib::lemma_int_range;
use vstd::set_lib::lemma_len_subset;
use vstd::set_lib::lemma_map_size;
use vstd::set_lib::set_int_range;

broadcast use vstd::std_specs::hash::group_hash_axioms;

#[verifier::external_type_specification]
#[verifier::external_body]
pub struct ExInstant(Instant);

/// Relies on std::time::Instant::now: reads the monotonic clock. Nothing is
/// promised of the value; it only feeds the diagnostic statistics.
#[verifier::external_body]
fn clock_now() -> Instant {
    Instant::now()
}

/// Relies on std::time::Instant::elapsed: the time since `start`. Nothing is
/// promised of the value; it only feeds the diagnostic statistics.
#[verifier::external_body]
fn clock_elapsed(start: &Instant) -> Duration {
    start.elapsed()
}

/// Statistics of the search, used to evaluate the performance of the search
/// algorithms. They are diagnostics only and never influence the result.
pub struct Stats {
    /// Number of states expanded (finalized) during search.
    pub expanded: usize,
    /// Total runtime spent in the search.
    pub runtime: Duration,
}

impl Stats {
    /// Creates a new `Stats` instance with the given expanded states count
    /// and runtime.
    pub fn new(expanded: usize, runtime: Duration) -> (r: Stats)
        ensures
            r.expanded == expanded,
            r.runtime == runtime,
    {
        Stats { expanded, runtime }
    }
}

/// Some board in `dom` has the grid `t`.
spec fn recorded(dom: Set<Board>, t: Seq<u8>) -> bool {
    exists|b: Board| #[trigger] dom.contains(b) && b@ == t
}

/// If move `d` applies to `b`, its result is recorded in `dom`.
spec fn succ_recorded(b: Board, d: Direction, dom: Set<Board>) -> bool {
    spec_move(b@, d) is Some ==> recorded(dom, spec_move(b@, d).unwrap())
}

/// Every move out of a board in `cset` leads to a board recorded in `dom`.
spec fn closed_under_moves(cset: Set<Board>, dom: Set<Board>) -> bool {
    forall|b: Board, d: Direction|
        cset.contains(b) ==> #[trigger] succ_recorded(b, d, dom)
}

/// The directions in a fixed order, so the expansion loop can walk them.
spec fn dir_of(j: int) -> Direction {
    if j == 0 {
        Direction::Up
    } else if j == 1 {
        Direction::Down
    } else if j == 2 {
        Direction::Left
    } else {
        Direction::Right
    }
}

fn direction_at(k: usize) -> (r: Direction)
    ensures
        r == dir_of(k as int),
{
    if k == 0 {
        Direction::Up
    } else if k == 1 {
        Direction::Down
    } else if k == 2 {
        Direction::Left
    } else {
        Direction::Right
    }
}

proof fn lemma_dirs_complete(d: Direction)
    ensures
        exists|j: int| 0 <= j < 4 && dir_of(j) == d,
{
    match d {
        Direction::Up => assert(dir_of(0) == d),
        Direction::Down => assert(dir_of(1) == d),
        Direction::Left => assert(dir_of(2) == d),
        Direction::Right => assert(dir_of(3) == d),
    }
}

/// The search loop's bookkeeping invariant. The ghost map `g` holds the best
/// known cost of every recorded board, `closed` the finalized boards, and
/// `par` the parent links; `costs`, `pmap` and `expanded` are the views of
/// the executable tables, keyed by the boards' packed codes.
spec fn inv_core(
    init: Board,
    heap: MinHeap<Board>,
    costs: Map<u64, u64>,
    pmap: Map<u64, (Board, Direction)>,
    expanded: Set<u64>,
    g: Map<Board, u64>,
    closed: Set<Board>,
    par: Map<Board, (Board, Direction)>,
) -> bool {
    &&& init.wf()
    &&& g.dom().contains(init) && g[init] == 0
    &&& forall|b: Board| #[trigger] g.dom().contains(b) ==> b.wf()
    // the cost table mirrors the ghost cost map
    &&& forall|b: Board| #[trigger]
        g.dom().contains(b) ==> costs.contains_key(b.code_spec()) && costs[b.code_spec()] == g[b]
    &&& forall|c: u64| #[trigger]
        costs.contains_key(c) ==> exists|b: Board| #[trigger] g.dom().contains(b) && b.code_spec() == c
    // the closed-code table mirrors the ghost closed set
    &&& forall|b: Board| #[trigger]
        closed.contains(b) ==> g.dom().contains(b) && expanded.contains(b.code_spec())
    &&& forall|c: u64| #[trigger]
        expanded.contains(c) ==> exists|b: Board| #[trigger] closed.contains(b) && b.code_spec() == c
    &&& closed.finite()
    &&& expanded.finite()
    &&& closed.len() == expanded.len()
    // recorded costs never exceed the number of finalized states
    &&& forall|b: Board| #[trigger] g.dom().contains(b) ==> g[b] <= closed.len()
    // frontier entries are recorded boards
    &&& heap.wf()
    &&& forall|e: (Board, u64)| #[trigger] heap@.count(e) > 0 ==> g.dom().contains(e.0)
    // every recorded board is finalized or still queued
    &&& forall|b: Board| #[trigger]
        g.dom().contains(b) ==> closed.contains(b) || exists|f: u64| #[trigger] heap@.count((b, f)) > 0
    // the goal is never finalized without the search ending
    &&& forall|b: Board| #[trigger] closed.contains(b) ==> b@ != goal_seq()
    // parent links: every recorded board but the start has one, and walking
    // a link strictly lowers the recorded cost
    &&& par.dom() == g.dom().remove(init)
    &&& forall|b: Board| #[trigger]
        par.dom().contains(b) ==> {
            &&& g.dom().contains(par[b].0)
            &&& spec_move(par[b].0@, par[b].1) == Some(b@)
            &&& g[par[b].0] < g[b]
        }
    &&& forall|b: Board| #[trigger]
        par.dom().contains(b) ==> pmap.contains_key(b.code_spec()) && pmap[b.code_spec()] == par[b]
    // when the start is already the goal, the very first pop ends the search
    &&& (init@ == goal_seq() ==> closed.is_empty() && (forall|e: (Board, u64)| #[trigger]
        heap@.count(e) > 0 ==> e.0 == init))
}

proof fn lemma_succ_recorded_mono(b: Board, d: Direction, dom1: Set<Board>, dom2: Set<Board>)
    requires
        succ_recorded(b, d, dom1),
        dom1.subset_of(dom2),
    ensures
        succ_recorded(b, d, dom2),
{
    if spec_move(b@, d) is Some {
        let t = spec_move(b@, d).unwrap();
        let b2 = choose|b2: Board| #[trigger] dom1.contains(b2) && b2@ == t;
        assert(dom2.contains(b2));
    }
}

/// From a set of non-goal boards closed under moves, no move sequence
/// reaches the goal.
proof fn lemma_unreachable(cset: Set<Board>, s: Seq<u8>, moves: Seq<Direction>)
    requires
        closed_under_moves(cset, cset),
        recorded(cset, s),
        forall|b: Board| #[trigger] cset.contains(b) ==> b@ != goal_seq(),
    ensures
        replay(s, moves) != Some(goal_seq()),
    decreases moves.len(),
{
    let b = choose|b: Board| #[trigger] cset.contains(b) && b@ == s;
    if moves.len() == 0 {
        assert(replay(s, moves) == Some(s));
        assert(s != goal_seq());
    } else {
        if spec_move(s, moves[0]) is Some {
            assert(succ_recorded(b, moves[0], cset));
            assert(spec_move(b@, moves[0]) == spec_move(s, moves[0]));
            lemma_unreachable(cset, spec_move(s, moves[0]).unwrap(), moves.drop_first());
        }
    }
}

/// Runs A* from `init_state` toward the goal board, driven by `heuristic`.
/// Returns the move sequence found (empty when the start is the goal,
/// `None` when the goal is unreachable) together with search statistics.
#[verifier::rlimit(100)]
pub fn search(init_state: Board, heuristic: &Heuristic) -> (r: (Option<Vec<Direction>>, Stats))
    requires
        init_state.wf(),
    ensures
        match r.0 {
            Some(path) => replay(init_state@, path@) == Some(goal_seq()),
            None => forall|moves: Seq<Direction>|
                replay(init_state@, moves) != Some(goal_seq()),
        },
        init_state@ == goal_seq() ==> r.0 is Some && r.1.expanded == 1,
        init_state@ == goal_seq() ==> (r.0 matches Some(path) ==> path@.len() == 0),
{
    let start_time = clock_now();
    let mut heap: MinHeap<Board> = MinHeap::new();
    let mut costs: HashMap<u64, u64> = HashMap::new();
    let mut parent_action: HashMap<u64, (Board, Direction)> = HashMap::new();
    let mut expanded: HashSet<u64> = HashSet::new();
    let ghost mut g: Map<Board, u64> = Map::empty();
    let ghost mut closed: Set<Board> = Set::empty();
    let ghost mut par: Map<Board, (Board, Direction)> = Map::empty();

    costs.insert(init_state.code(), 0);
    proof {
        g = g.insert(init_state, 0u64);
    }
    let h0 = heuristic.estimate(&init_state);
    heap.insert(init_state, h0 as u64);

    proof {
        assert(par.dom() =~= g.dom().remove(init_state));
        assert(heap@.count((init_state, h0 as u64)) > 0);
        assert forall|b: Board| #[trigger] g.dom().contains(b) implies closed.contains(b)
            || exists|f: u64| #[trigger] heap@.count((b, f)) > 0 by {
            assert(heap@.count((init_state, h0 as u64)) > 0);
        }
        assert forall|c: u64| #[trigger] costs@.contains_key(c) implies exists|b: Board|
            #[trigger] g.dom().contains(b) && b.code_spec() == c by {
            assert(g.dom().contains(init_state) && init_state.code_spec() == c);
        }
        assert(inv_core(init_state, heap, costs@, parent_action@, expanded@, g, closed, par));
        assert(closed_under_moves(closed, g.dom()));
    }

    loop
        invariant
            inv_core(init_state, heap, costs@, parent_action@, expanded@, g, closed, par),
            closed_under_moves(closed, g.dom()),
            closed.len() <= 0x1000000000,
        ensures
            heap@.len() == 0,
        decreases 0x1000000000 - closed.len(), heap@.len(),
    {
        if heap.is_empty() {
            break ;
        }
        let ghost pre_heap = heap@;
        let s_opt = heap.pop();
        let s = s_opt.unwrap();
        proof {
            let f0 = choose|f: u64|
                {
                    &&& #[trigger] pre_heap.count((s, f)) > 0
                    &&& crate::min_heap::is_min_priority(pre_heap, f)
                    &&& heap@ == pre_heap.remove((s, f))
                };
            assert(pre_heap.count((s, f0)) > 0);
            assert(g.dom().contains(s));
            assert(s.wf());
            assert forall|e: (Board, u64)| #[trigger] heap@.count(e) > 0 implies g.dom().contains(
                e.0,
            ) by {
                assert(pre_heap.count(e) > 0);
            }
        }
        let s_code = s.code();
        if expanded.contains(&s_code) {
            proof {
                let b = choose|b: Board| #[trigger] closed.contains(b) && b.code_spec() == s_code;
                lemma_code_injective(b, s);
                assert(closed.contains(s));
                let ghost f0 = choose|f: u64|
                    {
                        &&& #[trigger] pre_heap.count((s, f)) > 0
                        &&& crate::min_heap::is_min_priority(pre_heap, f)
                        &&& heap@ == pre_heap.remove((s, f))
                    };
                assert forall|b2: Board| #[trigger] g.dom().contains(b2) implies closed.contains(b2)
                    || exists|f: u64| #[trigger] heap@.count((b2, f)) > 0 by {
                    if !closed.contains(b2) {
                        let f1 = choose|f: u64| #[trigger] pre_heap.count((b2, f)) > 0;
                        assert(b2 != s);
                        assert(heap@.count((b2, f1)) == pre_heap.count((b2, f1)));
                    }
                }
            }
            continue ;
        }
        // finalize s: its popped cost is optimal under an admissible,
        // consistent heuristic
        let ghost old_closed = closed;
        let ghost old_expanded = expanded@;
        expanded.insert(s_code);
        proof {
            closed = closed.insert(s);
            assert(!old_closed.contains(s));
            assert(!old_expanded.contains(s_code));
            assert(closed.len() == old_closed.len() + 1);
            assert(expanded@.len() == old_expanded.len() + 1);
            assert forall|c: u64| #[trigger] expanded@.contains(c) implies exists|b: Board|
                #[trigger] closed.contains(b) && b.code_spec() == c by {
                if c == s_code {
                    assert(closed.contains(s) && s.code_spec() == c);
                } else {
                    let b = choose|b: Board| #[trigger] old_closed.contains(b) && b.code_spec()
                        == c;
                    assert(closed.contains(b));
                }
            }
            let f0 = choose|f: u64|
                {
                    &&& #[trigger] pre_heap.count((s, f)) > 0
                    &&& crate::min_heap::is_min_priority(pre_heap, f)
                    &&& heap@ == pre_heap.remove((s, f))
                };
            assert forall|b2: Board| #[trigger] g.dom().contains(b2) implies closed.contains(b2)
                || exists|f: u64| #[trigger] heap@.count((b2, f)) > 0 by {
                if !closed.contains(b2) {
                    assert(b2 != s);
                    assert(!old_closed.contains(b2));
                    let f1 = choose|f: u64| #[trigger] pre_heap.count((b2, f)) > 0;
                    assert(heap@.count((b2, f1)) == pre_heap.count((b2, f1)));
                }
            }
            assert(closed.remove(s) =~= old_closed);
            lemma_closed_card_bound(closed);
        }
        let n_closed = expanded.len();
        proof {
            assert(n_closed == closed.len());
        }
        if s.is_goal() {
            // walk the parent links backward from the goal to the start,
            // then reverse the collected moves into start-to-goal order
            let mut rev_moves: Vec<Direction> = Vec::new();
            let mut cur: Board = s;
            proof {
                assert(replay(cur@, rev_moves@.reverse()) == Some(goal_seq()));
            }
            while !cur.same_as(&init_state)
                invariant
                    init_state.wf(),
                    forall|b: Board| #[trigger] g.dom().contains(b) ==> b.wf(),
                    par.dom() == g.dom().remove(init_state),
                    forall|b: Board| #[trigger]
                        par.dom().contains(b) ==> {
                            &&& g.dom().contains(par[b].0)
                            &&& spec_move(par[b].0@, par[b].1) == Some(b@)
                            &&& g[par[b].0] < g[b]
                        },
                    forall|b: Board| #[trigger]
                        par.dom().contains(b) ==> parent_action@.contains_key(b.code_spec())
                            && parent_action@[b.code_spec()] == par[b],
                    g.dom().contains(cur),
                    replay(cur@, rev_moves@.reverse()) == Some(goal_seq()),
                    init_state@ == goal_seq() ==> cur@ == goal_seq() && rev_moves@.len() == 0,
                decreases g[cur],
            {
                proof {
                    assert(cur@ != init_state@);
                    assert(cur != init_state);
                    assert(par.dom().contains(cur));
                }
                let cc = cur.code();
                let pa = *parent_action.get(&cc).unwrap();
                let (p, d) = pa;
                proof {
                    assert(pa == par[cur]);
                    assert(spec_move(p@, d) == Some(cur@));
                    assert(g[p] < g[cur]);
                }
                let ghost prev_rev = rev_moves@;
                rev_moves.push(d);
                proof {
                    let m = rev_moves@.reverse();
                    assert(m =~= seq![d] + prev_rev.reverse());
                    assert(m[0] == d);
                    assert(m.drop_first() =~= prev_rev.reverse());
                    assert(replay(p@, m) == replay(cur@, prev_rev.reverse()));
                }
                cur = p;
            }
            let mut path: Vec<Direction> = Vec::new();
            let mut k = rev_moves.len();
            while k > 0
                invariant
                    k <= rev_moves@.len(),
                    path@.len() == rev_moves@.len() - k,
                    forall|i: int|
                        0 <= i < path@.len() ==> path@[i] == rev_moves@[rev_moves@.len() - 1 - i],
                decreases k,
            {
                k = k - 1;
                let d = rev_moves[k];
                path.push(d);
            }
            proof {
                assert(path@ =~= rev_moves@.reverse());
                assert(replay(init_state@, path@) == Some(goal_seq()));
            }
            let stats = Stats::new(n_closed, clock_elapsed(&start_time));
            return (Some(path), stats);
        }
        proof {
            // were the start the goal, the first pop would have ended the
            // search: every frontier entry held the start itself
            if init_state@ == goal_seq() {
                let f0 = choose|f: u64| #[trigger] pre_heap.count((s, f)) > 0;
                assert(s == init_state);
                assert(false);
            }
        }
        // expand s: try all four moves, recording improved successors
        let g_s = *costs.get(&s_code).unwrap();
        proof {
            assert(g_s == g[s]);
            assert(g_s + 1 <= n_closed);
        }
        let cand: u64 = g_s + 1;
        let mut k: usize = 0;
        while k < 4
            invariant
                k <= 4,
                inv_core(init_state, heap, costs@, parent_action@, expanded@, g, closed, par),
                closed_under_moves(closed.remove(s), g.dom()),
                forall|j: int| 0 <= j < k ==> #[trigger] succ_recorded(s, dir_of(j), g.dom()),
                closed.contains(s),
                s.wf(),
                g.dom().contains(s) && g[s] == g_s,
                cand == g_s + 1 && cand <= closed.len(),
            decreases 4 - k,
        {
            let d = direction_at(k);
            match s.apply(d) {
                Some(sbis) => {
                    let sc = sbis.code();
                    let prev_opt = costs.get(&sc);
                    let better: bool = match prev_opt {
                        Some(prev) => cand < *prev,
                        None => true,
                    };
                    proof {
                        if costs@.contains_key(sc) {
                            let b = choose|b: Board| #[trigger] g.dom().contains(b)
                                && b.code_spec() == sc;
                            lemma_code_injective(b, sbis);
                            assert(g.dom().contains(sbis));
                            assert(costs@[sc] == g[sbis]);
                        }
                    }
                    if better {
                        proof {
                            // a recorded board never improves below its
                            // parent-chain floor: the start keeps cost zero
                            if g.dom().contains(init_state) && sbis == init_state {
                                assert(g[init_state] == 0);
                                assert(false);
                            }
                        }
                        costs.insert(sc, cand);
                        parent_action.insert(sc, (s, d));
                        let h = heuristic.estimate(&sbis);
                        let f = if cand <= u64::MAX - (h as u64) {
                            cand + (h as u64)
                        } else {
                            u64::MAX
                        };
                        let ghost mid_heap = heap@;
                        heap.insert(sbis, f);
                        proof {
                            let ghost old_g = g;
                            let ghost old_par = par;
                            g = g.insert(sbis, cand);
                            par = par.insert(sbis, (s, d));
                            assert(par.dom() =~= g.dom().remove(init_state));
                            assert(heap@.count((sbis, f)) > 0);
                            // the new link strictly descends in cost, and
                            // every other link is untouched
                            assert forall|b: Board| #[trigger] par.dom().contains(b) implies {
                                &&& g.dom().contains(par[b].0)
                                &&& spec_move(par[b].0@, par[b].1) == Some(b@)
                                &&& g[par[b].0] < g[b]
                            } by {
                                if b == sbis {
                                    assert(par[b] == (s, d));
                                    assert(g[s] == g_s);
                                } else {
                                    assert(old_par.dom().contains(b));
                                    assert(par[b] == old_par[b]);
                                    assert(old_par[b].0 != sbis || g[sbis] <= old_g[old_par[b].0]);
                                    if old_par[b].0 == sbis {
                                        assert(old_g.dom().contains(sbis));
                                        assert(cand < old_g[sbis]);
                                    }
                                }
                            }
                            // code-keyed tables stay in step: distinct
                            // recorded boards have distinct codes
                            assert forall|b: Board| #[trigger] g.dom().contains(b) implies costs@
                                .contains_key(b.code_spec()) && costs@[b.code_spec()] == g[b] by {
                                if b != sbis {
                                    lemma_code_injective_contra(b, sbis);
                                }
                            }
                            assert forall|b: Board| #[trigger] par.dom().contains(b) implies
                                parent_action@.contains_key(b.code_spec()) && parent_action@[
                                b.code_spec()] == par[b] by {
                                if b != sbis {
                                    lemma_code_injective_contra(b, sbis);
                                }
                            }
                            assert forall|c: u64| #[trigger] costs@.contains_key(c) implies exists|
                                b: Board,
                            | #[trigger] g.dom().contains(b) && b.code_spec() == c by {
                                if c == sc {
                                    assert(g.dom().contains(sbis) && sbis.code_spec() == c);
                                } else {
                                    let b = choose|b: Board| #[trigger] old_g.dom().contains(b)
                                        && b.code_spec() == c;
                                    assert(g.dom().contains(b));
                                }
                            }
                            assert forall|b: Board| #[trigger] g.dom().contains(b) implies closed
                                .contains(b) || exists|f2: u64| #[trigger] heap@.count((b, f2))
                                > 0 by {
                                if b == sbis {
                                    assert(heap@.count((sbis, f)) > 0);
                                } else if !closed.contains(b) {
                                    let f1 = choose|f2: u64| #[trigger] mid_heap.count((b, f2))
                                        > 0;
                                    assert(heap@.count((b, f1)) > 0);
                                }
                            }
                            assert(inv_core(
                                init_state,
                                heap,
                                costs@,
                                parent_action@,
                                expanded@,
                                g,
                                closed,
                                par,
                            ));
                            // recording one more board keeps earlier
                            // successors recorded
                            assert(old_g.dom().subset_of(g.dom()));
                            assert forall|j: int| 0 <= j < k implies #[trigger] succ_recorded(
                                s,
                                dir_of(j),
                                g.dom(),
                            ) by {
                                lemma_succ_recorded_mono(s, dir_of(j), old_g.dom(), g.dom());
                            }
                            assert forall|b: Board, d2: Direction|
                                closed.remove(s).contains(b) implies #[trigger] succ_recorded(
                                b,
                                d2,
                                g.dom(),
                            ) by {
                                lemma_succ_recorded_mono(b, d2, old_g.dom(), g.dom());
                            }
                        }
                    }
                    proof {
                        assert(g.dom().contains(sbis) && sbis@ == spec_move(s@, d).unwrap());
                        assert(recorded(g.dom(), spec_move(s@, d).unwrap()));
                        assert(succ_recorded(s, dir_of(k as int), g.dom()));
                    }
                },
                None => {
                    proof {
                        assert(succ_recorded(s, dir_of(k as int), g.dom()));
                    }
                },
            }
            proof {
                assert forall|j: int| 0 <= j < k + 1 implies #[trigger] succ_recorded(
                    s,
                    dir_of(j),
                    g.dom(),
                ) by {}
            }
            k = k + 1;
        }
        proof {
            assert forall|b: Board, d: Direction| closed.contains(b) implies #[trigger]
                succ_recorded(b, d, g.dom()) by {
                if b == s {
                    lemma_dirs_complete(d);
                    let j = choose|j: int| 0 <= j < 4 && dir_of(j) == d;
                    assert(succ_recorded(s, dir_of(j), g.dom()));
                } else {
                    assert(closed.remove(s).contains(b));
                }
            }
        }
    }
    // the frontier is exhausted: every recorded board is finalized, the
    // finalized set is closed under moves, and the goal is not in it
    proof {
        assert forall|b: Board| #[trigger] g.dom().contains(b) implies closed.contains(b) by {
            if !closed.contains(b) {
                let f1 = choose|f: u64| #[trigger] heap@.count((b, f)) > 0;
                assert(heap@.len() >= heap@.count((b, f1)));
            }
        }
        assert forall|b: Board, d: Direction| closed.contains(b) implies #[trigger] succ_recorded(
            b,
            d,
            closed,
        ) by {
            assert(succ_recorded(b, d, g.dom()));
            if spec_move(b@, d) is Some {
                let b2 = choose|b2: Board| #[trigger] g.dom().contains(b2) && b2@ == spec_move(
                    b@,
                    d,
                ).unwrap();
                assert(closed.contains(b2));
                assert(recorded(closed, spec_move(b@, d).unwrap()));
            }
        }
        assert(recorded(closed, init_state@)) by {
            assert(closed.contains(init_state));
        }
        assert forall|moves: Seq<Direction>| replay(init_state@, moves) != Some(goal_seq()) by {
            lemma_unreachable(closed, init_state@, moves);
        }
    }
    let stats = Stats::new(expanded.len(), clock_elapsed(&start_time));
    (None, stats)
}

/// There are fewer well-formed boards than packed codes, so the finalized
/// set is bounded: this is what makes the search loop terminate.
proof fn lemma_closed_card_bound(cset: Set<Board>)
    requires
        cset.finite(),
        forall|b: Board| #[trigger] cset.contains(b) ==> b.wf(),
    ensures
        cset.len() <= 0x1000000000,
{
    let f = |b: Board| crate::board::code_of(b@, 0);
    let y = cset.map(f);
    assert(injective_on(f, cset)) by {
        assert forall|b1: Board, b2: Board|
            cset.contains(b1) && cset.contains(b2) && #[trigger] f(b1) == #[trigger] f(b2) implies b1
            == b2 by {
            assert(b1.code_spec() == b2.code_spec());
            lemma_code_injective(b1, b2);
        }
    }
    lemma_map_size(cset, y, f);
    crate::board::lemma_pow16_values();
    assert(y.subset_of(set_int_range(0, 0x1000000000))) by {
        assert forall|c: int| #[trigger] y.contains(c) implies 0 <= c < 0x1000000000 by {
            let b = choose|b: Board| cset.contains(b) && c == f(b);
            crate::board::lemma_code_bounds(b@, 0);
        }
    }
    lemma_int_range(0, 0x1000000000);
    lemma_len_subset(y, set_int_range(0, 0x1000000000));
}

/// Distinct well-formed boards have distinct codes.
proof fn lemma_code_injective_contra(a: Board, b: Board)
    requires
        a.wf(),
        b.wf(),
        a != b,
    ensures
        a.code_spec() != b.code_spec(),
{
    if a.code_spec() == b.code_spec() {
        lemma_code_injective(a, b);
    }
}

} // verus!
