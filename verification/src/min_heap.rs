//! A generic min-priority queue: a binary heap over a vector, ordered by a
//! numeric priority. Its view is the multiset of queued (item, priority)
//! pairs; ties between equal priorities are broken arbitrarily.

use vstd::prelude::*;

verus! {

use vstd::multiset::Multiset;
use vstd::pervasive::VecAdditionalExecFns;
use vstd::arithmetic::div_mod::lemma_fundamental_div_mod;
use vstd::arithmetic::div_mod::lemma_fundamental_div_mod_converse;

broadcast use
    vstd::seq_lib::group_to_multiset_ensures,
    vstd::multiset::group_multiset_axioms,
    vstd::multiset::group_multiset_properties,
;

/// `f` is no greater than any priority queued in `m`.
pub open spec fn is_min_priority<State>(m: Multiset<(State, u64)>, f: u64) -> bool {
    forall|e: (State, u64)| m.count(e) > 0 ==> f <= e.1
}

/// What a successful pop did: it took one queued entry `(s, f)` out of
/// `pre`, leaving `post`, and no queued priority was below `f`.
pub open spec fn popped_min<State>(
    pre: Multiset<(State, u64)>,
    post: Multiset<(State, u64)>,
    s: State,
) -> bool {
    exists|f: u64|
        {
            &&& #[trigger] pre.count((s, f)) > 0
            &&& is_min_priority(pre, f)
            &&& post == pre.remove((s, f))
        }
}

/// The parent slot of heap slot `i`.
spec fn parent(i: int) -> int {
    (i - 1) / 2
}

proof fn lemma_parent(i: int)
    requires
        i >= 1,
    ensures
        0 <= parent(i) < i,
        2 * parent(i) + 1 == i || 2 * parent(i) + 2 == i,
{
    lemma_fundamental_div_mod(i - 1, 2);
}

proof fn lemma_child(y: int)
    requires
        y >= 0,
    ensures
        parent(2 * y + 1) == y,
        parent(2 * y + 2) == y,
{
    lemma_fundamental_div_mod_converse(2 * y, 2, y, 0);
    lemma_fundamental_div_mod_converse(2 * y + 1, 2, y, 1);
}

/// Swapping two cells of a sequence keeps its multiset of elements.
proof fn lemma_swap_multiset<T>(s: Seq<T>, i: int, j: int)
    requires
        0 <= i < s.len(),
        0 <= j < s.len(),
        i != j,
    ensures
        s.update(i, s[j]).update(j, s[i]).to_multiset() == s.to_multiset(),
{
    let s1 = s.update(i, s[j]);
    let s2 = s1.update(j, s[i]);
    assert(s.contains(s[i]));
    assert(s1.contains(s[j])) by { assert(s1[j] == s[j]); }
    assert(s2.to_multiset() =~= s.to_multiset());
}

/// A min-heap: a priority queue of states with `u64` priorities. The same
/// state may be queued several times, with equal or different priorities.
pub struct MinHeap<State> {
    entries: Vec<(State, u64)>,
}

impl<State> View for MinHeap<State> {
    type V = Multiset<(State, u64)>;

    closed spec fn view(&self) -> Multiset<(State, u64)> {
        self.entries@.to_multiset()
    }
}

impl<State: Copy> MinHeap<State> {
    /// The priority stored at slot `i`.
    pub closed spec fn prio(self, i: int) -> u64 {
        self.entries@[i].1
    }

    pub closed spec fn slots(self) -> int {
        self.entries@.len() as int
    }

    /// The heap order: every slot's priority is at least its parent's.
    pub closed spec fn wf(self) -> bool {
        forall|i: int| 1 <= i < self.slots() ==> #[trigger] self.prio(i) >= self.prio(parent(i))
    }

    /// The heap order, except that slot `x` may be smaller than its parent;
    /// the slots just below `x` are bounded by `x`'s own parent.
    spec fn heap_except_up(self, x: int) -> bool {
        &&& forall|i: int|
            1 <= i < self.slots() && i != x ==> #[trigger] self.prio(i) >= self.prio(parent(i))
        &&& x >= 1 ==> forall|i: int|
            1 <= i < self.slots() && parent(i) == x ==> #[trigger] self.prio(i) >= self.prio(
                parent(x),
            )
    }

    /// The heap order, except that slot `x` may be larger than its children;
    /// the slots just below `x` are bounded by `x`'s own parent.
    spec fn heap_except_down(self, x: int) -> bool {
        &&& forall|i: int|
            1 <= i < self.slots() && parent(i) != x ==> #[trigger] self.prio(i) >= self.prio(
                parent(i),
            )
        &&& x >= 1 ==> forall|i: int|
            1 <= i < self.slots() && parent(i) == x ==> #[trigger] self.prio(i) >= self.prio(
                parent(x),
            )
    }

    /// The root holds a least priority.
    proof fn lemma_root_min(self, i: int)
        requires
            self.wf(),
            0 <= i < self.slots(),
        ensures
            self.prio(0) <= self.prio(i),
        decreases i,
    {
        if i > 0 {
            assert(self.prio(i) >= self.prio(parent(i)));
            lemma_parent(i);
            self.lemma_root_min(parent(i));
        }
    }

    /// Create a new empty MinHeap.
    pub fn new() -> (r: MinHeap<State>)
        ensures
            r@ == Multiset::<(State, u64)>::empty(),
            r.wf(),
    {
        let r = MinHeap::<State> { entries: Vec::new() };
        proof {
            assert(r.entries@.to_multiset() =~= Multiset::<(State, u64)>::empty());
        }
        r
    }

    /// Returns `true` if the heap is empty.
    pub fn is_empty(&self) -> (r: bool)
        ensures
            r == (self@.len() == 0),
    {
        self.entries.len() == 0
    }

    /// Returns the number of queued entries.
    pub fn len(&self) -> (r: usize)
        ensures
            r == self@.len(),
    {
        self.entries.len()
    }

    /// Exchanges the entries at slots `a` and `b`.
    fn swap_slots(&mut self, a: usize, b: usize)
        requires
            a < old(self).entries@.len(),
            b < old(self).entries@.len(),
            a != b,
        ensures
            final(self).entries@ == old(self).entries@.update(
                a as int,
                old(self).entries@[b as int],
            ).update(b as int, old(self).entries@[a as int]),
            final(self)@ == old(self)@,
    {
        let ea = self.entries[a];
        let eb = self.entries[b];
        self.entries.set(a, eb);
        self.entries.set(b, ea);
        proof {
            lemma_swap_multiset(old(self).entries@, a as int, b as int);
        }
    }

    /// Insert a new state in the heap with the given f-value. A state may be
    /// inserted multiple times, with equal or different f-values.
    pub fn insert(&mut self, state: State, f_value: u64)
        requires
            old(self).wf(),
        ensures
            final(self).wf(),
            final(self)@ == old(self)@.insert((state, f_value)),
    {
        let x = self.entries.len();
        self.entries.push((state, f_value));
        proof {
            assert forall|i: int| 1 <= i < self.slots() && i != x as int implies #[trigger] self
                .prio(i) >= self.prio(parent(i)) by {
                lemma_parent(i);
                assert(self.prio(i) == old(self).prio(i));
                assert(self.prio(parent(i)) == old(self).prio(parent(i)));
                assert(old(self).prio(i) >= old(self).prio(parent(i)));
            }
            assert forall|i: int| 1 <= i < self.slots() && parent(i) == x as int implies false by {
                lemma_parent(i);
            }
            assert(self.heap_except_up(x as int));
        }
        self.sift_up(x);
    }

    /// Restores the heap order by moving slot `x` up toward the root.
    fn sift_up(&mut self, start: usize)
        requires
            (start as int) < old(self).slots(),
            old(self).heap_except_up(start as int),
        ensures
            final(self).wf(),
            final(self)@ == old(self)@,
    {
        let mut x = start;
        while x > 0
            invariant
                (x as int) < self.slots(),
                self.heap_except_up(x as int),
                self@ == old(self)@,
            decreases x,
        {
            let p = (x - 1) / 2;
            proof {
                lemma_parent(x as int);
                assert(p as int == parent(x as int));
            }
            let ex = self.entries[x];
            let ep = self.entries[p];
            if ep.1 <= ex.1 {
                proof {
                    assert forall|i: int| 1 <= i < self.slots() implies #[trigger] self.prio(i)
                        >= self.prio(parent(i)) by {
                        if i != x as int {
                            assert(self.prio(i) >= self.prio(parent(i)));
                        }
                    }
                }
                return ;
            }
            let ghost prev = *self;
            self.swap_slots(x, p);
            proof {
                let xi = x as int;
                let pi = p as int;
                assert(self.prio(xi) == prev.prio(pi) && self.prio(pi) == prev.prio(xi));
                assert forall|i: int| 1 <= i < self.slots() && i != xi && i != pi implies self.prio(
                    i,
                ) == prev.prio(i) by {}
                assert forall|i: int| 1 <= i < self.slots() && i != pi implies #[trigger] self.prio(
                    i,
                ) >= self.prio(parent(i)) by {
                    lemma_parent(i);
                    if i == xi {
                        // slot x now holds the old parent value; its parent p
                        // holds the old, smaller child value
                        assert(self.prio(i) >= self.prio(pi));
                    } else if parent(i) == xi {
                        // grandchildren were bounded by the old value of p
                        assert(prev.prio(i) >= prev.prio(parent(xi)));
                        assert(prev.prio(parent(xi)) == prev.prio(pi));
                    } else if parent(i) == pi {
                        // the sibling of x was bounded by the old value of x's
                        // parent, which only shrank
                        assert(prev.prio(i) >= prev.prio(pi));
                        assert(self.prio(pi) <= prev.prio(pi));
                    } else {
                        assert(prev.prio(i) >= prev.prio(parent(i)));
                    }
                }
                if p >= 1 {
                    assert forall|i: int|
                        1 <= i < self.slots() && parent(i) == pi implies #[trigger] self.prio(i)
                        >= self.prio(parent(pi)) by {
                        lemma_parent(pi);
                        assert(parent(pi) != xi && parent(pi) != pi);
                        if i == xi {
                            assert(self.prio(xi) == prev.prio(pi));
                            assert(prev.prio(pi) >= prev.prio(parent(pi)));
                        } else {
                            assert(prev.prio(i) >= prev.prio(pi));
                            assert(prev.prio(pi) >= prev.prio(parent(pi)));
                        }
                    }
                }
                assert(self.heap_except_up(pi));
            }
            x = p;
        }
        proof {
            assert forall|i: int| 1 <= i < self.slots() implies #[trigger] self.prio(i)
                >= self.prio(parent(i)) by {
                assert(self.prio(i) >= self.prio(parent(i)));
            }
        }
    }

    /// Removes and returns a state with the smallest queued priority, or
    /// `None` if the heap is empty. Among entries of equal priority the
    /// choice is arbitrary.
    #[verifier::rlimit(50)]
    pub fn pop(&mut self) -> (r: Option<State>)
        requires
            old(self).wf(),
        ensures
            final(self).wf(),
            match r {
                None => old(self)@.len() == 0 && final(self)@ == old(self)@,
                Some(s) => popped_min(old(self)@, final(self)@, s),
            },
    {
        let n = self.entries.len();
        if n == 0 {
            return None;
        }
        let e0 = self.entries[0];
        proof {
            let s = self.entries@;
            assert(e0 == (e0.0, e0.1));
            assert(s.contains(e0));
            assert(self@.count(e0) > 0);
            assert(is_min_priority(self@, e0.1)) by {
                assert forall|e: (State, u64)| self@.count(e) > 0 implies e0.1 <= e.1 by {
                    assert(self.entries@.contains(e));
                    let i = choose|i: int|
                        0 <= i < self.entries@.len() && self.entries@[i] == e;
                    self.lemma_root_min(i);
                }
            }
        }
        let last = self.entries.swap_remove(0);
        proof {
            let prev = *old(self);
            let s = prev.entries@;
            let s2 = self.entries@;
            assert(s2 =~= s.update(0, s.last()).remove(s.len() - 1));
            assert(s.update(0, s.last())[s.len() - 1] == s.last());
            assert(s2.to_multiset() =~= s.to_multiset().remove(e0));
            assert forall|i: int| 1 <= i < self.slots() && parent(i) != 0 implies #[trigger] self
                .prio(i) >= self.prio(parent(i)) by {
                lemma_parent(i);
                assert(self.prio(i) == prev.prio(i));
                assert(self.prio(parent(i)) == prev.prio(parent(i)));
                assert(prev.prio(i) >= prev.prio(parent(i)));
            }
            assert(self.heap_except_down(0));
        }
        if self.entries.len() > 0 {
            self.sift_down(0);
        }
        proof {
            assert(old(self)@.count((e0.0, e0.1)) > 0);
            assert(is_min_priority(old(self)@, e0.1));
            assert(self@ == old(self)@.remove((e0.0, e0.1)));
            assert(popped_min(old(self)@, self@, e0.0));
        }
        Some(e0.0)
    }

    /// Restores the heap order by moving slot `x` down toward the leaves.
    fn sift_down(&mut self, start: usize)
        requires
            (start as int) < old(self).slots(),
            old(self).heap_except_down(start as int),
        ensures
            final(self).wf(),
            final(self)@ == old(self)@,
    {
        let mut x = start;
        loop
            invariant
                (x as int) < self.slots(),
                self.heap_except_down(x as int),
                self@ == old(self)@,
            decreases self.slots() - x,
        {
            let len = self.entries.len();
            if x >= len / 2 {
                proof {
                    lemma_fundamental_div_mod(len as int, 2);
                    assert forall|i: int| 1 <= i < self.slots() implies #[trigger] self.prio(i)
                        >= self.prio(parent(i)) by {
                        lemma_parent(i);
                        assert(parent(i) != x as int);
                    }
                }
                return ;
            }
            proof {
                lemma_fundamental_div_mod(len as int, 2);
            }
            let l = 2 * x + 1;
            let r = l + 1;
            proof {
                lemma_child(x as int);
            }
            let mut c = l;
            if r < len && self.entries[r].1 < self.entries[l].1 {
                c = r;
            }
            let ex = self.entries[x];
            let ec = self.entries[c];
            if ex.1 <= ec.1 {
                proof {
                    assert forall|i: int| 1 <= i < self.slots() implies #[trigger] self.prio(i)
                        >= self.prio(parent(i)) by {
                        lemma_parent(i);
                        if parent(i) == x as int {
                            assert(i == l as int || i == r as int);
                        }
                    }
                }
                return ;
            }
            let ghost prev = *self;
            self.swap_slots(x, c);
            proof {
                let xi = x as int;
                let ci = c as int;
                assert(self.prio(xi) == prev.prio(ci) && self.prio(ci) == prev.prio(xi));
                assert forall|i: int| 1 <= i < self.slots() && i != xi && i != ci implies self.prio(
                    i,
                ) == prev.prio(i) by {}
                assert forall|i: int|
                    1 <= i < self.slots() && parent(i) != ci implies #[trigger] self.prio(i)
                    >= self.prio(parent(i)) by {
                    lemma_parent(i);
                    if i == ci {
                        // slot c now holds the old, larger value of x
                        assert(self.prio(ci) == prev.prio(xi));
                        assert(self.prio(parent(ci)) == self.prio(xi));
                        assert(self.prio(xi) == prev.prio(ci));
                    } else if i == xi {
                        // slot x now holds the smaller child; x's own parent
                        // bounded all of x's children
                        if xi >= 1 {
                            assert(prev.prio(ci) >= prev.prio(parent(xi)));
                            assert(parent(xi) != xi && parent(xi) != ci);
                        }
                    } else if parent(i) == xi {
                        // the sibling of c is bounded by the smaller child
                        assert(i == l as int || i == r as int);
                        assert(prev.prio(i) >= self.prio(xi));
                    } else {
                        assert(prev.prio(i) >= prev.prio(parent(i)));
                    }
                }
                assert forall|i: int|
                    1 <= i < self.slots() && parent(i) == ci implies #[trigger] self.prio(i)
                    >= self.prio(parent(ci)) by {
                    lemma_parent(i);
                    // c's children were bounded by the old value of c, which
                    // now stands at c's parent x
                    assert(parent(i) != xi);
                    assert(prev.prio(i) >= prev.prio(ci));
                    assert(self.prio(parent(ci)) == self.prio(xi));
                }
                assert(self.heap_except_down(ci));
            }
            x = c;
        }
    }
}

} // verus!
