//! NFA simulation with epsilon-closed state sets.
//!
//! The simulator keeps a set of live state keys, always epsilon-closed: no
//! member is a `Split`, because `add_state` follows both slots of a `Split`
//! instead of inserting it.  One set transition is made per input symbol, so
//! a run costs one closure per symbol and never backtracks; the closure
//! walker keeps a visited mark per state, so each state is expanded at most
//! once per call and the live set never exceeds the arena's size.
//!
//! The spec model: `eps_reach` is reachability along `Split` slots,
//! `closure_of` the epsilon closure of a root set restricted to non-`Split`
//! states, `sim_sets` the live set after consuming an input, and
//! `spec_accepts` whole-string acceptance.

use vstd::prelude::*;
use crate::arena::CharS;
use crate::arena::State;
use crate::arena::StateIndex;
use crate::arena::arena_wf;
use crate::arena::slab_compact;
use crate::arena::slab_entries;
use crate::arena::slab_get;

verus! {

/// One unlabelled hop: `a` is a `Split` and `b` is named by one of its
/// slots.
pub open spec fn eps_edge(arena: Seq<State>, a: usize, b: usize) -> bool {
    a < arena.len() && arena[a as int].c is Split && (b == arena[a as int].out.spec_value() || b
        == arena[a as int].out1.spec_value())
}

/// `p` walks from `a` to `b` along unlabelled hops.
pub open spec fn eps_path(arena: Seq<State>, p: Seq<usize>, a: usize, b: usize) -> bool {
    p.len() >= 1 && p[0] == a && p.last() == b && forall|k: int|
        0 <= k < p.len() - 1 ==> eps_edge(arena, #[trigger] p[k], p[k + 1])
}

#[verifier::opaque]
pub open spec fn eps_reach(arena: Seq<State>, a: usize, b: usize) -> bool {
    exists|p: Seq<usize>| eps_path(arena, p, a, b)
}

/// The epsilon closure of `roots`: every non-`Split` state reachable from a
/// root along `Split` slots (a root that is not a `Split` reaches itself).
pub open spec fn closure_of(arena: Seq<State>, roots: Set<usize>) -> Set<usize> {
    Set::new(
        |j: usize|
            j < arena.len() && !(arena[j as int].c is Split) && exists|a: usize|
                roots.contains(a) && eps_reach(arena, a, j),
    )
}

/// The slot targets reached by consuming `ch` from `cur`: the `out` slot of
/// every member that is a literal labelled `ch`.
pub open spec fn move_roots(arena: Seq<State>, cur: Set<usize>, ch: char) -> Set<usize> {
    Set::new(
        |b: usize|
            exists|a: usize|
                cur.contains(a) && a < arena.len() && arena[a as int].c == CharS::Char(ch) && b
                    == arena[a as int].out.spec_value(),
    )
}

/// One simulation step past `ch`.
pub open spec fn step_set(arena: Seq<State>, cur: Set<usize>, ch: char) -> Set<usize> {
    closure_of(arena, move_roots(arena, cur, ch))
}

/// The live set after consuming `input`, starting from `start`.
pub open spec fn sim_sets(arena: Seq<State>, start: usize, input: Seq<char>) -> Set<usize>
    decreases input.len(),
{
    if input.len() == 0 {
        closure_of(arena, set![start])
    } else {
        step_set(arena, sim_sets(arena, start, input.drop_last()), input.last())
    }
}

pub open spec fn has_match(arena: Seq<State>, s: Set<usize>) -> bool {
    exists|j: usize| s.contains(j) && j < arena.len() && arena[j as int].c is Match
}

/// Whole-string acceptance: after consuming all of `input` the live set
/// holds the match sentinel.
pub open spec fn spec_accepts(arena: Seq<State>, start: usize, input: Seq<char>) -> bool {
    has_match(arena, sim_sets(arena, start, input))
}

/// A live-state set: a visited mark per state key plus the list of live
/// (non-`Split`) members.  The marks make closure insertion terminate and
/// keep it from expanding any state twice, even on `Split` cycles such as
/// the one a doubled `*` builds.
pub struct StateSet {
    pub bits: Vec<bool>,
    pub items: Vec<usize>,
}

impl StateSet {
    /// The members, as a set of state keys.
    pub open spec fn as_set(self) -> Set<usize> {
        Set::new(|j: usize| self.items@.contains(j))
    }

    /// Whether `j` has been visited by closure insertion.
    pub open spec fn marked(self, j: usize) -> bool {
        j < self.bits@.len() && self.bits@[j as int]
    }

    /// The set is well formed for `arena` and epsilon-closed: every visited
    /// `Split` has both successors visited, and every visited non-`Split`
    /// is a member.
    pub open spec fn inv(self, arena: Seq<State>) -> bool {
        &&& self.bits@.len() == arena.len()
        &&& self.items@.no_duplicates()
        &&& forall|k: int| 0 <= k < self.items@.len() ==> self.marked(#[trigger] self.items@[k])
        &&& forall|j: usize, b: usize|
            #[trigger] self.marked(j) && #[trigger] eps_edge(arena, j, b) ==> self.marked(b)
        &&& forall|j: usize|
            #[trigger] self.marked(j) && !(arena[j as int].c is Split) ==> self.items@.contains(j)
    }

    /// An empty set over `n` states.
    pub fn new(n: usize) -> (r: StateSet)
        ensures
            r.bits@.len() == n,
            r.items@ == Seq::<usize>::empty(),
            forall|j: usize| !r.marked(j),
            r.as_set() == Set::<usize>::empty(),
    {
        let r = StateSet { bits: vec![false; n], items: Vec::new() };
        proof {
            assert(r.as_set() =~= Set::<usize>::empty());
        }
        r
    }

    /// Empty the set, keeping its capacity.
    pub fn clear(&mut self)
        ensures
            final(self).bits@.len() == old(self).bits@.len(),
            final(self).items@ == Seq::<usize>::empty(),
            forall|j: usize| !final(self).marked(j),
            final(self).as_set() == Set::<usize>::empty(),
    {
        self.items.clear();
        let n = self.bits.len();
        let mut j: usize = 0;
        while j < n
            invariant
                j <= n,
                n == self.bits@.len(),
                self.items@ == Seq::<usize>::empty(),
                forall|t: int| 0 <= t < j ==> !self.bits@[t],
            decreases n - j,
        {
            self.bits[j] = false;
            j += 1;
        }
        proof {
            assert(self.as_set() =~= Set::<usize>::empty());
        }
    }
}

proof fn lemma_reach_refl(arena: Seq<State>, a: usize)
    ensures
        eps_reach(arena, a, a),
{
    reveal(eps_reach);
    let p = seq![a];
    assert(eps_path(arena, p, a, a));
}

proof fn lemma_reach_extend(arena: Seq<State>, s: usize, j: usize, c: usize)
    requires
        eps_reach(arena, s, j),
        eps_edge(arena, j, c),
    ensures
        eps_reach(arena, s, c),
{
    reveal(eps_reach);
    let p = choose|p: Seq<usize>| eps_path(arena, p, s, j);
    let p2 = p.push(c);
    assert(p2.last() == c);
    assert(forall|k: int| 0 <= k < p.len() ==> p2[k] == p[k]);
    assert(eps_path(arena, p2, s, c));
}

/// In a closed marked set, marks absorb epsilon reachability.
proof fn lemma_closed_absorbs(arena: Seq<State>, ss: StateSet, p: Seq<usize>, a: usize, b: usize)
    requires
        ss.bits@.len() == arena.len(),
        forall|j: usize, c: usize|
            #[trigger] ss.marked(j) && #[trigger] eps_edge(arena, j, c) ==> ss.marked(c),
        eps_path(arena, p, a, b),
        ss.marked(a),
    ensures
        ss.marked(b),
    decreases p.len(),
{
    if p.len() == 1 {
        assert(b == a);
    } else {
        assert(eps_edge(arena, p[0], p[1]));
        assert(ss.marked(p[1]));
        let p2 = p.skip(1);
        assert(p2.len() == p.len() - 1);
        assert(p2[0] == p[1]);
        assert(p2.last() == b);
        assert(forall|k: int|
            0 <= k < p2.len() - 1 ==> (#[trigger] p2[k]) == p[k + 1] && p2[k + 1] == p[k + 2]);
        assert(eps_path(arena, p2, p[1], b));
        lemma_closed_absorbs(arena, ss, p2, p[1], b);
    }
}

spec fn count_false(b: Seq<bool>) -> nat
    decreases b.len(),
{
    if b.len() == 0 {
        0
    } else {
        count_false(b.drop_last()) + if b.last() {
            0nat
        } else {
            1nat
        }
    }
}

proof fn lemma_count_false_update(b: Seq<bool>, j: int)
    requires
        0 <= j < b.len(),
        !b[j],
    ensures
        count_false(b.update(j, true)) < count_false(b),
    decreases b.len(),
{
    let b2 = b.update(j, true);
    if j == b.len() - 1 {
        assert(b2.drop_last() =~= b.drop_last());
    } else {
        assert(b2.drop_last() =~= b.drop_last().update(j, true));
        lemma_count_false_update(b.drop_last(), j);
        assert(b2.last() == b.last());
    }
}

/// Insert into `set` every non-`Split` state reachable from `start_idx`
/// along unlabelled slots, following `Split` states instead of inserting
/// them.  Insertion is idempotent: states already visited are not expanded
/// again.
#[verifier::rlimit(100)]
pub fn add_state(set: &mut StateSet, start_idx: usize, states: &slab::Slab<State>)
    requires
        slab_compact(*states),
        arena_wf(slab_entries(*states)),
        old(set).inv(slab_entries(*states)),
        start_idx < slab_entries(*states).len(),
    ensures
        final(set).inv(slab_entries(*states)),
        final(set).as_set() == old(set).as_set().union(
            closure_of(slab_entries(*states), set![start_idx]),
        ),
{
    let ghost arena = slab_entries(*states);
    let ghost set0 = *set;
    let ghost old_items = old(set).items@;
    let mut work: Vec<usize> = Vec::new();
    work.push(start_idx);
    proof {
        lemma_reach_refl(arena, start_idx);
        assert(work@[0] == start_idx);
        assert(work@.contains(start_idx));
    }
    while work.len() > 0
        invariant
            slab_compact(*states),
            arena == slab_entries(*states),
            arena_wf(arena),
            start_idx < arena.len(),
            set.bits@.len() == arena.len(),
            set.items@.no_duplicates(),
            forall|k: int| 0 <= k < set.items@.len() ==> set.marked(#[trigger] set.items@[k]),
            forall|j: usize, b: usize|
                #[trigger] set.marked(j) && #[trigger] eps_edge(arena, j, b) ==> set.marked(b)
                    || work@.contains(b),
            forall|j: usize|
                #[trigger] set.marked(j) && !(arena[j as int].c is Split)
                    ==> set.items@.contains(j),
            forall|w: int|
                0 <= w < work@.len() ==> (#[trigger] work@[w]) < arena.len() && eps_reach(
                    arena,
                    start_idx,
                    work@[w],
                ),
            forall|j: usize|
                #[trigger] set.marked(j) ==> set0.marked(j) || eps_reach(arena, start_idx, j),
            old_items.is_prefix_of(set.items@),
            forall|t: int|
                old_items.len() <= t < set.items@.len() ==> (#[trigger] set.items@[t])
                    < arena.len() && !(arena[set.items@[t] as int].c is Split) && eps_reach(
                    arena,
                    start_idx,
                    set.items@[t],
                ),
            set.marked(start_idx) || work@.contains(start_idx),
        decreases count_false(set.bits@), work@.len(),
    {
        let ghost pre_work = work@;
        let ghost pre_bits = set.bits@;
        let ghost pre_set = *set;
        let j = work.pop().unwrap();
        proof {
            assert(j == pre_work.last());
            assert(pre_work.contains(j));
            assert(work@ == pre_work.drop_last());
            assert forall|x: usize| #[trigger] pre_work.contains(x) implies work@.contains(x) || x
                == j by {
                let w = choose|w: int| 0 <= w < pre_work.len() && pre_work[w] == x;
                if w < pre_work.len() - 1 {
                    assert(work@[w] == x);
                }
            }
            assert(forall|w: int|
                0 <= w < work@.len() ==> (#[trigger] work@[w]) == pre_work[w]);
        }
        let ghost mid_work = work@;
        let m = self_bit(set, j);
        if !m {
            set.bits[j] = true;
            proof {
                lemma_count_false_update(pre_bits, j as int);
                assert(forall|x: usize| #[trigger] pre_set.marked(x) ==> set.marked(x));
                assert(set.marked(j));
                assert(eps_reach(arena, start_idx, j)) by {
                    assert(pre_work[pre_work.len() - 1] == j);
                }
            }
            let st = slab_get(states, j);
            match st.c {
                CharS::Split => {
                    work.push(st.out.value());
                    work.push(st.out1.value());
                    proof {
                        lemma_reach_extend(arena, start_idx, j, st.out.spec_value());
                        lemma_reach_extend(arena, start_idx, j, st.out1.spec_value());
                        assert(work@ == mid_work.push(st.out.spec_value()).push(
                            st.out1.spec_value(),
                        ));
                        assert forall|x: usize| mid_work.contains(x) || x == st.out.spec_value()
                            || x == st.out1.spec_value() implies #[trigger] work@.contains(x) by {
                            if mid_work.contains(x) {
                                let w = choose|w: int|
                                    0 <= w < mid_work.len() && mid_work[w] == x;
                                assert(work@[w] == x);
                            } else if x == st.out.spec_value() {
                                assert(work@[work@.len() - 2] == x);
                            } else {
                                assert(work@[work@.len() - 1] == x);
                            }
                        }
                        assert forall|w: int| 0 <= w < work@.len() implies (#[trigger] work@[w])
                            < arena.len() && eps_reach(arena, start_idx, work@[w]) by {
                            if w < mid_work.len() {
                                assert(work@[w] == mid_work[w]);
                            }
                        }
                        assert forall|j2: usize, b: usize|
                            #[trigger] set.marked(j2) && #[trigger] eps_edge(arena, j2, b)
                            implies set.marked(b) || work@.contains(b) by {
                            if j2 == j {
                                assert(b == st.out.spec_value() || b == st.out1.spec_value());
                                assert(work@.contains(b));
                            } else {
                                assert(pre_set.marked(j2));
                                if !pre_set.marked(b) {
                                    assert(pre_work.contains(b));
                                    if b == j {
                                        assert(set.marked(b));
                                    } else {
                                        assert(mid_work.contains(b));
                                        assert(work@.contains(b));
                                    }
                                }
                            }
                        }
                        assert forall|j2: usize|
                            #[trigger] set.marked(j2) && !(arena[j2 as int].c is Split)
                            implies set.items@.contains(j2) by {
                            assert(j2 != j);
                            assert(pre_set.marked(j2));
                        }
                    }
                }
                _ => {
                    let ghost pre_items = set.items@;
                    set.items.push(j);
                    proof {
                        assert(!pre_items.contains(j)) by {
                            if pre_items.contains(j) {
                                let t = choose|t: int|
                                    0 <= t < pre_items.len() && pre_items[t] == j;
                                assert(pre_set.marked(pre_items[t]));
                            }
                        }
                        assert(set.items@ == pre_items.push(j));
                        assert(set.items@.last() == j);
                        assert forall|x: usize| pre_items.contains(x) || x == j
                            implies #[trigger] set.items@.contains(x) by {
                            if pre_items.contains(x) {
                                let t = choose|t: int|
                                    0 <= t < pre_items.len() && pre_items[t] == x;
                                assert(set.items@[t] == x);
                            } else {
                                assert(set.items@[set.items@.len() - 1] == x);
                            }
                        }
                        assert forall|j2: usize, b: usize|
                            #[trigger] set.marked(j2) && #[trigger] eps_edge(arena, j2, b)
                            implies set.marked(b) || work@.contains(b) by {
                            if j2 == j {
                                assert(arena[j2 as int].c is Split);
                            } else {
                                assert(pre_set.marked(j2));
                                if !pre_set.marked(b) {
                                    assert(pre_work.contains(b));
                                    if b == j {
                                        assert(set.marked(b));
                                    } else {
                                        assert(mid_work.contains(b));
                                    }
                                }
                            }
                        }
                        assert forall|j2: usize|
                            #[trigger] set.marked(j2) && !(arena[j2 as int].c is Split)
                            implies set.items@.contains(j2) by {
                            if j2 != j {
                                assert(pre_set.marked(j2));
                                assert(pre_items.contains(j2));
                            }
                        }
                    }
                }
            }
        } else {
            proof {
                assert(set.marked(j));
                assert forall|j2: usize, b: usize|
                    #[trigger] set.marked(j2) && #[trigger] eps_edge(arena, j2, b)
                    implies set.marked(b) || work@.contains(b) by {
                    if !set.marked(b) {
                        assert(pre_work.contains(b));
                        assert(b != j);
                        assert(mid_work.contains(b));
                    }
                }
            }
        }
        proof {
            assert forall|x: usize| #[trigger] set.marked(x) implies set0.marked(x) || eps_reach(
                arena,
                start_idx,
                x,
            ) by {
                if x != j {
                    assert(pre_set.marked(x));
                }
            }
        }
    }
    proof {
        reveal(eps_reach);
        let fin = *set;
        let target = old(set).as_set().union(closure_of(arena, set![start_idx]));
        assert forall|j: usize| fin.as_set().contains(j) implies target.contains(j) by {
            let t = choose|t: int| 0 <= t < fin.items@.len() && fin.items@[t] == j;
            if t < old_items.len() {
                assert(old_items[t] == j);
                assert(old(set).as_set().contains(j));
            } else {
                assert(set![start_idx].contains(start_idx));
                assert(eps_reach(arena, start_idx, j));
                assert(closure_of(arena, set![start_idx]).contains(j));
            }
        }
        assert forall|j: usize| target.contains(j) implies fin.as_set().contains(j) by {
            if old(set).as_set().contains(j) {
                let t = choose|t: int| 0 <= t < old_items.len() && old_items[t] == j;
                assert(fin.items@[t] == j);
            } else {
                let a = choose|a: usize|
                    set![start_idx].contains(a) && eps_reach(arena, a, j);
                assert(a == start_idx);
                let p = choose|p: Seq<usize>| eps_path(arena, p, a, j);
                lemma_closed_absorbs(arena, fin, p, a, j);
                assert(fin.marked(j));
                assert(fin.items@.contains(j));
            }
        }
        assert(fin.as_set() =~= target);
    }
}

proof fn lemma_closure_insert(arena: Seq<State>, roots: Set<usize>, b: usize)
    ensures
        closure_of(arena, roots.insert(b)) == closure_of(arena, roots).union(
            closure_of(arena, set![b]),
        ),
{
    let lhs = closure_of(arena, roots.insert(b));
    let rhs = closure_of(arena, roots).union(closure_of(arena, set![b]));
    assert forall|j: usize| lhs.contains(j) implies rhs.contains(j) by {
        let a = choose|a: usize| roots.insert(b).contains(a) && eps_reach(arena, a, j);
        if roots.contains(a) {
            assert(closure_of(arena, roots).contains(j));
        } else {
            assert(a == b);
            assert(set![b].contains(a));
            assert(closure_of(arena, set![b]).contains(j));
        }
    }
    assert forall|j: usize| rhs.contains(j) implies lhs.contains(j) by {
        if closure_of(arena, roots).contains(j) {
            let a = choose|a: usize| roots.contains(a) && eps_reach(arena, a, j);
            assert(roots.insert(b).contains(a));
        } else {
            let a = choose|a: usize| set![b].contains(a) && eps_reach(arena, a, j);
            assert(a == b);
            assert(roots.insert(b).contains(a));
        }
    }
    assert(lhs =~= rhs);
}

proof fn lemma_move_roots_insert(arena: Seq<State>, cur: Set<usize>, a: usize, ch: char)
    requires
        a < arena.len(),
    ensures
        arena[a as int].c == CharS::Char(ch) ==> move_roots(arena, cur.insert(a), ch)
            == move_roots(arena, cur, ch).insert(arena[a as int].out.spec_value()),
        arena[a as int].c != CharS::Char(ch) ==> move_roots(arena, cur.insert(a), ch)
            == move_roots(arena, cur, ch),
{
    let lhs = move_roots(arena, cur.insert(a), ch);
    let m = move_roots(arena, cur, ch);
    if arena[a as int].c == CharS::Char(ch) {
        let o = arena[a as int].out.spec_value();
        assert forall|x: usize| lhs.contains(x) implies m.insert(o).contains(x) by {
            let w = choose|w: usize|
                cur.insert(a).contains(w) && w < arena.len() && arena[w as int].c == CharS::Char(
                    ch,
                ) && x == arena[w as int].out.spec_value();
            if cur.contains(w) {
                assert(m.contains(x));
            }
        }
        assert forall|x: usize| m.insert(o).contains(x) implies lhs.contains(x) by {
            if m.contains(x) {
                let w = choose|w: usize|
                    cur.contains(w) && w < arena.len() && arena[w as int].c == CharS::Char(ch) && x
                        == arena[w as int].out.spec_value();
                assert(cur.insert(a).contains(w));
            } else {
                assert(cur.insert(a).contains(a));
            }
        }
        assert(lhs =~= m.insert(o));
    } else {
        assert forall|x: usize| lhs.contains(x) implies m.contains(x) by {
            let w = choose|w: usize|
                cur.insert(a).contains(w) && w < arena.len() && arena[w as int].c == CharS::Char(
                    ch,
                ) && x == arena[w as int].out.spec_value();
            assert(w != a);
            assert(cur.contains(w));
        }
        assert forall|x: usize| m.contains(x) implies lhs.contains(x) by {
            let w = choose|w: usize|
                cur.contains(w) && w < arena.len() && arena[w as int].c == CharS::Char(ch) && x
                    == arena[w as int].out.spec_value();
            assert(cur.insert(a).contains(w));
        }
        assert(lhs =~= m);
    }
}

/// The members among the first `k` entries of `s`.
pub open spec fn prefix_set(s: Seq<usize>, k: int) -> Set<usize> {
    Set::new(|j: usize| s.take(k).contains(j))
}

/// Step the NFA from the states in `cset` past the character `ch`, storing
/// the next epsilon-closed live set in `nset`.  Members that are not
/// literals labelled `ch` contribute nothing.
pub fn step(ch: char, cset: &StateSet, nset: &mut StateSet, states: &slab::Slab<State>)
    requires
        slab_compact(*states),
        arena_wf(slab_entries(*states)),
        cset.inv(slab_entries(*states)),
        old(nset).bits@.len() == slab_entries(*states).len(),
    ensures
        final(nset).inv(slab_entries(*states)),
        final(nset).as_set() == step_set(slab_entries(*states), cset.as_set(), ch),
{
    let ghost arena = slab_entries(*states);
    nset.clear();
    proof {
        assert(nset.inv(arena));
        assert(cset.items@.take(0) =~= Seq::<usize>::empty());
        assert(prefix_set(cset.items@, 0) =~= Set::<usize>::empty());
        assert forall|x: usize|
            closure_of(arena, move_roots(arena, prefix_set(cset.items@, 0), ch)).contains(x)
            implies false by {
            let a = choose|a: usize|
                move_roots(arena, prefix_set(cset.items@, 0), ch).contains(a) && eps_reach(
                    arena,
                    a,
                    x,
                );
        }
        assert(nset.as_set() =~= closure_of(arena, move_roots(arena, prefix_set(cset.items@, 0), ch)));
    }
    let mut k: usize = 0;
    while k < cset.items.len()
        invariant
            slab_compact(*states),
            arena == slab_entries(*states),
            arena_wf(arena),
            cset.inv(arena),
            k <= cset.items@.len(),
            nset.inv(arena),
            nset.as_set() == closure_of(arena, move_roots(arena, prefix_set(cset.items@, k as int), ch)),
        decreases cset.items@.len() - k,
    {
        let ghost pk = prefix_set(cset.items@, k as int);
        let idx = cset.items[k];
        proof {
            assert(cset.marked(idx));
            assert forall|x: usize| prefix_set(cset.items@, k + 1).contains(x) implies pk.insert(
                idx,
            ).contains(x) by {
                let t = choose|t: int|
                    0 <= t < cset.items@.take(k + 1).len() && (#[trigger] cset.items@.take(
                        k + 1,
                    )[t]) == x;
                if t < k {
                    assert(cset.items@.take(k as int)[t] == x);
                }
            }
            assert forall|x: usize| pk.insert(idx).contains(x) implies prefix_set(
                cset.items@,
                k + 1,
            ).contains(x) by {
                if pk.contains(x) {
                    let t = choose|t: int|
                        0 <= t < cset.items@.take(k as int).len() && (#[trigger] cset.items@.take(
                            k as int,
                        )[t]) == x;
                    assert(cset.items@.take(k + 1)[t] == x);
                } else {
                    assert(cset.items@.take(k + 1)[k as int] == x);
                }
            }
            assert(prefix_set(cset.items@, k + 1) =~= pk.insert(idx));
            lemma_move_roots_insert(arena, pk, idx, ch);
        }
        let st = slab_get(states, idx);
        if st.c == CharS::from(ch) {
            proof {
                lemma_closure_insert(arena, move_roots(arena, pk, ch), st.out.spec_value());
            }
            add_state(nset, st.out.value(), states);
        }
        k += 1;
    }
    proof {
        assert(cset.items@.take(cset.items@.len() as int) =~= cset.items@);
        assert forall|x: usize| prefix_set(cset.items@, cset.items@.len() as int).contains(x)
            implies cset.as_set().contains(x) by {
        }
        assert(prefix_set(cset.items@, cset.items@.len() as int) =~= cset.as_set());
    }
}

/// Check whether the live set contains the match sentinel.
pub fn is_match(set: &StateSet, states: &slab::Slab<State>) -> (r: bool)
    requires
        slab_compact(*states),
        set.inv(slab_entries(*states)),
    ensures
        r == has_match(slab_entries(*states), set.as_set()),
{
    let ghost arena = slab_entries(*states);
    let mut k: usize = 0;
    while k < set.items.len()
        invariant
            slab_compact(*states),
            arena == slab_entries(*states),
            set.inv(arena),
            k <= set.items@.len(),
            forall|t: int| 0 <= t < k ==> !(arena[(#[trigger] set.items@[t]) as int].c is Match),
        decreases set.items@.len() - k,
    {
        let idx = set.items[k];
        proof {
            assert(set.marked(idx));
        }
        let st = slab_get(states, idx);
        if st.c == CharS::Match {
            proof {
                assert(set.as_set().contains(idx));
            }
            return true;
        }
        k += 1;
    }
    proof {
        assert forall|j: usize| set.as_set().contains(j) implies !(j < arena.len()
            && arena[j as int].c is Match) by {
            let t = choose|t: int| 0 <= t < set.items@.len() && set.items@[t] == j;
        }
    }
    false
}

/// Run the NFA to determine whether it matches the whole string.
pub fn match_expr(string: &str, start: StateIndex, states: &slab::Slab<State>) -> (r: bool)
    requires
        slab_compact(*states),
        arena_wf(slab_entries(*states)),
        start.spec_value() < slab_entries(*states).len(),
    ensures
        r == spec_accepts(slab_entries(*states), start.spec_value(), string@),
{
    let ghost arena = slab_entries(*states);
    let n_states = crate::arena::slab_len(states);
    let mut cset = StateSet::new(n_states);
    let mut nset = StateSet::new(n_states);
    proof {
        assert(cset.inv(arena));
    }
    add_state(&mut cset, start.value(), states);
    proof {
        assert(string@.take(0) =~= Seq::<char>::empty());
        assert(cset.as_set() =~= closure_of(arena, set![start.spec_value()]));
        assert(cset.as_set() == sim_sets(arena, start.spec_value(), string@.take(0)));
    }
    let n = string.unicode_len();
    let mut i: usize = 0;
    while i < n
        invariant
            slab_compact(*states),
            arena == slab_entries(*states),
            arena_wf(arena),
            start.spec_value() < arena.len(),
            i <= n,
            n == string@.len(),
            cset.inv(arena),
            nset.bits@.len() == arena.len(),
            cset.as_set() == sim_sets(arena, start.spec_value(), string@.take(i as int)),
        decreases n - i,
    {
        let ch = string.get_char(i);
        step(ch, &cset, &mut nset, states);
        core::mem::swap(&mut cset, &mut nset);
        proof {
            assert(string@.take(i + 1).drop_last() =~= string@.take(i as int));
            assert(string@.take(i + 1).last() == string@[i as int]);
            assert(sim_sets(arena, start.spec_value(), string@.take(i + 1)) == step_set(
                arena,
                sim_sets(arena, start.spec_value(), string@.take(i as int)),
                string@[i as int],
            ));
        }
        i += 1;
    }
    proof {
        assert(string@.take(n as int) =~= string@);
    }
    is_match(&cset, states)
}

/// From a state that is not a `Split`, no other state is epsilon-reachable.
proof fn lemma_reach_from_nonsplit(arena: Seq<State>, a: usize, b: usize)
    requires
        eps_reach(arena, a, b),
        !(a < arena.len() && arena[a as int].c is Split),
    ensures
        b == a,
{
    reveal(eps_reach);
    let p = choose|p: Seq<usize>| eps_path(arena, p, a, b);
    if p.len() > 1 {
        assert(eps_edge(arena, p[0], p[1]));
    }
}

proof fn lemma_uset_len(n: nat)
    requires
        n <= usize::MAX,
    ensures
        (Set::new(|i: usize| (i as int) < n)).finite(),
        (Set::new(|i: usize| (i as int) < n)).len() == n,
    decreases n,
{
    let u = Set::new(|i: usize| (i as int) < n);
    if n == 0 {
        assert(u =~= Set::<usize>::empty());
    } else {
        lemma_uset_len((n - 1) as nat);
        let u1 = Set::new(|i: usize| (i as int) < n - 1);
        assert(!u1.contains((n - 1) as usize));
        assert(u =~= u1.insert((n - 1) as usize));
    }
}

/// A live set never holds more members than the automaton has states, so
/// each simulation step costs at most one closure walk over the arena,
/// however deeply the pattern nests its operators.
pub proof fn lemma_live_set_bounded(ss: StateSet, arena: Seq<State>)
    requires
        ss.inv(arena),
        arena.len() <= usize::MAX,
    ensures
        ss.items@.len() <= arena.len(),
{
    let n = arena.len();
    ss.items@.unique_seq_to_set();
    let u = Set::new(|i: usize| (i as int) < n);
    lemma_uset_len(n);
    assert forall|x: usize| ss.items@.to_set().contains(x) implies u.contains(x) by {
        assert(ss.items@.contains(x));
        let t = choose|t: int| 0 <= t < ss.items@.len() && ss.items@[t] == x;
        assert(ss.marked(ss.items@[t]));
    }
    vstd::set_lib::lemma_len_subset(ss.items@.to_set(), u);
}

/// The live sets of the two-state automaton whose start is the match
/// sentinel itself: the sentinel alone for the empty input, nothing
/// afterwards.
proof fn lemma_sentinel_sim_sets(input: Seq<char>)
    ensures
        input.len() == 0 ==> sim_sets(crate::arena::init_arena(), 1, input) == set![1usize],
        input.len() > 0 ==> sim_sets(crate::arena::init_arena(), 1, input) == Set::<usize>::empty(),
    decreases input.len(),
{
    let arena = crate::arena::init_arena();
    if input.len() == 0 {
        lemma_reach_refl(arena, 1);
        assert(set![1usize].contains(1usize));
        assert(closure_of(arena, set![1usize]).contains(1usize));
        assert forall|j: usize| closure_of(arena, set![1usize]).contains(j) implies set![1usize].contains(
            j,
        ) by {
            let a = choose|a: usize| set![1usize].contains(a) && eps_reach(arena, a, j);
            assert(a == 1);
            lemma_reach_from_nonsplit(arena, 1, j);
        }
        assert(closure_of(arena, set![1usize]) =~= set![1usize]);
    } else {
        lemma_sentinel_sim_sets(input.drop_last());
        let prev = sim_sets(arena, 1, input.drop_last());
        let ch = input.last();
        assert forall|b: usize| move_roots(arena, prev, ch).contains(b) implies false by {
            let a = choose|a: usize|
                prev.contains(a) && a < arena.len() && arena[a as int].c == CharS::Char(ch) && b
                    == arena[a as int].out.spec_value();
            assert(a == 1);
        }
        assert(move_roots(arena, prev, ch) =~= Set::<usize>::empty());
        assert forall|j: usize|
            closure_of(arena, Set::<usize>::empty()).contains(j) implies false by {
            let a = choose|a: usize| Set::<usize>::empty().contains(a) && eps_reach(arena, a, j);
        }
        assert(sim_sets(arena, 1, input) =~= Set::<usize>::empty());
    }
}

/// The two-state automaton whose start is the match sentinel accepts
/// exactly the empty input.
pub proof fn lemma_sentinel_accepts(input: Seq<char>)
    ensures
        spec_accepts(crate::arena::init_arena(), 1, input) == (input.len() == 0),
{
    let arena = crate::arena::init_arena();
    lemma_sentinel_sim_sets(input);
    if input.len() == 0 {
        assert(sim_sets(arena, 1, input).contains(1usize));
        assert(has_match(arena, sim_sets(arena, 1, input)));
    } else {
        assert forall|j: usize|
            sim_sets(arena, 1, input).contains(j) implies false by {
        }
    }
}

/// Read one visited mark.
fn self_bit(set: &StateSet, j: usize) -> (r: bool)
    requires
        j < set.bits@.len(),
    ensures
        r == set.bits@[j as int],
{
    set.bits[j]
}

} // verus!
