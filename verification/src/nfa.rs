//! Thompson construction: postfix tokens to a completed NFA.
//!
//! The builder consumes postfix tokens left to right, keeping a stack of
//! fragments.  A fragment has a start state and an ordered list of open slot
//! references — transition slots allocated but not yet wired to a successor.
//! Each operator pops fragments, allocates at most one new state, patches
//! open slots, and pushes the combined fragment.  After the last token the
//! one remaining fragment (for the empty pattern: the implicit fragment
//! whose start is the match sentinel itself) has all of its open slots
//! patched to the match sentinel, and the arena is complete.
//!
//! The function is specified against `build_from`, a recursive restatement
//! of the construction; a well-formed postfix input (`postfix_ok`) rules out
//! fragment-stack underflow and a leftover fragment, which would be
//! structural contract violations, not user-facing errors.

use vstd::prelude::*;
use vstd::string::StrSliceExecFns;
use vstd::assert_seqs_equal;
use crate::arena::CharS;
use crate::arena::State;
use crate::arena::StateIndex;
use crate::arena::arena_wf;
use crate::arena::init_arena;
use crate::arena::match_state;
use crate::arena::null_state;
use crate::arena::slab_compact;
use crate::arena::slab_entries;
use crate::arena::slab_get;
use crate::arena::slab_insert;
use crate::arena::slab_new;
use crate::arena::slab_set;
use crate::arena::state;
use crate::postfix::pf_height;
use crate::postfix::pf_step;
use crate::postfix::postfix_ok;

verus! {

/// A partially built NFA: a start state and the open slot references that
/// still need to be wired to this fragment's successor.
pub struct Frag {
    pub start: StateIndex,
    pub out: Vec<StateIndex>,
}

impl Default for Frag {
    fn default() -> (r: Self)
        ensures
            r.start == StateIndex::Index(0usize),
            r.out@ == Seq::<StateIndex>::empty(),
    {
        Self { start: StateIndex::Index(0), out: vec![] }
    }
}

/// Create the singleton open-slot list containing just `outp`.
pub fn list1(outp: StateIndex) -> (r: Vec<StateIndex>)
    ensures
        r@ == seq![outp],
{
    let v = vec![outp];
    proof {
        assert_seqs_equal!(v@, seq![outp]);
    }
    v
}

/// Writing `target` through one slot reference: a plain `Index` or an `out`
/// slot reference writes the state's `out` slot, an `out1` slot reference
/// its `out1` slot.  Out-of-range references leave the arena unchanged (the
/// builder never produces one).
pub open spec fn patch_one(arena: Seq<State>, r: StateIndex, target: StateIndex) -> Seq<State> {
    let j = r.spec_value() as int;
    if 0 <= j < arena.len() {
        match r {
            StateIndex::Index(_) => arena.update(j, (State { out: target, ..arena[j] })),
            StateIndex::DualIndex2out(_) => arena.update(j, (State { out: target, ..arena[j] })),
            StateIndex::DualIndex2out1(_) => arena.update(j, (State { out1: target, ..arena[j] })),
        }
    } else {
        arena
    }
}

/// Writing `target` through every slot reference of `outs`, first to last.
pub open spec fn patch_list(arena: Seq<State>, outs: Seq<StateIndex>, target: StateIndex) -> Seq<State>
    decreases outs.len(),
{
    if outs.len() == 0 {
        arena
    } else {
        patch_list(patch_one(arena, outs[0], target), outs.skip(1), target)
    }
}

/// A fragment as the spec recursion sees it: start and open slots.
pub open spec fn frag_view(f: Frag) -> (StateIndex, Seq<StateIndex>) {
    (f.start, f.out@)
}

pub open spec fn frags_view(fs: Seq<Frag>) -> Seq<(StateIndex, Seq<StateIndex>)> {
    fs.map_values(|f: Frag| frag_view(f))
}

/// Open slot references stay inside the arena and never name a sentinel;
/// fragment starts stay inside the arena.
pub open spec fn frag_wf(f: (StateIndex, Seq<StateIndex>), n: int) -> bool {
    f.0.spec_value() < n && forall|m: int|
        0 <= m < f.1.len() ==> 2 <= (#[trigger] f.1[m]).spec_value() < n
}

pub open spec fn frags_wf(fs: Seq<(StateIndex, Seq<StateIndex>)>, n: int) -> bool {
    forall|k: int| 0 <= k < fs.len() ==> frag_wf(#[trigger] fs[k], n)
}

/// Thompson construction, stated as a recursion over the remaining postfix
/// tokens.  `None` marks a structural contract violation: an operator found
/// too few fragments, or more than one fragment remained at the end.  The
/// match sentinel is the state with key 1; freshly allocated literal and
/// split states leave unset slots at the placeholder key 0.
pub open spec fn build_from(
    p: Seq<char>,
    i: int,
    frags: Seq<(StateIndex, Seq<StateIndex>)>,
    arena: Seq<State>,
) -> Option<(StateIndex, Seq<State>)>
    decreases p.len() - i,
{
    if i < 0 || i >= p.len() {
        if frags.len() == 0 {
            Some((StateIndex::Index(1), arena))
        } else if frags.len() == 1 {
            let e = frags.last();
            Some((e.0, patch_list(arena, e.1, StateIndex::Index(1))))
        } else {
            None
        }
    } else {
        let ch = p[i];
        if ch == '.' {
            if frags.len() < 2 {
                None
            } else {
                let e2 = frags.last();
                let e1 = frags[frags.len() - 2];
                build_from(
                    p,
                    i + 1,
                    frags.drop_last().drop_last().push((e1.0, e2.1)),
                    patch_list(arena, e1.1, e2.0),
                )
            }
        } else if ch == '|' {
            if frags.len() < 2 {
                None
            } else {
                let e2 = frags.last();
                let e1 = frags[frags.len() - 2];
                let idx = arena.len() as usize;
                build_from(
                    p,
                    i + 1,
                    frags.drop_last().drop_last().push((StateIndex::Index(idx), e1.1 + e2.1)),
                    arena.push((State { c: CharS::Split, out: e1.0, out1: e2.0 })),
                )
            }
        } else if ch == '*' {
            if frags.len() < 1 {
                None
            } else {
                let e = frags.last();
                let idx = arena.len() as usize;
                let arena2 = arena.push(
                    (State { c: CharS::Split, out: e.0, out1: StateIndex::Index(0) }),
                );
                build_from(
                    p,
                    i + 1,
                    frags.drop_last().push(
                        (StateIndex::Index(idx), seq![StateIndex::DualIndex2out1(idx)]),
                    ),
                    patch_list(arena2, e.1, StateIndex::Index(idx)),
                )
            }
        } else if ch == '?' {
            if frags.len() < 1 {
                None
            } else {
                let e = frags.last();
                let idx = arena.len() as usize;
                build_from(
                    p,
                    i + 1,
                    frags.drop_last().push(
                        (StateIndex::Index(idx), e.1.push(StateIndex::DualIndex2out1(idx))),
                    ),
                    arena.push((State { c: CharS::Split, out: e.0, out1: StateIndex::Index(0) })),
                )
            }
        } else if ch == '+' {
            if frags.len() < 1 {
                None
            } else {
                let e = frags.last();
                let idx = arena.len() as usize;
                let arena2 = arena.push(
                    (State { c: CharS::Split, out: e.0, out1: StateIndex::Index(0) }),
                );
                build_from(
                    p,
                    i + 1,
                    frags.drop_last().push((e.0, seq![StateIndex::DualIndex2out1(idx)])),
                    patch_list(arena2, e.1, StateIndex::Index(idx)),
                )
            }
        } else {
            let idx = arena.len() as usize;
            build_from(
                p,
                i + 1,
                frags.push((StateIndex::Index(idx), seq![StateIndex::DualIndex2out(idx)])),
                arena.push(
                    (State { c: CharS::Char(ch), out: StateIndex::Index(0), out1: StateIndex::Index(0) }),
                ),
            )
        }
    }
}

/// What compiling a whole postfix sequence yields, from the reserved
/// sentinels and an empty fragment stack.
pub open spec fn spec_build(p: Seq<char>) -> Option<(StateIndex, Seq<State>)> {
    build_from(p, 0, Seq::empty(), init_arena())
}

proof fn lemma_patch_one_props(arena: Seq<State>, r: StateIndex, target: StateIndex)
    ensures
        patch_one(arena, r, target).len() == arena.len(),
        forall|j: int|
            0 <= j < arena.len() && j != r.spec_value() ==> patch_one(arena, r, target)[j]
                == arena[j],
        arena_wf(arena) && target.spec_value() < arena.len() ==> arena_wf(
            patch_one(arena, r, target),
        ),
{
}

proof fn lemma_patch_list_props(arena: Seq<State>, outs: Seq<StateIndex>, target: StateIndex)
    requires
        arena_wf(arena),
        target.spec_value() < arena.len(),
        forall|m: int| 0 <= m < outs.len() ==> 2 <= (#[trigger] outs[m]).spec_value() < arena.len(),
    ensures
        patch_list(arena, outs, target).len() == arena.len(),
        arena_wf(patch_list(arena, outs, target)),
        forall|j: int|
            0 <= j < 2 && j < arena.len() ==> patch_list(arena, outs, target)[j] == arena[j],
    decreases outs.len(),
{
    if outs.len() > 0 {
        lemma_patch_one_props(arena, outs[0], target);
        let arena2 = patch_one(arena, outs[0], target);
        assert(forall|m: int|
            0 <= m < outs.skip(1).len() ==> (#[trigger] outs.skip(1)[m]) == outs[m + 1]);
        lemma_patch_list_props(arena2, outs.skip(1), target);
    }
}

impl Frag {
    /// Patch every open slot in this fragment's list to point to
    /// `state_index`.
    pub fn patch(&self, state_index: StateIndex, states: &mut slab::Slab<State>)
        requires
            slab_compact(*old(states)),
            forall|m: int|
                0 <= m < self.out@.len() ==> (#[trigger] self.out@[m]).spec_value()
                    < slab_entries(*old(states)).len(),
        ensures
            slab_compact(*final(states)),
            slab_entries(*final(states)) == patch_list(
                slab_entries(*old(states)),
                self.out@,
                state_index,
            ),
            slab_entries(*final(states)).len() == slab_entries(*old(states)).len(),
    {
        let ghost arena0 = slab_entries(*states);
        let mut k: usize = 0;
        proof {
            assert(self.out@.skip(0) =~= self.out@);
        }
        while k < self.out.len()
            invariant
                k <= self.out@.len(),
                slab_compact(*states),
                slab_entries(*states).len() == arena0.len(),
                forall|m: int|
                    0 <= m < self.out@.len() ==> (#[trigger] self.out@[m]).spec_value()
                        < arena0.len(),
                patch_list(slab_entries(*states), self.out@.skip(k as int), state_index)
                    == patch_list(arena0, self.out@, state_index),
            decreases self.out@.len() - k,
        {
            let ghost pre = slab_entries(*states);
            let r = self.out[k];
            let j = r.value();
            let mut st = slab_get(states, j);
            match r {
                StateIndex::Index(_) => {
                    st.out = state_index;
                }
                StateIndex::DualIndex2out(_) => {
                    st.out = state_index;
                }
                StateIndex::DualIndex2out1(_) => {
                    st.out1 = state_index;
                }
            }
            slab_set(states, j, st);
            proof {
                assert(slab_entries(*states) == patch_one(pre, r, state_index));
                assert(self.out@.skip(k as int)[0] == r);
                assert(self.out@.skip(k as int).skip(1) =~= self.out@.skip(k + 1));
            }
            k += 1;
        }
        proof {
            assert(self.out@.skip(k as int) =~= Seq::<StateIndex>::empty());
        }
    }

    /// Join the two open-slot lists, `self`'s first.
    pub fn append(&mut self, other: Frag)
        ensures
            final(self).start == old(self).start,
            final(self).out@ == old(self).out@ + other.out@,
    {
        let mut o = other;
        self.out.append(&mut o.out);
    }
}

proof fn lemma_frags_view_push(fs: Seq<Frag>, f: Frag)
    ensures
        frags_view(fs.push(f)) == frags_view(fs).push(frag_view(f)),
{
    assert_seqs_equal!(frags_view(fs.push(f)), frags_view(fs).push(frag_view(f)));
}

proof fn lemma_frags_view_pop(fs: Seq<Frag>)
    requires
        fs.len() > 0,
    ensures
        frags_view(fs).last() == frag_view(fs.last()),
        frags_view(fs).drop_last() == frags_view(fs.drop_last()),
        frags_view(fs).len() == fs.len(),
{
    assert_seqs_equal!(frags_view(fs).drop_last(), frags_view(fs.drop_last()));
}

/// Build the NFA for a well-formed postfix sequence: the start reference and
/// the arena, complete, with every open slot patched to the match sentinel.
pub fn postfix2nfa(postfix: &str) -> (r: (StateIndex, slab::Slab<State>))
    requires
        postfix_ok(postfix@),
        postfix@.len() <= usize::MAX - 2,
    ensures
        slab_compact(r.1),
        arena_wf(slab_entries(r.1)),
        2 <= slab_entries(r.1).len() <= 2 + postfix@.len(),
        r.0.spec_value() < slab_entries(r.1).len(),
        slab_entries(r.1)[0] == null_state(),
        slab_entries(r.1)[1] == match_state(),
        Some((r.0, slab_entries(r.1))) == spec_build(postfix@),
{
    let n = postfix.unicode_len();
    let mut states = slab_new(n);
    let null_index = slab_insert(
        &mut states,
        State { c: CharS::Null, out: StateIndex::Index(0), out1: StateIndex::Index(0) },
    );
    let match_index = slab_insert(
        &mut states,
        State { c: CharS::Match, out: StateIndex::Index(0), out1: StateIndex::Index(0) },
    );
    proof {
        assert(null_index == 0);
        assert(match_index == 1);
        assert(slab_entries(states) =~= init_arena());
    }
    let mut frags: Vec<Frag> = Vec::new();
    let mut i: usize = 0;
    proof {
        assert(frags_view(frags@) =~= Seq::<(StateIndex, Seq<StateIndex>)>::empty());
    }
    while i < n
        invariant
            i <= n,
            n == postfix@.len(),
            n <= usize::MAX - 2,
            postfix_ok(postfix@),
            slab_compact(states),
            2 <= slab_entries(states).len() <= 2 + i,
            slab_entries(states)[0] == null_state(),
            slab_entries(states)[1] == match_state(),
            arena_wf(slab_entries(states)),
            frags_wf(frags_view(frags@), slab_entries(states).len() as int),
            frags_view(frags@).len() == frags@.len(),
            pf_height(postfix@, i as int, frags@.len() as int) == pf_height(postfix@, 0, 0),
            build_from(postfix@, i as int, frags_view(frags@), slab_entries(states))
                == spec_build(postfix@),
        decreases n - i,
    {
        let ch = postfix.get_char(i);
        let ghost pre_frags = frags@;
        let ghost pre_arena = slab_entries(states);
        let ghost fv = frags_view(frags@);
        let ghost h = frags@.len() as int;
        proof {
            // A `None` height would contradict `postfix_ok`, so each
            // operator finds the fragments it needs.
            assert(pf_height(postfix@, i as int, h) == pf_height(postfix@, 0, 0));
            assert(pf_step(h, postfix@[i as int]) is Some);
            match pf_step(h, postfix@[i as int]) {
                Some(h2) => {
                    assert(pf_height(postfix@, i + 1, h2) == pf_height(postfix@, 0, 0));
                }
                None => {
                }
            }
        }
        match ch {
            '.' => {
                let e2 = frags.pop().unwrap();
                let e1 = frags.pop().unwrap();
                proof {
                    lemma_frags_view_pop(pre_frags);
                    lemma_frags_view_pop(pre_frags.drop_last());
                    assert(frag_view(e2) == fv.last());
                    assert(frag_view(e1) == fv[fv.len() - 2]);
                    assert(frag_wf(fv.last(), pre_arena.len() as int));
                    assert(frag_wf(fv[fv.len() - 2], pre_arena.len() as int));
                    assert(e1.out@ == fv[fv.len() - 2].1);
                    lemma_patch_list_props(pre_arena, e1.out@, e2.start);
                }
                e1.patch(e2.start, &mut states);
                let f = Frag { start: e1.start, out: e2.out };
                proof {
                    lemma_frags_view_push(frags@, f);
                }
                frags.push(f);
            }
            '|' => {
                let e2 = frags.pop().unwrap();
                let mut e1 = frags.pop().unwrap();
                proof {
                    lemma_frags_view_pop(pre_frags);
                    lemma_frags_view_pop(pre_frags.drop_last());
                }
                let state_index = state(&mut states, CharS::Split, e1.start, e2.start);
                e1.append(e2);
                let f = Frag { start: state_index, out: e1.out };
                proof {
                    lemma_frags_view_push(frags@, f);
                }
                frags.push(f);
            }
            '*' => {
                let e = frags.pop().unwrap();
                proof {
                    lemma_frags_view_pop(pre_frags);
                }
                let s = state(&mut states, CharS::Split, e.start, StateIndex::Index(0));
                proof {
                    assert(frag_view(e) == fv.last());
                    assert(frag_wf(fv.last(), pre_arena.len() as int));
                    assert(e.out@ == fv.last().1);
                    assert(forall|j: int|
                        0 <= j < pre_arena.len() ==> slab_entries(states)[j] == pre_arena[j]);
                    lemma_patch_list_props(slab_entries(states), e.out@, s);
                }
                e.patch(s, &mut states);
                let f = Frag { start: s, out: list1(s.point2out1()) };
                proof {
                    lemma_frags_view_push(frags@, f);
                }
                frags.push(f);
            }
            '?' => {
                let mut e = frags.pop().unwrap();
                proof {
                    lemma_frags_view_pop(pre_frags);
                }
                let s = state(&mut states, CharS::Split, e.start, StateIndex::Index(0));
                e.out.push(s.point2out1());
                let f = Frag { start: s, out: e.out };
                proof {
                    lemma_frags_view_push(frags@, f);
                }
                frags.push(f);
            }
            '+' => {
                let e = frags.pop().unwrap();
                proof {
                    lemma_frags_view_pop(pre_frags);
                }
                let s = state(&mut states, CharS::Split, e.start, StateIndex::Index(0));
                proof {
                    assert(frag_view(e) == fv.last());
                    assert(frag_wf(fv.last(), pre_arena.len() as int));
                    assert(e.out@ == fv.last().1);
                    assert(forall|j: int|
                        0 <= j < pre_arena.len() ==> slab_entries(states)[j] == pre_arena[j]);
                    lemma_patch_list_props(slab_entries(states), e.out@, s);
                }
                e.patch(s, &mut states);
                let f = Frag { start: e.start, out: list1(s.point2out1()) };
                proof {
                    lemma_frags_view_push(frags@, f);
                }
                frags.push(f);
            }
            _ => {
                let state_index = state(
                    &mut states,
                    CharS::from(ch),
                    StateIndex::Index(0),
                    StateIndex::Index(0),
                );
                let f = Frag { start: state_index, out: list1(state_index.point2out()) };
                proof {
                    lemma_frags_view_push(frags@, f);
                }
                frags.push(f);
            }
        }
        i += 1;
    }
    let ghost end_frags = frags@;
    let e = match frags.pop() {
        Some(e) => {
            proof {
                lemma_frags_view_pop(end_frags);
            }
            e
        },
        None => Frag { start: StateIndex::Index(1), out: Vec::new() },
    };
    proof {
        lemma_patch_list_props(slab_entries(states), e.out@, StateIndex::Index(1));
    }
    e.patch(StateIndex::Index(1), &mut states);
    (e.start, states)
}

} // verus!
