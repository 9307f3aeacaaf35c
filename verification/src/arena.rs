//! NFA states and the arena that owns them.
//!
//! States are stored in a `slab::Slab` and named by stable integer keys.
//! Two sentinel keys are reserved by the builder: key 0 is the placeholder
//! ("null") state and key 1 is the accepting ("match") state.  The slab is
//! used append-only, so its keys are handed out consecutively from 0; the
//! spec-level model of the arena is the sequence of its states in key order.

use vstd::prelude::*;

verus! {

/// The tag of an NFA state.
///
/// `Char(c)` carries one transition labelled `c` in its `out` slot; `Split`
/// has two unlabelled transitions `out` and `out1`; `Match` is the accepting
/// sentinel; `Null` is the placeholder sentinel.
#[derive(Debug, Clone, Copy, PartialEq, Eq, Structural)]
pub enum CharS {
    Char(char),
    Split,
    Match,
    Null,
}

impl From<char> for CharS {
    fn from(ch: char) -> (r: Self) {
        CharS::Char(ch)
    }
}

impl vstd::std_specs::convert::FromSpecImpl<char> for CharS {
    open spec fn obeys_from_spec() -> bool {
        true
    }

    open spec fn from_spec(ch: char) -> Self {
        CharS::Char(ch)
    }
}

/// A reference either to a state itself (`Index`) or to one of its two
/// transition slots.  The slot forms name a deferred-write target during
/// construction: patching `DualIndex2out(i)` writes the `out` slot of the
/// state with key `i`, and `DualIndex2out1(i)` its `out1` slot.
#[derive(Debug, Clone, Copy, PartialEq, Eq, Hash, Structural)]
pub enum StateIndex {
    Index(usize),
    DualIndex2out(usize),
    DualIndex2out1(usize),
}

impl From<usize> for StateIndex {
    fn from(index: usize) -> (r: Self) {
        Self::Index(index)
    }
}

impl vstd::std_specs::convert::FromSpecImpl<usize> for StateIndex {
    open spec fn obeys_from_spec() -> bool {
        true
    }

    open spec fn from_spec(index: usize) -> Self {
        StateIndex::Index(index)
    }
}

impl StateIndex {
    /// The state key this reference points at, whichever slot it selects.
    pub open spec fn spec_value(self) -> usize {
        match self {
            StateIndex::Index(index) => index,
            StateIndex::DualIndex2out(dual_index) => dual_index,
            StateIndex::DualIndex2out1(dual_index) => dual_index,
        }
    }

    pub fn value(&self) -> (r: usize)
        ensures
            r == self.spec_value(),
    {
        match self {
            StateIndex::Index(index) => *index,
            StateIndex::DualIndex2out(dual_index) => *dual_index,
            StateIndex::DualIndex2out1(dual_index) => *dual_index,
        }
    }

    /// The reference to the `out` slot of the state this reference names.
    pub fn point2out(self) -> (r: StateIndex)
        ensures
            r == StateIndex::DualIndex2out(self.spec_value()),
    {
        StateIndex::DualIndex2out(self.value())
    }

    /// The reference to the `out1` slot of the state this reference names.
    pub fn point2out1(self) -> (r: StateIndex)
        ensures
            r == StateIndex::DualIndex2out1(self.spec_value()),
    {
        StateIndex::DualIndex2out1(self.value())
    }
}

/// One NFA state: a tag plus two transition slots.
///
/// Only `Split` follows both slots; `Char` follows only `out`; `Match` and
/// `Null` follow neither.  Unused slots hold `Index(0)`, the placeholder key.
#[derive(Debug, Clone, Copy, PartialEq, Eq, Structural)]
pub struct State {
    pub c: CharS,
    pub out: StateIndex,
    pub out1: StateIndex,
}

impl Default for State {
    fn default() -> (r: Self)
        ensures
            r == null_state(),
    {
        Self { c: CharS::Null, out: StateIndex::Index(0), out1: StateIndex::Index(0) }
    }
}

/// The placeholder sentinel stored at key 0.
pub open spec fn null_state() -> State {
    State { c: CharS::Null, out: StateIndex::Index(0), out1: StateIndex::Index(0) }
}

/// The accepting sentinel stored at key 1.
pub open spec fn match_state() -> State {
    State { c: CharS::Match, out: StateIndex::Index(0), out1: StateIndex::Index(0) }
}

/// The arena as the builder starts it: the two sentinels and nothing else.
pub open spec fn init_arena() -> Seq<State> {
    seq![null_state(), match_state()]
}

/// Every transition slot of every state stays inside the arena.  This is the
/// safety invariant the simulator relies on to follow transitions without
/// ever leaving the arena.
pub open spec fn arena_wf(arena: Seq<State>) -> bool {
    forall|i: int|
        0 <= i < arena.len() ==> (#[trigger] arena[i]).out.spec_value() < arena.len()
            && arena[i].out1.spec_value() < arena.len()
}

#[verifier::external_type_specification]
#[verifier::external_body]
#[verifier::reject_recursive_types(T)]
pub struct ExSlab<T>(slab::Slab<T>);

/// The states a slab holds, in key order.  Meaningful only for compact slabs
/// (see `slab_compact`), where the occupied keys are exactly `0..len`.
pub uninterp spec fn slab_entries(s: slab::Slab<State>) -> Seq<State>;

/// Whether a slab has no vacant entries below its next vacant key, i.e. it
/// has only ever been filled by insertions.  Every slab this crate builds is
/// compact, since nothing here removes an entry.
pub uninterp spec fn slab_compact(s: slab::Slab<State>) -> bool;

/// Relies on slab::Slab::with_capacity: it returns a slab with no entries.
#[verifier::external_body]
pub(crate) fn slab_new(capacity: usize) -> (r: slab::Slab<State>)
    ensures
        slab_compact(r),
        slab_entries(r) == Seq::<State>::empty(),
{
    slab::Slab::with_capacity(capacity)
}

/// Relies on slab::Slab::insert: the value is stored under the next vacant
/// key, which on a slab with no vacant entries is the entry count, and that
/// key is returned.
#[verifier::external_body]
pub(crate) fn slab_insert(s: &mut slab::Slab<State>, st: State) -> (r: usize)
    requires
        slab_compact(*old(s)),
        slab_entries(*old(s)).len() < usize::MAX,
    ensures
        slab_compact(*final(s)),
        slab_entries(*final(s)) == slab_entries(*old(s)).push(st),
        r == slab_entries(*old(s)).len(),
{
    s.insert(st)
}

/// Relies on slab::Slab::len: it returns the number of stored values, which
/// on a compact slab is the number of entries.
#[verifier::external_body]
pub(crate) fn slab_len(s: &slab::Slab<State>) -> (r: usize)
    requires
        slab_compact(*s),
    ensures
        r == slab_entries(*s).len(),
{
    s.len()
}

/// Relies on slab::Slab::get: it returns the value stored under an occupied
/// key; on a compact slab every key below the entry count is occupied.
#[verifier::external_body]
pub(crate) fn slab_get(s: &slab::Slab<State>, i: usize) -> (r: State)
    requires
        slab_compact(*s),
        i < slab_entries(*s).len(),
    ensures
        r == slab_entries(*s)[i as int],
{
    *s.get(i).unwrap()
}

/// Relies on slab::Slab::get_mut: it returns a mutable reference to the value
/// stored under an occupied key; writing through it replaces that value and
/// touches nothing else in the slab.
#[verifier::external_body]
pub(crate) fn slab_set(s: &mut slab::Slab<State>, i: usize, st: State)
    requires
        slab_compact(*old(s)),
        i < slab_entries(*old(s)).len(),
    ensures
        slab_compact(*final(s)),
        slab_entries(*final(s)) == slab_entries(*old(s)).update(i as int, st),
{
    *s.get_mut(i).unwrap() = st;
}

/// Allocate a fresh state and return its key, wrapped as a plain `Index`.
pub(crate) fn state(states: &mut slab::Slab<State>, c: CharS, out: StateIndex, out1: StateIndex) -> (r: StateIndex)
    requires
        slab_compact(*old(states)),
        slab_entries(*old(states)).len() < usize::MAX,
    ensures
        slab_compact(*final(states)),
        slab_entries(*final(states)) == slab_entries(*old(states)).push(
            (State { c, out, out1 }),
        ),
        r == StateIndex::Index(slab_entries(*old(states)).len() as usize),
{
    let s = State { c, out, out1 };
    let state_index = slab_insert(states, s);
    StateIndex::from(state_index)
}

} // verus!
