//! A regular-expression engine built on Thompson's construction.
//!
//! A pattern over the grammar of literals, concatenation, alternation (`|`),
//! grouping and the postfix operators `*`, `+` and `?` is first rewritten to
//! postfix form with an explicit concatenation operator, then compiled into a
//! nondeterministic finite automaton held in an arena, and finally executed
//! against an input string with epsilon-closed state sets, one set transition
//! per input symbol, so matching time is linear in the input length times the
//! automaton size and never backtracks.

use vstd::prelude::*;

mod arena;
mod nfa;
mod postfix;
mod sim;

pub use arena::CharS;
pub use arena::State;
pub use arena::StateIndex;
pub use arena::arena_wf;
pub use arena::init_arena;
pub use arena::match_state;
pub use arena::null_state;
pub use arena::slab_compact;
pub use arena::slab_entries;
pub use postfix::re2post;
pub use postfix::spec_re2post;
pub use postfix::postfix_ok;
pub use nfa::Frag;
pub use nfa::list1;
pub use nfa::postfix2nfa;
pub use nfa::spec_build;
pub use postfix::lemma_spec_re2post_len;
pub use postfix::lemma_spec_re2post_ok;
pub use sim::StateSet;
pub use sim::add_state;
pub use sim::closure_of;
pub use sim::eps_reach;
pub use sim::is_match;
pub use sim::match_expr;
pub use sim::sim_sets;
pub use sim::spec_accepts;
pub use sim::step;
pub use sim::step_set;

verus! {

/// A compiled pattern: a start reference into an arena of NFA states.  The
/// arena is built once by `compile` and read-only afterwards; any number of
/// `matches` runs may share it.
#[derive(Debug)]
pub struct CompiledRegex {
    pub start: StateIndex,
    pub states: slab::Slab<State>,
}

impl CompiledRegex {
    /// Structural validity: the arena is compact, every transition slot
    /// stays inside it, the two sentinel states are in place, and the start
    /// reference is in range.
    pub open spec fn wf(self) -> bool {
        &&& slab_compact(self.states)
        &&& arena_wf(slab_entries(self.states))
        &&& 2 <= slab_entries(self.states).len()
        &&& self.start.spec_value() < slab_entries(self.states).len()
    }
}

/// The one user-facing error: the pattern is malformed, at this character
/// position.  Raised for an empty alternation branch, a postfix operator
/// with no operand, an unmatched `)`, or a `(` still open at the end.
#[derive(Debug, Clone, Copy, PartialEq, Eq, Structural)]
pub struct SyntaxError {
    pub position: usize,
}

/// Compile `pattern` into an NFA, or report a syntax error.
///
/// The pattern grammar is literals, grouping, `|`, `*`, `+` and `?`; a
/// literal `.` is outside the grammar, since the converter uses `.` as its
/// explicit concatenation operator.  The length bound only keeps the
/// automaton's state keys within `usize`.
pub fn compile(pattern: &str) -> (r: Result<CompiledRegex, SyntaxError>)
    requires
        forall|k: int| 0 <= k < pattern@.len() ==> pattern@[k] != '.',
        pattern@.len() <= (usize::MAX - 2) / 2,
    ensures
        match r {
            Ok(c) => {
                &&& c.wf()
                &&& spec_re2post(pattern@) is Ok
                &&& Some((c.start, slab_entries(c.states))) == spec_build(
                    spec_re2post(pattern@)->Ok_0,
                )
            },
            Err(e) => spec_re2post(pattern@) == Err::<Seq<char>, int>(e.position as int),
        },
{
    match re2post(pattern) {
        Err(pos) => Err(SyntaxError { position: pos }),
        Ok(p) => {
            proof {
                lemma_spec_re2post_ok(pattern@);
                lemma_spec_re2post_len(pattern@);
            }
            let (start, states) = postfix2nfa(p.as_str());
            Ok(CompiledRegex { start, states })
        },
    }
}

/// Whether the compiled pattern matches the whole input string.
pub fn matches(compiled: &CompiledRegex, input: &str) -> (r: bool)
    requires
        compiled.wf(),
    ensures
        r == spec_accepts(
            slab_entries(compiled.states),
            compiled.start.spec_value(),
            input@,
        ),
{
    match_expr(input, compiled.start, &compiled.states)
}

/// Repeated `matches` runs on one compiled NFA and one input always return
/// the same result: `matches` ensures its result equals `spec_accepts` of
/// the (unchanged) compiled NFA and the input alone, so no state leaks
/// between runs.
/// The empty pattern compiles successfully — to the implicit fragment whose
/// start is the match sentinel itself — and matches exactly the empty
/// input.
pub proof fn lemma_empty_pattern(input: Seq<char>)
    ensures
        spec_re2post(Seq::empty()) == Ok::<Seq<char>, int>(Seq::empty()),
        spec_build(Seq::empty()) == Some((StateIndex::Index(1usize), init_arena())),
        spec_accepts(init_arena(), 1, input) == (input.len() == 0),
{
    assert(Seq::<char>::empty() + postfix::dots(-1) + postfix::bars(0) =~= Seq::<char>::empty());
    sim::lemma_sentinel_accepts(input);
}

pub proof fn lemma_matches_deterministic(
    arena: Seq<State>,
    start: usize,
    input: Seq<char>,
    r1: bool,
    r2: bool,
)
    requires
        r1 == spec_accepts(arena, start, input),
        r2 == spec_accepts(arena, start, input),
    ensures
        r1 == r2,
{
}

} // verus!
