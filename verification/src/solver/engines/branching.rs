//! Strategies that choose the next literal to decide.

use vstd::prelude::*;
use crate::solver::data_model::PartialAssignment;
use crate::solver::formula::{Clause, Lit};

pub mod trivial;
pub mod vsids;

verus! {

/// Whether `values` leaves no variable without a value.
pub open spec fn all_decided(values: Seq<Option<bool>>) -> bool {
    forall|i: int| 0 <= i < values.len() ==> (#[trigger] values[i]) is Some
}

/// A strategy that chooses the literal an engine decides next.
/// An engine resets the strategy for each formula, shows it every clause of
/// the formula and every clause it learns, and asks it for a literal whenever
/// it has to decide one.
pub trait Branching {
    /// Whether the strategy may choose `choice` when the variables have the
    /// values `values`, whatever it was shown before. A strategy whose choice
    /// rests on the values alone says so here; as it stands, all is allowed.
    open spec fn allows(values: Seq<Option<bool>>, choice: Option<Lit>) -> bool {
        true
    }

    /// Forgets everything and prepares for a formula over `n_vars` variables.
    fn reset(&mut self, n_vars: u64)
        ensures
            old(self).prepared(n_vars as int, final(self)),
    ;

    /// Takes note of one clause of the formula.
    fn add_clause(&mut self, clause: &Clause)
        ensures
            old(self).notes(clause@, final(self)),
    ;

    /// Chooses a literal over a variable that `state` leaves without a value;
    /// `None` exactly when there is no such variable.
    fn branch(&mut self, state: &PartialAssignment) -> (choice: Option<Lit>)
        ensures
            Self::allows(state@, choice),
            old(self).chooses(state@, choice, final(self)),
            choice is None <==> all_decided(state@),
            choice matches Some(lit) ==> lit.in_range(state@.len() as int) && state@[lit.index()] is None,
    ;

    /// Takes note of each clause of `clauses`, in order, from first to last.
    fn add_clauses(&mut self, clauses: &[Clause]) where Self: Sized
        ensures
            in_turn(
                *old(self),
                clauses.deep_view(),
                *final(self),
                |before: Self, clause: Seq<Lit>, after: Self| before.notes(clause, &after),
            ),
    {
        let ghost step = |before: Self, clause: Seq<Lit>, after: Self| before.notes(clause, &after);
        let ghost mut states = seq![*self];
        let mut i: usize = 0;
        while i < clauses.len()
            invariant
                i <= clauses@.len(),
                step == |before: Self, clause: Seq<Lit>, after: Self| before.notes(clause, &after),
                passes_through(states, clauses.deep_view().take(i as int), step),
                states.first() == *old(self),
                states.last() == *self,
            decreases clauses@.len() - i,
        {
            let ghost so_far = states;
            self.add_clause(&clauses[i]);
            proof {
                states = so_far.push(*self);
                let seen = clauses.deep_view().take(i + 1);
                assert forall|k: int| 0 <= k < seen.len() implies step(states[k], #[trigger] seen[k], states[k + 1]) by {
                    if k < i {
                        assert(clauses.deep_view().take(i as int)[k] == seen[k]);
                    }
                }
            }
            i += 1;
        }
        assert(clauses.deep_view().take(i as int) =~= clauses.deep_view());
    }

    /// Whether taking note of `clause` can turn the strategy as it is into
    /// the strategy `after`.
    ///
    /// A strategy says here what it keeps of a clause. As it stands, nothing
    /// is said: a clause may leave the strategy in any state.
    open spec fn notes(&self, clause: Seq<Lit>, after: &Self) -> bool {
        true
    }

    /// Whether a reset for `n_vars` variables can turn the strategy as it is
    /// into the strategy `after`.
    ///
    /// A strategy says here what a reset leaves of it. As it stands, nothing
    /// is said.
    open spec fn prepared(&self, n_vars: int, after: &Self) -> bool {
        true
    }

    /// Whether the strategy as it is can make the choice `choice` when the
    /// variables have the values `values`, and be the strategy `after`
    /// afterwards.
    ///
    /// A strategy says here what a choice rests on and what it changes. As
    /// it stands, nothing is said.
    open spec fn chooses(&self, values: Seq<Option<bool>>, choice: Option<Lit>, after: &Self) -> bool {
        true
    }
}

/// Whether `states` begins with a state and goes on, clause by clause of
/// `clauses`, with a state that `step` can make of the one before with that
/// clause.
pub open spec fn passes_through<S>(
    states: Seq<S>,
    clauses: Seq<Seq<Lit>>,
    step: spec_fn(S, Seq<Lit>, S) -> bool,
) -> bool {
    &&& states.len() == clauses.len() + 1
    &&& forall|k: int| 0 <= k < clauses.len() ==> step(states[k], #[trigger] clauses[k], states[k + 1])
}

/// Whether doing `step` with each clause of `clauses`, in order, can turn
/// `before` into `after`.
pub open spec fn in_turn<S>(
    before: S,
    clauses: Seq<Seq<Lit>>,
    after: S,
    step: spec_fn(S, Seq<Lit>, S) -> bool,
) -> bool {
    exists|states: Seq<S>|
        #[trigger] passes_through(states, clauses, step) && states.first() == before && states.last() == after
}

/// Whether a reset for `n_vars` variables, and then taking note of each clause
/// of `clauses` in order, can turn the strategy `before` into the strategy
/// `after`.
pub open spec fn primed<B: Branching>(before: B, n_vars: int, clauses: Seq<Seq<Lit>>, after: B) -> bool {
    exists|fresh: B| before.prepared(n_vars, &fresh) && #[trigger] in_turn(fresh, clauses, after, noting::<B>())
}

/// The step of taking note of a clause, as a relation between the strategy
/// before and the strategy after.
pub open spec fn noting<B: Branching>() -> spec_fn(B, Seq<Lit>, B) -> bool {
    |before: B, clause: Seq<Lit>, after: B| before.notes(clause, &after)
}

/// Whether a strategy of type `B` goes its way by itself: a reset leaves
/// nothing of what it was before, a clause leaves it in one state only, and
/// for given values it makes one choice only and is in one state afterwards.
pub open spec fn steady<B: Branching>() -> bool {
    &&& forall|a: B, b: B, n_vars: int, x: B, y: B|
        #![trigger a.prepared(n_vars, &x), b.prepared(n_vars, &y)]
        a.prepared(n_vars, &x) && b.prepared(n_vars, &y) ==> x == y
    &&& forall|a: B, clause: Seq<Lit>, x: B, y: B|
        #![trigger a.notes(clause, &x), a.notes(clause, &y)]
        a.notes(clause, &x) && a.notes(clause, &y) ==> x == y
    &&& forall|a: B, values: Seq<Option<bool>>, first: Option<Lit>, x: B, second: Option<Lit>, y: B|
        #![trigger a.chooses(values, first, &x), a.chooses(values, second, &y)]
        a.chooses(values, first, &x) && a.chooses(values, second, &y) ==> first == second && x == y
}

/// Two runs of a steady strategy through the same clauses pass through the
/// same states.
pub proof fn lemma_same_states<B: Branching>(first: Seq<B>, second: Seq<B>, clauses: Seq<Seq<Lit>>, k: int)
    requires
        steady::<B>(),
        passes_through(first, clauses, noting::<B>()),
        passes_through(second, clauses, noting::<B>()),
        first.first() == second.first(),
        0 <= k <= clauses.len(),
    ensures
        first[k] == second[k],
    decreases k,
{
    if k > 0 {
        lemma_same_states(first, second, clauses, k - 1);
        assert(noting::<B>()(first[k - 1], clauses[k - 1], first[k]));
        assert(noting::<B>()(second[k - 1], clauses[k - 1], second[k]));
        assert(first[k - 1].notes(clauses[k - 1], &first[k]));
        assert(second[k - 1].notes(clauses[k - 1], &second[k]));
    }
}

/// A steady strategy comes out of a reset and of taking note of given
/// clauses in one state only, whatever it was before.
pub proof fn lemma_primed_once<B: Branching>(
    first: B,
    second: B,
    n_vars: int,
    clauses: Seq<Seq<Lit>>,
    x: B,
    y: B,
)
    requires
        steady::<B>(),
        primed(first, n_vars, clauses, x),
        primed(second, n_vars, clauses, y),
    ensures
        x == y,
{
    let p = choose|fresh: B| first.prepared(n_vars, &fresh) && #[trigger] in_turn(fresh, clauses, x, noting::<B>());
    let q = choose|fresh: B| second.prepared(n_vars, &fresh) && #[trigger] in_turn(fresh, clauses, y, noting::<B>());
    assert(p == q);
    let run_p = choose|states: Seq<B>|
        #[trigger] passes_through(states, clauses, noting::<B>()) && states.first() == p && states.last() == x;
    let run_q = choose|states: Seq<B>|
        #[trigger] passes_through(states, clauses, noting::<B>()) && states.first() == q && states.last() == y;
    lemma_same_states(run_p, run_q, clauses, clauses.len() as int);
}

/// Whether a strategy of type `B` cannot but choose, for each assignment,
/// what `rule` gives for it.
pub open spec fn bound_to<B: Branching>(rule: spec_fn(Seq<Option<bool>>) -> Option<Lit>) -> bool {
    forall|values: Seq<Option<bool>>, choice: Option<Lit>| #[trigger] B::allows(values, choice) ==> choice == rule(values)
}

} // verus!
