//! The strategy that decides the variables in their order.

use vstd::prelude::*;
use crate::solver::data_model::PartialAssignment;
use crate::solver::engines::branching::{Branching, all_decided, bound_to, steady};
use crate::solver::formula::{Clause, Lit};

verus! {

/// Whether `i` is the first variable position that `values` leaves without a
/// value.
pub open spec fn first_free(values: Seq<Option<bool>>, i: int) -> bool {
    &&& 0 <= i < values.len()
    &&& values[i] is None
    &&& forall|k: int| 0 <= k < i ==> (#[trigger] values[k]) is Some
}

/// The choice of the trivial strategy: the negative literal over the first
/// variable without a value, where there is one.
pub open spec fn trivial_choice(values: Seq<Option<bool>>) -> Option<Lit> {
    if all_decided(values) {
        None
    } else {
        Some(Lit { var: ((choose|i: int| first_free(values, i)) + 1) as u64, positive: false })
    }
}

/// The rule that the trivial strategy follows.
pub open spec fn trivial_rule() -> spec_fn(Seq<Option<bool>>) -> Option<Lit> {
    |values: Seq<Option<bool>>| trivial_choice(values)
}

/// The trivial strategy cannot but choose as its rule says.
pub proof fn lemma_trivial_is_bound()
    ensures
        bound_to::<TrivialBranching>(trivial_rule()),
{
}

/// The trivial strategy goes its way by itself: it has one state only, and
/// its choice rests on the values alone.
pub proof fn lemma_trivial_is_steady()
    ensures
        steady::<TrivialBranching>(),
{
    assert forall|a: TrivialBranching, b: TrivialBranching, n_vars: int, x: TrivialBranching, y: TrivialBranching|
        #![trigger a.prepared(n_vars, &x), b.prepared(n_vars, &y)]
        a.prepared(n_vars, &x) && b.prepared(n_vars, &y) implies x == y by {
        lemma_one_state(x, y);
    }
    assert forall|a: TrivialBranching, clause: Seq<Lit>, x: TrivialBranching, y: TrivialBranching|
        #![trigger a.notes(clause, &x), a.notes(clause, &y)]
        a.notes(clause, &x) && a.notes(clause, &y) implies x == y by {
        lemma_one_state(x, y);
    }
    assert forall|
        a: TrivialBranching,
        values: Seq<Option<bool>>,
        first: Option<Lit>,
        x: TrivialBranching,
        second: Option<Lit>,
        y: TrivialBranching,
    |
        #![trigger a.chooses(values, first, &x), a.chooses(values, second, &y)]
        a.chooses(values, first, &x) && a.chooses(values, second, &y) implies first == second && x == y by {
        lemma_one_state(x, y);
    }
}

/// The trivial strategy has one state only.
pub proof fn lemma_one_state(x: TrivialBranching, y: TrivialBranching)
    ensures
        x == y,
{
}

/// The strategy that always decides the first variable without a value, and
/// decides it false.
pub struct TrivialBranching {}

impl TrivialBranching {
    /// The strategy; it has no state.
    pub fn new() -> Self {
        TrivialBranching {  }
    }
}

impl Branching for TrivialBranching {
    /// The strategy makes the trivial choice and no other.
    open spec fn allows(values: Seq<Option<bool>>, choice: Option<Lit>) -> bool {
        choice == trivial_choice(values)
    }

    /// The strategy makes the trivial choice, which leaves nothing behind.
    open spec fn chooses(&self, values: Seq<Option<bool>>, choice: Option<Lit>, after: &Self) -> bool {
        choice == trivial_choice(values)
    }

    fn reset(&mut self, _n_vars: u64) {
    }

    fn add_clause(&mut self, _clause: &Clause) {
    }

    /// The negative literal over the first variable without a value.
    fn branch(&mut self, state: &PartialAssignment) -> (choice: Option<Lit>)
        ensures
            choice matches Some(lit) ==> !lit.positive && first_free(state@, lit.index()),
    {
        let free = state.free_variables();
        if free.len() == 0 {
            None
        } else {
            let ix: usize = free[0];
            assert forall|k: int| 0 <= k < ix implies (#[trigger] state@[k]) is Some by {
                if state@[k] is None {
                    let at = choose|at: int| 0 <= at < free@.len() && #[trigger] free@[at] == k;
                    assert(free@[0] <= free@[at]);
                }
            }
            let n_vars: usize = state.len();
            proof {
                assert(first_free(state@, ix as int));
                let chosen = choose|i: int| first_free(state@, i);
                assert(chosen == ix);
            }
            Some(Lit { var: ix as u64 + 1, positive: false })
        }
    }
}

} // verus!
