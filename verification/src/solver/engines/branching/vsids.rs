//! The choice that the activity-based strategy makes: the free variable with
//! the highest score.
//!
//! The scores themselves are kept by the caller, who hands them over as
//! integers that are ordered as the scores are.

use vstd::prelude::*;
use crate::solver::data_model::PartialAssignment;
use crate::solver::engines::branching::all_decided;
use crate::solver::formula::Lit;

verus! {

/// Whether `i` is the free variable position that an activity-based choice
/// takes: no free variable has a higher score, and none before `i` has the
/// same.
pub open spec fn best_free(values: Seq<Option<bool>>, scores: Seq<i64>, i: int) -> bool {
    &&& 0 <= i < values.len()
    &&& values[i] is None
    &&& forall|k: int| 0 <= k < values.len() && (#[trigger] values[k]) is None ==> scores[k] <= scores[i]
    &&& forall|k: int| 0 <= k < i && (#[trigger] values[k]) is None ==> scores[k] < scores[i]
}

/// The negative literal over the free variable with the highest score, the
/// first of them where several have it; `None` exactly when no variable is
/// free.
pub fn branch_on_scores(state: &PartialAssignment, scores: &Vec<i64>) -> (choice: Option<Lit>)
    requires
        scores@.len() >= state@.len(),
    ensures
        choice is None <==> all_decided(state@),
        choice matches Some(lit) ==> !lit.positive && lit.in_range(state@.len() as int) && best_free(
            state@,
            scores@,
            lit.index(),
        ),
{
    let n_vars: usize = state.len();
    let mut best: Option<usize> = None;
    let mut ix: usize = 0;
    while ix < n_vars
        invariant
            ix <= n_vars,
            n_vars == state@.len(),
            scores@.len() >= n_vars,
            best is None ==> forall|k: int| 0 <= k < ix ==> (#[trigger] state@[k]) is Some,
            best matches Some(b) ==> {
                &&& b < ix
                &&& state@[b as int] is None
                &&& forall|k: int| 0 <= k < ix && (#[trigger] state@[k]) is None ==> scores@[k] <= scores@[b as int]
                &&& forall|k: int| 0 <= k < b && (#[trigger] state@[k]) is None ==> scores@[k] < scores@[b as int]
            },
        decreases n_vars - ix,
    {
        let free = state.get(&Lit { var: ix as u64 + 1, positive: true }).is_none();
        if free {
            let better = match best {
                Some(b) => scores[b] < scores[ix],
                None => true,
            };
            if better {
                best = Some(ix);
            }
        }
        ix += 1;
    }
    match best {
        Some(b) => Some(Lit { var: b as u64 + 1, positive: false }),
        None => None,
    }
}

} // verus!
