//! The two solving engines and the branching strategies they draw on.

use vstd::prelude::*;
use crate::solver::SatSolver;
use crate::solver::engines::branching::trivial::{TrivialBranching, lemma_trivial_is_bound, trivial_rule};
use crate::solver::engines::brute_force::BruteForceSolver;
use crate::solver::engines::cdcl::CdclSolver;

pub mod branching;
pub mod brute_force;
pub mod cdcl;

verus! {

/// With the trivial strategy both engines follow the trivial rule, so that
/// what either of them gives for a formula rests on the formula alone.
pub proof fn lemma_trivial_engines_follow()
    ensures
        BruteForceSolver::<TrivialBranching>::follows(trivial_rule()),
        CdclSolver::<TrivialBranching>::follows(trivial_rule()),
{
    lemma_trivial_is_bound();
}

} // verus!
