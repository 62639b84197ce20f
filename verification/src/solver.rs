//! The solving engines and the data they work on.

use vstd::prelude::*;
use crate::solver::data_model::{Solution, clause_satisfied, decided, lemma_holds_is_satisfied};
use crate::solver::formula::{Clause, Lit, formula_holds, formula_in_range, satisfiable};

pub mod cnf_ops;
pub mod data_model;
pub mod engines;
pub mod formula;
pub mod reading;

verus! {

/// Whether `solution` is right for the formula made of `clauses` over
/// `n_vars` variables: an assignment to those variables under which every
/// clause is true, or the verdict that there is none where there is none.
pub open spec fn decides(solution: Solution, n_vars: int, clauses: Seq<Seq<Lit>>) -> bool {
    match solution {
        Solution::Sat(model) => model@.len() == n_vars && formula_holds(model@, clauses),
        Solution::Unsat => !satisfiable(n_vars, clauses),
    }
}

/// An engine that decides whether a formula in conjunctive normal form can
/// be made true.
pub trait SatSolver {
    /// The formulas that the engine can be given, among those whose
    /// literals are all over the variables `1..=n_vars`.
    spec fn accepts(n_vars: int, clauses: Seq<Seq<Lit>>) -> bool;

    /// Whether the engine's branching strategy cannot but decide, for each
    /// assignment, the literal that `rule` gives for it.
    spec fn follows(rule: spec_fn(Seq<Option<bool>>) -> Option<Lit>) -> bool;

    /// What the engine finds for a formula when the literals are decided as
    /// `rule` says: the assignment, or nothing.
    spec fn outcome(
        n_vars: int,
        clauses: Seq<Seq<Lit>>,
        rule: spec_fn(Seq<Option<bool>>) -> Option<Lit>,
    ) -> Option<Seq<bool>>;

    /// Tests whether the engine can be given the formula made of `clauses`
    /// over `n_vars` variables.
    fn takes(&self, n_vars: u64, clauses: &Vec<Clause>) -> (taken: bool)
        ensures
            taken == (n_vars <= usize::MAX && formula_in_range(clauses.deep_view(), n_vars as int) && Self::accepts(
                n_vars as int,
                clauses.deep_view(),
            )),
    ;

    /// Decides the formula made of `clauses` over the variables
    /// `1..=n_vars`: gives an assignment under which every clause is true, or
    /// says that there is none.
    fn solve(&mut self, n_vars: u64, clauses: &Vec<Clause>) -> (solution: Solution)
        requires
            n_vars <= usize::MAX,
            formula_in_range(clauses.deep_view(), n_vars as int),
            Self::accepts(n_vars as int, clauses.deep_view()),
        ensures
            decides(solution, n_vars as int, clauses.deep_view()),
            forall|rule: spec_fn(Seq<Option<bool>>) -> Option<Lit>| #[trigger]
                Self::follows(rule) ==> solution.model() == Self::outcome(n_vars as int, clauses.deep_view(), rule),
    ;
}

/// A problem as a file in one of the DIMACS formats states it.
pub enum Instance {
    /// A formula in conjunctive normal form over the variables
    /// `1..=num_vars`.
    Cnf { num_vars: u64, clauses: Vec<Clause> },
    /// A formula in the nested format, of which nothing is kept.
    Sat,
}

/// Why an instance was not solved.
#[derive(Debug, PartialEq, Eq)]
pub enum Rejection {
    /// The instance is not in conjunctive normal form.
    NotCnf,
}

impl Rejection {
    /// What to tell the user.
    pub fn message(&self) -> (text: &'static str)
        ensures
            text@ == "simple-solver does not support .sat instances"@,
    {
        "simple-solver does not support .sat instances"
    }
}

/// Solves `instance` with `solver` where it is in conjunctive normal form,
/// and rejects it where it is not, leaving the solver as it was.
pub fn solve_instance<S: SatSolver>(solver: &mut S, instance: &Instance) -> (result: Result<Solution, Rejection>)
    requires
        instance matches Instance::Cnf { num_vars, clauses } ==> {
            &&& num_vars <= usize::MAX
            &&& formula_in_range(clauses.deep_view(), num_vars as int)
            &&& S::accepts(num_vars as int, clauses.deep_view())
        },
    ensures
        match instance {
            Instance::Cnf { num_vars, clauses } => {
                &&& result matches Ok(solution)
                &&& decides(result->Ok_0, *num_vars as int, clauses.deep_view())
                &&& forall|rule: spec_fn(Seq<Option<bool>>) -> Option<Lit>| #[trigger]
                    S::follows(rule) ==> result->Ok_0.model() == S::outcome(*num_vars as int, clauses.deep_view(), rule)
            },
            Instance::Sat => result == Err::<Solution, Rejection>(Rejection::NotCnf) && *final(solver) == *old(solver),
        },
{
    match instance {
        Instance::Cnf { num_vars, clauses } => Ok(solver.solve(*num_vars, clauses)),
        Instance::Sat => Err(Rejection::NotCnf),
    }
}

/// Every clause of a formula evaluates to true under an assignment that an
/// engine gives for it.
pub proof fn lemma_model_satisfies(solution: Solution, n_vars: int, clauses: Seq<Seq<Lit>>)
    requires
        decides(solution, n_vars, clauses),
        formula_in_range(clauses, n_vars),
        solution is Sat,
    ensures
        forall|j: int| 0 <= j < clauses.len() ==> clause_satisfied(decided(solution->Sat_0@), #[trigger] clauses[j]),
{
    lemma_holds_is_satisfied(solution->Sat_0@, clauses);
}

/// Where no assignment makes a formula true, an engine says so.
pub proof fn lemma_unsatisfiable_is_unsat(solution: Solution, n_vars: int, clauses: Seq<Seq<Lit>>)
    requires
        decides(solution, n_vars, clauses),
        !satisfiable(n_vars, clauses),
    ensures
        solution is Unsat,
{
    if solution is Sat {
        assert(formula_holds(solution->Sat_0@, clauses));
    }
}

/// Two engines give the same verdict on a formula, whatever their strategies:
/// both find an assignment or neither does.
pub proof fn lemma_verdicts_agree(first: Solution, second: Solution, n_vars: int, clauses: Seq<Seq<Lit>>)
    requires
        decides(first, n_vars, clauses),
        decides(second, n_vars, clauses),
    ensures
        first is Sat <==> second is Sat,
{
    if first is Sat && second is Unsat {
        assert(formula_holds(first->Sat_0@, clauses));
    }
    if second is Sat && first is Unsat {
        assert(formula_holds(second->Sat_0@, clauses));
    }
}

/// Solving is repeatable: two results that an engine gives for the same
/// formula, with a strategy bound to the same rule, are the same.
pub proof fn lemma_repeatable<S: SatSolver>(
    first: Solution,
    second: Solution,
    n_vars: int,
    clauses: Seq<Seq<Lit>>,
    rule: spec_fn(Seq<Option<bool>>) -> Option<Lit>,
)
    requires
        S::follows(rule),
        first.model() == S::outcome(n_vars, clauses, rule),
        second.model() == S::outcome(n_vars, clauses, rule),
    ensures
        first.model() == second.model(),
{
}

} // verus!
