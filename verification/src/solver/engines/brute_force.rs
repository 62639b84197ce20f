//! The engine that tries out every assignment.

use vstd::prelude::*;
use crate::solver::SatSolver;
use crate::solver::cnf_ops::negate_literal;
use crate::solver::data_model::{
    EvalResult,
    PartialAssignment,
    Solution,
    Verdict,
    clause_falsified,
    clause_undefined,
    completed,
    extends,
    first_undefined,
    free_count,
    lemma_completed_holds,
    lemma_extension_agrees,
    lemma_free_count_update,
    lit_value,
    verdict,
};
use crate::solver::engines::branching::{
    Branching,
    all_decided,
    bound_to,
    in_turn,
    lemma_primed_once,
    noting,
    primed,
    steady,
};
use crate::solver::formula::{
    Clause,
    Lit,
    clause_in_range,
    formula_fits,
    formula_holds,
    formula_in_range,
};

verus! {

/// The engine that searches depth first through the assignments, deciding
/// one variable at a time in the order its branching strategy gives, and
/// learns nothing on the way.
pub struct BruteForceSolver<B> where B: Branching {
    assignment: PartialAssignment,
    n_vars: u64,
    brancher: B,
}

/// A clause that is undefined under `values` holds a literal whose variable
/// has no value there.
pub proof fn lemma_undefined_has_free(values: Seq<Option<bool>>, clause: Seq<Lit>)
    requires
        clause_in_range(clause, values.len() as int),
        clause_undefined(values, clause),
    ensures
        !all_decided(values),
{
    let i = choose|i: int| 0 <= i < clause.len() && lit_value(values, #[trigger] clause[i]) != Some(false);
    assert(clause[i].in_range(values.len() as int));
    assert(values[clause[i].index()] is None);
}

/// What the exhaustive search finds among the assignments that extend
/// `values`, when the literals are decided as `rule` says: the completion of
/// `values` where every clause is satisfied already; nothing where one is
/// falsified; else what it finds with the literal of `rule` true, and if
/// that is nothing, what it finds with that literal false.
pub open spec fn search_from(
    values: Seq<Option<bool>>,
    formula: Seq<Seq<Lit>>,
    rule: spec_fn(Seq<Option<bool>>) -> Option<Lit>,
) -> Option<Seq<bool>>
    decreases free_count(values),
{
    match verdict(values, formula) {
        Verdict::Satisfied => Some(completed(values)),
        Verdict::Falsified(_) => None,
        Verdict::Undefined(_) => match rule(values) {
            Some(lit) => if lit.in_range(values.len() as int) && values[lit.index()] is None {
                proof {
                    lemma_free_count_update(values, lit.index(), Some(lit.positive));
                    lemma_free_count_update(values, lit.index(), Some(!lit.positive));
                }
                let first = search_from(values.update(lit.index(), Some(lit.positive)), formula, rule);
                if first is Some {
                    first
                } else {
                    search_from(values.update(lit.index(), Some(!lit.positive)), formula, rule)
                }
            } else {
                None
            },
            None => None,
        },
    }
}

/// `values` with the variable of `lit` given the value that makes `lit` true.
pub open spec fn with_lit(values: Seq<Option<bool>>, lit: Lit) -> Seq<Option<bool>> {
    values.update(lit.index(), Some(lit.positive))
}

/// Whether the exhaustive search among the assignments that extend `values`
/// can turn the strategy `before` into the strategy `after` and find `found`,
/// with `depth` variables still free.
///
/// The strategy is reset and takes note of every clause of the formula.
/// Where every clause is satisfied, or one is falsified, nothing more is
/// asked of it. Else it is asked for one choice, a literal over a free
/// variable; the search goes on with that literal true, and if that finds
/// nothing, with the literal false, each time with the strategy as the step
/// before left it.
pub open spec fn searches<B: Branching>(
    before: B,
    values: Seq<Option<bool>>,
    formula: Seq<Seq<Lit>>,
    depth: nat,
    after: B,
    found: Option<Seq<bool>>,
) -> bool
    decreases depth,
{
    exists|ready: B|
        #![trigger primed(before, values.len() as int, formula, ready)]
        primed(before, values.len() as int, formula, ready) && match verdict(values, formula) {
            Verdict::Satisfied => after == ready && found == Some(completed(values)),
            Verdict::Falsified(_) => after == ready && found == None::<Seq<bool>>,
            Verdict::Undefined(_) => depth > 0 && exists|lit: Lit, chosen: B|
                #![trigger ready.chooses(values, Some(lit), &chosen)]
                {
                    &&& ready.chooses(values, Some(lit), &chosen)
                    &&& lit.in_range(values.len() as int)
                    &&& values[lit.index()] is None
                    &&& exists|mid: B, first: Option<Seq<bool>>|
                        #![trigger halfway(mid, first)]
                        {
                            &&& halfway(mid, first)
                            &&& searches(chosen, with_lit(values, lit), formula, (depth - 1) as nat, mid, first)
                            &&& if first is Some {
                                after == mid && found == first
                            } else {
                                searches(
                                    mid,
                                    with_lit(values, lit.negated()),
                                    formula,
                                    (depth - 1) as nat,
                                    after,
                                    found,
                                )
                            }
                        }
                },
        }
}

/// Marks the strategy and the find between the two halves of a step of the
/// search: after the side with the literal true, before the other.
pub open spec fn halfway<B>(mid: B, first: Option<Seq<bool>>) -> bool {
    true
}

/// Whether the search can go on from the choice of `lit`, with the strategy
/// `chosen`, through the state `mid` and the find `first` between the side
/// with `lit` true and the side with `lit` false.
pub open spec fn goes_through<B: Branching>(
    chosen: B,
    values: Seq<Option<bool>>,
    lit: Lit,
    formula: Seq<Seq<Lit>>,
    depth: nat,
    after: B,
    found: Option<Seq<bool>>,
    mid: B,
    first: Option<Seq<bool>>,
) -> bool {
    &&& depth > 0
    &&& searches(chosen, with_lit(values, lit), formula, (depth - 1) as nat, mid, first)
    &&& if first is Some {
        after == mid && found == first
    } else {
        searches(mid, with_lit(values, lit.negated()), formula, (depth - 1) as nat, after, found)
    }
}

/// The exhaustive search is repeatable: with a steady strategy, whatever
/// state it starts in, the search among the assignments that extend given
/// values finds one thing only and leaves the strategy in one state only.
pub proof fn lemma_searches_once<B: Branching>(
    one: B,
    other: B,
    values: Seq<Option<bool>>,
    formula: Seq<Seq<Lit>>,
    depth: nat,
    after_one: B,
    found_one: Option<Seq<bool>>,
    after_other: B,
    found_other: Option<Seq<bool>>,
)
    requires
        steady::<B>(),
        searches(one, values, formula, depth, after_one, found_one),
        searches(other, values, formula, depth, after_other, found_other),
    ensures
        after_one == after_other,
        found_one == found_other,
    decreases depth,
{
    let n = values.len() as int;
    let (p, lit_p, chosen_p, mid_p, first_p) = lemma_searches_unfolds(one, values, formula, depth, after_one, found_one);
    let (q, lit_q, chosen_q, mid_q, first_q) = lemma_searches_unfolds(
        other,
        values,
        formula,
        depth,
        after_other,
        found_other,
    );
    lemma_primed_once(one, other, n, formula, p, q);
    if verdict(values, formula) is Undefined {
        assert(Some(lit_p) == Some(lit_q) && chosen_p == chosen_q);
        lemma_searches_once(
            chosen_p,
            chosen_q,
            with_lit(values, lit_p),
            formula,
            (depth - 1) as nat,
            mid_p,
            first_p,
            mid_q,
            first_q,
        );
        if first_p is None {
            lemma_searches_once(
                mid_p,
                mid_q,
                with_lit(values, lit_p.negated()),
                formula,
                (depth - 1) as nat,
                after_one,
                found_one,
                after_other,
                found_other,
            );
        }
    }
}

/// What a search is made of: the strategy after priming and, where a clause
/// is undefined, the choice, the strategy after it, and the state and the
/// find between the two sides.
pub proof fn lemma_searches_unfolds<B: Branching>(
    before: B,
    values: Seq<Option<bool>>,
    formula: Seq<Seq<Lit>>,
    depth: nat,
    after: B,
    found: Option<Seq<bool>>,
) -> (parts: (B, Lit, B, B, Option<Seq<bool>>))
    requires
        searches(before, values, formula, depth, after, found),
    ensures
        primed(before, values.len() as int, formula, parts.0),
        match verdict(values, formula) {
            Verdict::Satisfied => after == parts.0 && found == Some(completed(values)),
            Verdict::Falsified(_) => after == parts.0 && found == None::<Seq<bool>>,
            Verdict::Undefined(_) => {
                &&& parts.0.chooses(values, Some(parts.1), &parts.2)
                &&& parts.1.in_range(values.len() as int)
                &&& values[parts.1.index()] is None
                &&& goes_through(parts.2, values, parts.1, formula, depth, after, found, parts.3, parts.4)
            },
        },
{
    let ready = choose|ready: B|
        #![trigger primed(before, values.len() as int, formula, ready)]
        primed(before, values.len() as int, formula, ready) && match verdict(values, formula) {
            Verdict::Satisfied => after == ready && found == Some(completed(values)),
            Verdict::Falsified(_) => after == ready && found == None::<Seq<bool>>,
            Verdict::Undefined(_) => depth > 0 && exists|lit: Lit, chosen: B|
                #![trigger ready.chooses(values, Some(lit), &chosen)]
                {
                    &&& ready.chooses(values, Some(lit), &chosen)
                    &&& lit.in_range(values.len() as int)
                    &&& values[lit.index()] is None
                    &&& exists|mid: B, first: Option<Seq<bool>>|
                        #![trigger halfway(mid, first)]
                        {
                            &&& halfway(mid, first)
                            &&& searches(chosen, with_lit(values, lit), formula, (depth - 1) as nat, mid, first)
                            &&& if first is Some {
                                after == mid && found == first
                            } else {
                                searches(
                                    mid,
                                    with_lit(values, lit.negated()),
                                    formula,
                                    (depth - 1) as nat,
                                    after,
                                    found,
                                )
                            }
                        }
                },
        };
    if verdict(values, formula) is Undefined {
        let (lit, chosen) = choose|lit: Lit, chosen: B|
            #![trigger ready.chooses(values, Some(lit), &chosen)]
            {
                &&& ready.chooses(values, Some(lit), &chosen)
                &&& lit.in_range(values.len() as int)
                &&& values[lit.index()] is None
                &&& exists|mid: B, first: Option<Seq<bool>>|
                    #![trigger halfway(mid, first)]
                    {
                        &&& halfway(mid, first)
                        &&& searches(chosen, with_lit(values, lit), formula, (depth - 1) as nat, mid, first)
                        &&& if first is Some {
                            after == mid && found == first
                        } else {
                            searches(mid, with_lit(values, lit.negated()), formula, (depth - 1) as nat, after, found)
                        }
                    }
            };
        let (mid, first) = choose|mid: B, first: Option<Seq<bool>>|
            #![trigger halfway(mid, first)]
            {
                &&& halfway(mid, first)
                &&& searches(chosen, with_lit(values, lit), formula, (depth - 1) as nat, mid, first)
                &&& if first is Some {
                    after == mid && found == first
                } else {
                    searches(mid, with_lit(values, lit.negated()), formula, (depth - 1) as nat, after, found)
                }
            };
        (ready, lit, chosen, mid, first)
    } else {
        (ready, arbitrary(), ready, ready, None)
    }
}

impl<B: Branching> BruteForceSolver<B> {
    /// The strategy by which the engine decides.
    pub closed spec fn strategy(&self) -> B {
        self.brancher
    }

    /// An engine that decides variables as `brancher` chooses them.
    pub fn new(brancher: B) -> (solver: BruteForceSolver<B>)
        ensures
            solver.strategy() == brancher,
    {
        BruteForceSolver { assignment: PartialAssignment::new(0), n_vars: 0, brancher }
    }

    /// Searches the assignments that extend the current partial one.
    ///
    /// Gives one under which the formula holds, if there is any; else leaves
    /// the partial assignment as it found it.
    fn solve_from_assignment(&mut self, clauses: &Vec<Clause>) -> (solution: Solution)
        requires
            old(self).assignment@.len() == old(self).n_vars,
            formula_in_range(clauses.deep_view(), old(self).n_vars as int),
        ensures
            final(self).n_vars == old(self).n_vars,
            final(self).assignment@.len() == old(self).n_vars,
            match solution {
                Solution::Sat(model) => extends(model@, old(self).assignment@) && formula_holds(model@, clauses.deep_view()),
                Solution::Unsat => {
                    &&& final(self).assignment@ == old(self).assignment@
                    &&& forall|model: Seq<bool>| extends(model, old(self).assignment@) ==> !#[trigger] formula_holds(model, clauses.deep_view())
                },
            },
            forall|rule: spec_fn(Seq<Option<bool>>) -> Option<Lit>| #[trigger]
                bound_to::<B>(rule) ==> solution.model() == search_from(old(self).assignment@, clauses.deep_view(), rule),
            searches(
                old(self).strategy(),
                old(self).assignment@,
                clauses.deep_view(),
                free_count(old(self).assignment@),
                final(self).strategy(),
                solution.model(),
            ),
        decreases free_count(old(self).assignment@),
    {
        let ghost start = self.assignment@;
        let ghost formula = clauses.deep_view();
        let ghost depth = free_count(start);
        self.brancher.reset(self.n_vars);
        let ghost fresh = self.brancher;
        let shown = clauses.as_slice();
        self.brancher.add_clauses(shown);
        let ghost ready = self.brancher;
        proof {
            assert(shown.deep_view() =~= formula);
            assert(in_turn(fresh, formula, ready, noting::<B>()));
            assert(primed(old(self).strategy(), start.len() as int, formula, ready));
        }
        match self.assignment.eval(clauses) {
            EvalResult::True => {
                proof {
                    lemma_completed_holds(start, clauses.deep_view());
                }
                Solution::Sat(self.assignment.complete())
            },
            EvalResult::False(_) => {
                proof {
                    let j = choose|j: int| 0 <= j < clauses@.len() && clause_falsified(start, clauses.deep_view()[j]);
                    assert forall|model: Seq<bool>| extends(model, start) implies !#[trigger] formula_holds(model, clauses.deep_view()) by {
                        lemma_extension_agrees(model, start, clauses.deep_view()[j]);
                    }
                }
                Solution::Unsat
            },
            EvalResult::Undefined(_) => {
                proof {
                    let j = choose|j: int| first_undefined(start, clauses.deep_view(), j);
                    lemma_undefined_has_free(start, clauses.deep_view()[j]);
                }
                let lit = self.brancher.branch(&self.assignment).unwrap();
                let ghost chosen = self.brancher;
                let neg_lit = negate_literal(&lit);
                let ghost lit_true = start.update(lit.index(), Some(lit.positive));
                let ghost lit_false = start.update(lit.index(), Some(neg_lit.positive));
                proof {
                    lemma_free_count_update(start, lit.index(), Some(lit.positive));
                    lemma_free_count_update(lit_true, lit.index(), Some(neg_lit.positive));
                    assert(lit_true.update(lit.index(), Some(neg_lit.positive)) =~= lit_false);
                    assert(lit_false.update(lit.index(), None) =~= start);
                }
                self.assignment.set(&lit);
                let ghost rest = (depth - 1) as nat;
                let first = self.solve_from_assignment(clauses);
                let ghost mid = self.brancher;
                let ghost first_found = first.model();
                proof {
                    assert(with_lit(start, lit) == lit_true);
                    assert(searches(chosen, with_lit(start, lit), formula, rest, mid, first_found));
                }
                match first {
                    Solution::Sat(res) => {
                        proof {
                            assert(halfway(mid, first_found));
                            assert(searches(old(self).strategy(), start, formula, depth, mid, first_found));
                        }
                        return Solution::Sat(res);
                    },
                    Solution::Unsat => {},
                }
                self.assignment.set(&neg_lit);
                let second = self.solve_from_assignment(clauses);
                let ghost last = self.brancher;
                let ghost second_found = second.model();
                proof {
                    assert(with_lit(start, lit.negated()) == lit_false);
                    assert(searches(mid, with_lit(start, lit.negated()), formula, rest, last, second_found));
                    assert(halfway(mid, first_found));
                    assert(searches(old(self).strategy(), start, formula, depth, last, second_found));
                }
                match second {
                    Solution::Sat(res) => {
                        return Solution::Sat(res);
                    },
                    Solution::Unsat => {},
                }
                self.assignment.unset(&lit);
                proof {
                    assert forall|model: Seq<bool>| extends(model, start) implies !#[trigger] formula_holds(model, clauses.deep_view()) by {
                        if model[lit.index()] == lit.positive {
                            assert(extends(model, lit_true));
                        } else {
                            assert(extends(model, lit_false));
                        }
                    }
                }
                Solution::Unsat
            },
        }
    }
}

impl<B: Branching> SatSolver for BruteForceSolver<B> {
    /// The engine takes every formula.
    open spec fn accepts(n_vars: int, clauses: Seq<Seq<Lit>>) -> bool {
        true
    }

    /// The rules that the engine's strategy is bound to.
    open spec fn follows(rule: spec_fn(Seq<Option<bool>>) -> Option<Lit>) -> bool {
        bound_to::<B>(rule)
    }

    /// What the exhaustive search finds, starting with no variable decided.
    open spec fn outcome(
        n_vars: int,
        clauses: Seq<Seq<Lit>>,
        rule: spec_fn(Seq<Option<bool>>) -> Option<Lit>,
    ) -> Option<Seq<bool>> {
        search_from(Seq::new(n_vars as nat, |v: int| None), clauses, rule)
    }

    fn takes(&self, n_vars: u64, clauses: &Vec<Clause>) -> (taken: bool) {
        n_vars <= usize::MAX as u64 && formula_fits(clauses, n_vars)
    }

    /// Searches from the assignment that decides nothing, with the strategy
    /// as it is.
    fn solve(&mut self, n_vars: u64, clauses: &Vec<Clause>) -> (solution: Solution)
        ensures
            searches(
                old(self).strategy(),
                Seq::new(n_vars as nat, |v: int| None),
                clauses.deep_view(),
                free_count(Seq::new(n_vars as nat, |v: int| None::<bool>)),
                final(self).strategy(),
                solution.model(),
            ),
    {
        self.assignment = PartialAssignment::new(n_vars as usize);
        self.n_vars = n_vars;
        let ghost start = self.assignment@;
        assert(start =~= Seq::new(n_vars as nat, |v: int| None));
        let solution = self.solve_from_assignment(clauses);
        proof {
            if solution is Unsat {
                assert forall|model: Seq<bool>| model.len() == n_vars implies !#[trigger] formula_holds(model, clauses.deep_view()) by {
                    assert(extends(model, start));
                }
            }
        }
        solution
    }
}

} // verus!
