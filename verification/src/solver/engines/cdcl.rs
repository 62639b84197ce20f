//! The engine that learns a clause from every conflict.

use vstd::prelude::*;
use crate::solver::SatSolver;
use crate::solver::cnf_ops::{negate_literal, resolve, resolvent};
use crate::solver::data_model::{
    EvalResult,
    PartialAssignment,
    Solution,
    completed,
    free_count,
    lemma_completed_holds,
    lemma_free_count_update,
    lemma_verdict,
    lit_value,
    verdict,
};
use crate::solver::engines::branching::{Branching, bound_to, in_turn, noting, primed};
use crate::solver::engines::brute_force::lemma_undefined_has_free;
use crate::solver::engines::cdcl::analysis::{
    conflicting,
    footprint,
    jump_level,
    lemma_conflict_is_recent,
    lemma_resolution_step,
    lemma_root_conflict,
    rank,
    recorded_level,
    resolvable,
};
use crate::solver::engines::cdcl::course::{
    after_conflict,
    analyzed,
    course,
    courses,
    first_resolvable,
    first_unit,
    forced,
    implied,
    initial,
    lemma_after_conflict,
    lemma_after_decision,
    lemma_analyzed,
    lemma_first_unit,
    lemma_forced,
    lemma_initial,
    lemma_propagated,
    propagated,
};
use crate::solver::engines::cdcl::measure::{lemma_mask_bounds, pow3};
use crate::solver::engines::cdcl::state::{Search, is_unit, pending, unit_at};
use crate::solver::engines::cdcl::steps::{
    lemma_decide,
    lemma_imply,
    lemma_nothing_above,
    lemma_trail_bounds,
    lemma_undo,
    lemma_urgency_bounds,
    nothing_above,
    urgency,
};
use crate::solver::formula::{
    Clause,
    Lit,
    clause_in_range,
    formula_fits,
    formula_has_no_repeats,
    formula_in_range,
    no_repeats,
};

pub mod analysis;
pub mod course;
pub mod measure;
pub mod state;
pub mod steps;

verus! {

/// The engine that propagates what the clauses force, decides a literal
/// where nothing is forced, and from every conflict learns a clause by
/// resolution and goes back as many levels as that clause allows.
pub struct CdclSolver<B> where B: Branching {
    assignment: PartialAssignment,
    clauses: Vec<Clause>,
    implications: Vec<Option<usize>>,
    current_decision_level: u64,
    lit_decision_levels: Vec<Option<u64>>,
    brancher: B,
    formula: Ghost<Seq<Seq<Lit>>>,
    trail: Ghost<Seq<int>>,
    stamps: Ghost<Seq<int>>,
    decisions: Ghost<Seq<int>>,
}

/// A copy of `clauses`.
fn copy_clauses(clauses: &Vec<Clause>) -> (copy: Vec<Clause>)
    ensures
        copy@.len() == clauses@.len(),
        forall|j: int| 0 <= j < clauses@.len() ==> (#[trigger] copy@[j])@ == clauses.deep_view()[j],
{
    let mut copy: Vec<Clause> = Vec::new();
    let mut j: usize = 0;
    while j < clauses.len()
        invariant
            j <= clauses@.len(),
            copy@.len() == j,
            forall|i: int| 0 <= i < j ==> (#[trigger] copy@[i])@ == clauses.deep_view()[i],
        decreases clauses@.len() - j,
    {
        copy.push(clauses[j].clone());
        j += 1;
    }
    copy
}

/// `n` entries, all `None`.
fn nones<T>(n: usize) -> (all: Vec<Option<T>>)
    ensures
        all@.len() == n,
        forall|i: int| 0 <= i < n ==> (#[trigger] all@[i]) is None,
{
    let mut all: Vec<Option<T>> = Vec::new();
    let mut i: usize = 0;
    while i < n
        invariant
            i <= n,
            all@.len() == i,
            forall|k: int| 0 <= k < i ==> (#[trigger] all@[k]) is None,
        decreases n - i,
    {
        all.push(None);
        i += 1;
    }
    all
}

impl<B: Branching> CdclSolver<B> {
    /// The state of the search as a mathematical value.
    pub closed spec fn search(&self) -> Search {
        Search {
            values: self.assignment@,
            clauses: self.clauses.deep_view(),
            reasons: self.implications@.map_values(
                |reason: Option<usize>|
                    match reason {
                        Some(c) => Some(c as int),
                        None => None,
                    },
            ),
            levels: self.lit_decision_levels@,
            level: self.current_decision_level as int,
            trail: self.trail@,
            stamps: self.stamps@,
            decisions: self.decisions@,
        }
    }

    /// The strategy by which the engine decides.
    pub closed spec fn strategy(&self) -> B {
        self.brancher
    }

    /// The formula that the engine was last prepared for.
    pub closed spec fn formula(&self) -> Seq<Seq<Lit>> {
        self.formula@
    }

    /// Whether the engine is in a state that a search for its formula can
    /// be in.
    pub open spec fn ready(&self) -> bool {
        self.search().inv(self.formula())
    }

    /// An engine that decides literals as `brancher` chooses them. It starts
    /// out prepared for the formula without variables and clauses.
    pub fn new(brancher: B) -> (solver: CdclSolver<B>)
        ensures
            solver.strategy() == brancher,
            solver.search() == initial(0, Seq::empty()),
            solver.formula() == Seq::<Seq<Lit>>::empty(),
    {
        proof {

        }
        let solver = CdclSolver {
            assignment: PartialAssignment::new(0),
            clauses: Vec::new(),
            implications: Vec::new(),
            current_decision_level: 0,
            lit_decision_levels: Vec::new(),
            brancher,
            formula: Ghost(Seq::empty()),
            trail: Ghost(Seq::empty()),
            stamps: Ghost(Seq::empty()),
            decisions: Ghost(Seq::empty()),
        };
        proof {
            let s = solver.search();
            let fresh = initial(0, Seq::<Seq<Lit>>::empty());
            assert(s.values =~= fresh.values);
            assert(s.reasons =~= fresh.reasons);
            assert(s.levels =~= fresh.levels);
            assert(s.clauses =~= fresh.clauses);
            assert(s.stamps =~= fresh.stamps);
            assert(s =~= fresh);
        }
        solver
    }

    /// The current decision level.
    pub fn decision_level(&self) -> (level: u64)
        ensures
            level == self.search().level,
    {
        self.current_decision_level
    }

    /// The assignment built so far.
    pub fn assignment(&self) -> (assignment: &PartialAssignment)
        ensures
            assignment@ == self.search().values,
    {
        &self.assignment
    }

    /// The number of clauses at hand: those of the formula and those learned.
    pub fn clause_count(&self) -> (count: usize)
        ensures
            count == self.search().clauses.len(),
    {
        self.clauses.len()
    }

    /// The clause at place `c`: one of the formula, or a learned one.
    pub fn clause(&self, c: usize) -> (clause: &Clause)
        requires
            c < self.search().clauses.len(),
        ensures
            clause@ == self.search().clauses[c as int],
    {
        &self.clauses[c]
    }

    /// The level recorded for `lit`: that of its variable, where `lit` is true.
    pub fn level_of(&self, lit: &Lit) -> (level: Option<u64>)
        requires
            lit.in_range(self.search().n()),
            self.search().levels.len() == self.search().n(),
        ensures
            level == if lit_value(self.search().values, *lit) == Some(true) {
                self.search().levels[lit.index()]
            } else {
                None
            },
    {
        let n_vars: usize = self.lit_decision_levels.len();
        match self.assignment.get(lit) {
            Some(true) => self.lit_decision_levels[(lit.var - 1) as usize],
            _ => None,
        }
    }

    /// The place of the clause recorded as the reason for `lit`, where `lit`
    /// is true and was implied.
    pub fn implication(&self, lit: &Lit) -> (reason: Option<usize>)
        requires
            lit.in_range(self.search().n()),
            self.search().reasons.len() == self.search().n(),
        ensures
            reason is Some <==> lit_value(self.search().values, *lit) == Some(true) && self.search().reasons[lit.index()] is Some,
            reason matches Some(c) ==> self.search().reasons[lit.index()] == Some(c as int),
    {
        let n_vars: usize = self.implications.len();
        match self.assignment.get(lit) {
            Some(true) => self.implications[(lit.var - 1) as usize],
            _ => None,
        }
    }

    /// Propagates until no clause forces a literal any more.
    pub fn unit_propagate(&mut self)
        requires
            old(self).ready(),
        ensures
            final(self).search() == propagated(old(self).search()),
            final(self).formula() == old(self).formula(),
            final(self).strategy() == old(self).strategy(),
            final(self).ready(),
    {
        let ghost start = self.search();
        let ghost formula = self.formula();
        loop
            invariant
                self.search().inv(formula),
                self.formula() == formula,
                self.strategy() == old(self).strategy(),
                propagated(self.search()) == propagated(start),
            ensures
                self.search() == propagated(start),
                self.search().inv(formula),
                self.formula() == formula,
                self.strategy() == old(self).strategy(),
            decreases free_count(self.search().values),
        {
            let ghost before = self.search();
            proof {
                lemma_first_unit(before, 0);
            }
            if !self.unit_propagate_step() {
                break;
            }
            proof {
                let c = first_unit(before, 0)->0;
                let k = choose|k: int| unit_at(before.values, before.clauses[c], k);
                assert(clause_in_range(before.clauses[c], before.n()));
                assert(before.clauses[c][k].in_range(before.n()));
                lemma_free_count_update(before.values, forced(before.values, before.clauses[c]).index(), Some(forced(before.values, before.clauses[c]).positive));
            }
        }
    }

    /// Decides the literal that the branching strategy chooses, on a new
    /// decision level.
    pub fn branch(&mut self)
        requires
            old(self).ready(),
            !pending(old(self).search()),
            verdict(old(self).search().values, old(self).formula()) is Undefined,
        ensures
            final(self).formula() == old(self).formula(),
            final(self).ready(),
            exists|lit: Lit|
                {
                    &&& B::allows(old(self).search().values, Some(lit))
                    &&& old(self).strategy().chooses(old(self).search().values, Some(lit), &final(self).strategy())
                    &&& lit.in_range(old(self).search().n())
                    &&& old(self).search().values[lit.index()] is None
                    &&& final(self).search() == #[trigger] old(self).search().assign(
                        lit,
                        None,
                        old(self).search().level + 1,
                    )
                },
    {
        let ghost before = self.search();
        let ghost formula = self.formula();
        proof {
            lemma_verdict(before.values, formula);
            let j = verdict(before.values, formula)->Undefined_0;
            assert(clause_in_range(before.clauses[j], before.n()));
            lemma_undefined_has_free(before.values, formula[j]);
        }
        let lit = self.brancher.branch(&self.assignment).unwrap();
        proof {
            lemma_decide(before, formula, lit);
            assert(before.var_ok(lit.index()));
        }
        let n_vars: usize = self.lit_decision_levels.len();
        self.current_decision_level += 1;
        self.assignment.set(&lit);
        self.lit_decision_levels.set((lit.var - 1) as usize, Some(self.current_decision_level));
        proof {
            self.stamps = Ghost(self.stamps@.update(lit.index(), self.trail@.len() as int));
            self.trail = Ghost(self.trail@.push(lit.index()));
            self.decisions = Ghost(self.decisions@.push(lit.index()));
            let after = before.assign(lit, None, before.level + 1);
            assert(self.search().reasons =~= after.reasons);
            assert(self.search().values =~= after.values);
            assert(self.search().levels =~= after.levels);
            assert(self.search() =~= after);
        }
    }

    /// Derives the clause to learn from a clause that the assignment
    /// falsifies.
    ///
    /// As long as the derived clause holds a literal whose negation was
    /// implied at the current level, the first such literal is resolved away
    /// against the clause that implied its negation.
    pub fn analyze_conflict(&self, conflict_clause: Clause) -> (learned: Clause)
        requires
            self.ready(),
            self.search().level >= 1,
            conflicting(self.search(), self.formula(), conflict_clause@),
        ensures
            learned@ == analyzed(self.search(), self.formula(), conflict_clause@),
    {
        let ghost s = self.search();
        let ghost formula = self.formula();
        let ghost start = conflict_clause@;
        let mut derived_clause = conflict_clause;
        proof {
            lemma_mask_bounds(footprint(s, derived_clause@));
        }
        loop
            invariant
                s == self.search(),
                s.inv(formula),
                s.level >= 1,
                conflicting(s, formula, derived_clause@),
                0 <= rank(s, derived_clause@),
                analyzed(s, formula, derived_clause@) == analyzed(s, formula, start),
            ensures
                derived_clause@ == analyzed(s, formula, start),
            decreases rank(s, derived_clause@),
        {
            let mut resolved_clause: Option<Clause> = None;
            let mut k: usize = 0;
            while k < derived_clause.len()
                invariant_except_break
                    resolved_clause is None,
                invariant
                    s == self.search(),
                    s.inv(formula),
                    s.level >= 1,
                    conflicting(s, formula, derived_clause@),
                    k <= derived_clause@.len(),
                    first_resolvable(s, derived_clause@, k as int) == first_resolvable(s, derived_clause@, 0),
                ensures
                    match resolved_clause {
                        None => first_resolvable(s, derived_clause@, 0) is None,
                        Some(clause) => {
                            &&& first_resolvable(s, derived_clause@, 0) matches Some(at)
                            &&& clause@ == resolvent(
                                s.clauses[s.reasons[derived_clause@[at].index()]->0],
                                derived_clause@,
                                derived_clause@[at],
                            )
                            &&& conflicting(s, formula, clause@)
                            &&& 0 <= rank(s, clause@) < rank(s, derived_clause@)
                        },
                    },
                decreases derived_clause@.len() - k,
            {
                let lit = derived_clause.lit(k);
                let neg_lit = negate_literal(&lit);
                assert(lit.in_range(s.n()));
                assert(lit_value(s.values, lit) == Some(false));
                assert(s.var_ok(lit.index()));
                let is_current_level = match self.level_of(&neg_lit) {
                    Some(level) => level == self.current_decision_level,
                    None => false,
                };
                if is_current_level {
                    match self.implication(&neg_lit) {
                        Some(reason) => {
                            proof {
                                assert(resolvable(s, lit));
                                lemma_resolution_step(s, formula, derived_clause@, k as int);
                            }
                            let implied_clause = &self.clauses[reason];
                            resolved_clause = Some(resolve(implied_clause, &derived_clause, &lit));
                            break;
                        },
                        None => {},
                    }
                }
                assert(!resolvable(s, lit));
                k += 1;
            }
            match resolved_clause {
                None => {
                    break;
                },
                Some(clause) => {
                    derived_clause = clause;
                },
            }
        }
        derived_clause
    }

    /// Implies the literal of the first clause that forces one; says whether
    /// there was such a clause.
    pub fn unit_propagate_step(&mut self) -> (progress: bool)
        requires
            old(self).ready(),
        ensures
            final(self).ready(),
            final(self).formula() == old(self).formula(),
            final(self).strategy() == old(self).strategy(),
            final(self).search() == implied(old(self).search()),
            progress == first_unit(old(self).search(), 0) is Some,
    {
        let ghost before = self.search();
        let ghost formula = self.formula();
        let mut c: usize = 0;
        while c < self.clauses.len()
            invariant
                self.search() == before,
                before == old(self).search(),
                self.formula() == formula,
                formula == old(self).formula(),
                self.strategy() == old(self).strategy(),
                before.inv(formula),
                c <= before.clauses.len(),
                first_unit(before, c as int) == first_unit(before, 0),
            decreases before.clauses.len() - c,
        {
            assert(clause_in_range(before.clauses[c as int], before.n()));
            match self.unit_propagate_clause(&self.clauses[c]) {
                Some(lit) => {
                    let ghost k = choose|k: int| unit_at(before.values, before.clauses[c as int], k) && before.clauses[c as int][k] == lit;
                    proof {
                        lemma_imply(before, formula, c as int, k);
                        lemma_forced(before.values, before.clauses[c as int], k);
                        assert(lit.in_range(before.n()));
                    }
                    let n_vars: usize = self.lit_decision_levels.len();
                    self.assignment.set(&lit);
                    self.implications.set((lit.var - 1) as usize, Some(c));
                    self.lit_decision_levels.set((lit.var - 1) as usize, Some(self.current_decision_level));
                    proof {
                        self.stamps = Ghost(self.stamps@.update(lit.index(), self.trail@.len() as int));
                        self.trail = Ghost(self.trail@.push(lit.index()));
                    }
                    assert(self.search().reasons =~= before.assign(lit, Some(c as int), before.level).reasons);
                    assert(self.search() =~= before.assign(lit, Some(c as int), before.level));
                    return true;
                },
                None => {},
            }
            c += 1;
        }
        false
    }

    /// The literal that `clause` forces: the one without a value, where it is
    /// the only such occurrence and every other literal is false.
    pub fn unit_propagate_clause(&self, clause: &Clause) -> (forced: Option<Lit>)
        requires
            clause_in_range(clause@, self.search().n()),
        ensures
            match forced {
                Some(lit) => exists|k: int| unit_at(self.search().values, clause@, k) && clause@[k] == lit,
                None => !is_unit(self.search().values, clause@),
            },
    {
        let ghost values = self.search().values;
        let mut result: Option<Lit> = None;
        let ghost mut at: int = 0;
        let mut i: usize = 0;
        while i < clause.len()
            invariant
                values == self.search().values,
                clause_in_range(clause@, values.len() as int),
                i <= clause@.len(),
                result is None ==> forall|o: int| 0 <= o < i ==> lit_value(values, #[trigger] clause@[o]) == Some(false),
                result is Some ==> {
                    &&& 0 <= at < i
                    &&& clause@[at] == result->0
                    &&& lit_value(values, clause@[at]) is None
                    &&& forall|o: int| 0 <= o < i && o != at ==> lit_value(values, #[trigger] clause@[o]) == Some(false)
                },
            decreases clause@.len() - i,
        {
            let lit = clause.lit(i);
            assert(clause@[i as int].in_range(values.len() as int));
            match self.assignment.get(&lit) {
                Some(true) => {
                    assert forall|k: int| !unit_at(values, clause@, k) by {
                        if unit_at(values, clause@, k) && k != i {
                            assert(lit_value(values, clause@[i as int]) == Some(false));
                        }
                    }
                    return None;
                },
                Some(false) => {},
                None => {
                    if result.is_some() {
                        assert forall|k: int| !unit_at(values, clause@, k) by {
                            if unit_at(values, clause@, k) {
                                if k == i {
                                    assert(lit_value(values, clause@[at]) == Some(false));
                                } else {
                                    assert(lit_value(values, clause@[i as int]) == Some(false));
                                }
                            }
                        }
                        return None;
                    }
                    result = Some(lit);
                    proof {
                        at = i as int;
                    }
                },
            }
            i += 1;
        }
        proof {
            if result is Some {
                assert(unit_at(values, clause@, at));
            } else {
                assert forall|k: int| !unit_at(values, clause@, k) by {
                    if unit_at(values, clause@, k) {
                        assert(lit_value(values, clause@[k]) == Some(false));
                    }
                }
            }
        }
        result
    }

    /// Goes back to `decision_level`: takes the value, the level and the
    /// reason from every variable that got its value above that level.
    ///
    /// Afterwards no variable has a level above `decision_level`, and what
    /// was taken from a variable is gone from all three records. Going back
    /// below the current level leaves a state that a search can be in.
    pub fn backjump(&mut self, decision_level: u64)
        requires
            old(self).search().levels.len() == old(self).search().n(),
            old(self).search().reasons.len() == old(self).search().n(),
            old(self).search().n() <= u64::MAX,
        ensures
            final(self).search() == old(self).search().undo(decision_level as int),
            final(self).formula() == old(self).formula(),
            final(self).strategy() == old(self).strategy(),
            old(self).ready() && decision_level < old(self).search().level ==> final(self).ready(),
            old(self).ready() ==> nothing_above(final(self).search(), decision_level as int),
            forall|v: int|
                0 <= v < final(self).search().n() && (#[trigger] final(self).search().levels[v]) is Some
                    ==> final(self).search().levels[v]->0 <= decision_level,
            forall|v: int|
                0 <= v < final(self).search().n() && old(self).search().above(v, decision_level as int) ==> {
                    &&& (#[trigger] final(self).search().values[v]) is None
                    &&& final(self).search().levels[v] is None
                    &&& final(self).search().reasons[v] is None
                },
    {
        let ghost before = self.search();
        let ghost after = before.undo(decision_level as int);
        self.current_decision_level = decision_level;
        let n_vars: usize = self.lit_decision_levels.len();
        let mut v: usize = 0;
        while v < n_vars
            invariant
                v <= n_vars,
                n_vars == before.n(),
                n_vars <= u64::MAX,
                self.search().values.len() == n_vars,
                self.search().levels.len() == n_vars,
                self.search().reasons.len() == n_vars,
                before.levels.len() == n_vars,
                before.reasons.len() == n_vars,
                self.search().clauses == before.clauses,
                self.search().level == decision_level,
                self.search().trail == before.trail,
                self.search().stamps == before.stamps,
                self.search().decisions == before.decisions,
                self.formula() == old(self).formula(),
                self.strategy() == old(self).strategy(),
                after == before.undo(decision_level as int),
                forall|u: int|
                    0 <= u < v ==> {
                        &&& self.search().values[u] == after.values[u]
                        &&& self.search().levels[u] == after.levels[u]
                        &&& self.search().reasons[u] == after.reasons[u]
                    },
                forall|u: int|
                    v <= u < n_vars ==> {
                        &&& self.search().values[u] == before.values[u]
                        &&& self.search().levels[u] == before.levels[u]
                        &&& self.search().reasons[u] == before.reasons[u]
                    },
            decreases n_vars - v,
        {
            let stale = match self.lit_decision_levels[v] {
                Some(level) => level > decision_level,
                None => false,
            };
            if stale {
                let unset_lit = Lit { var: v as u64 + 1, positive: true };
                self.lit_decision_levels.set(v, None);
                self.assignment.unset(&unset_lit);
                self.implications.set(v, None);
            }
            v += 1;
        }
        proof {
            self.trail = Ghost(after.trail);
            self.decisions = Ghost(after.decisions);
            if old(self).ready() {
                lemma_nothing_above(before, decision_level as int);
                if decision_level < before.level {
                    lemma_undo(before, self.formula(), decision_level as int);
                }
            }
        }
        assert(self.search().values =~= after.values);
        assert(self.search().levels =~= after.levels);
        assert(self.search().reasons =~= after.reasons);
        assert(self.search() =~= after);
    }

    /// The level to go back to after learning `learned_clause`.
    pub fn eval_decision_level(&self, learned_clause: &Clause) -> (target: u64)
        requires
            clause_in_range(learned_clause@, self.search().n()),
            self.search().levels.len() == self.search().n(),
        ensures
            target == jump_level(self.search(), learned_clause@),
    {
        let ghost s = self.search();
        let mut target: u64 = 0;
        let mut k: usize = 0;
        while k < learned_clause.len()
            invariant
                s == self.search(),
                s.levels.len() == s.n(),
                clause_in_range(learned_clause@, s.n()),
                k <= learned_clause@.len(),
                target == jump_level(s, learned_clause@.take(k as int)),
            decreases learned_clause@.len() - k,
        {
            let lit = learned_clause.lit(k);
            let neg_lit = negate_literal(&lit);
            assert(lit.in_range(s.n()));
            let level = self.level_of(&neg_lit).unwrap_or(0);
            proof {
                assert(learned_clause@.take(k + 1).drop_last() =~= learned_clause@.take(k as int));
                assert(level == recorded_level(s, lit));
            }
            if level != self.current_decision_level && level > target {
                target = level;
            }
            k += 1;
        }
        assert(learned_clause@.take(k as int) =~= learned_clause@);
        target
    }

    /// Prepares the engine for the formula made of `clauses` over `n_vars`
    /// variables.
    pub fn reset(&mut self, n_vars: u64, clauses: &Vec<Clause>)
        requires
            n_vars <= usize::MAX,
        ensures
            final(self).search() == initial(n_vars as nat, clauses.deep_view()),
            final(self).formula() == clauses.deep_view(),
            primed(old(self).strategy(), n_vars as int, clauses.deep_view(), final(self).strategy()),
            formula_in_range(clauses.deep_view(), n_vars as int) && no_repeats(clauses.deep_view()) ==> final(self).ready(),
    {
        self.formula = Ghost(clauses.deep_view());
        self.assignment = PartialAssignment::new(n_vars as usize);
        self.clauses = copy_clauses(clauses);
        self.implications = nones(n_vars as usize);
        self.current_decision_level = 0;
        self.lit_decision_levels = nones(n_vars as usize);
        self.brancher.reset(n_vars);
        let ghost fresh = self.brancher;
        let shown = clauses.as_slice();
        self.brancher.add_clauses(shown);
        proof {
            assert(shown.deep_view() =~= clauses.deep_view());
            assert(in_turn(fresh, clauses.deep_view(), self.brancher, noting::<B>()));
            self.trail = Ghost(Seq::empty());
            self.stamps = Ghost(Seq::new(n_vars as nat, |v: int| 0int));
            self.decisions = Ghost(Seq::empty());
            let s = self.search();
            let fresh = initial(n_vars as nat, clauses.deep_view());
            assert(s.values =~= fresh.values);
            assert(s.reasons =~= fresh.reasons);
            assert(s.levels =~= fresh.levels);
            assert(s.clauses =~= fresh.clauses);
            assert(s =~= fresh);
            if formula_in_range(clauses.deep_view(), n_vars as int) && no_repeats(clauses.deep_view()) {
                lemma_initial(n_vars as nat, clauses.deep_view());
            }
        }
    }

    /// Takes `clause` as one more clause, and shows it to the branching
    /// strategy.
    pub fn learn(&mut self, clause: &Clause)
        ensures
            final(self).search() == old(self).search().learn(clause@),
            final(self).formula() == old(self).formula(),
            old(self).strategy().notes(clause@, &final(self).strategy()),
    {
        self.brancher.add_clause(clause);
        self.clauses.push(clause.clone());
        assert(self.search().clauses =~= old(self).search().learn(clause@).clauses);
        assert(self.search() =~= old(self).search().learn(clause@));
    }
}

impl<B: Branching> SatSolver for CdclSolver<B> {
    /// The engine takes the formulas in which no clause holds a literal
    /// twice.
    open spec fn accepts(n_vars: int, clauses: Seq<Seq<Lit>>) -> bool {
        no_repeats(clauses)
    }

    /// The rules that the engine's strategy is bound to.
    open spec fn follows(rule: spec_fn(Seq<Option<bool>>) -> Option<Lit>) -> bool {
        bound_to::<B>(rule)
    }

    /// What the course of the search finds, starting with no variable
    /// decided and the clauses of the formula.
    open spec fn outcome(
        n_vars: int,
        clauses: Seq<Seq<Lit>>,
        rule: spec_fn(Seq<Option<bool>>) -> Option<Lit>,
    ) -> Option<Seq<bool>> {
        course(initial(n_vars as nat, clauses), clauses, rule)
    }

    fn takes(&self, n_vars: u64, clauses: &Vec<Clause>) -> (taken: bool) {
        n_vars <= usize::MAX as u64 && formula_fits(clauses, n_vars) && formula_has_no_repeats(clauses)
    }

    /// Resets the strategy, shows it the formula, and takes the course of
    /// the search from the state in which nothing is decided.
    fn solve(&mut self, n_vars: u64, clauses: &Vec<Clause>) -> (solution: Solution)
        ensures
            exists|ready: B|
                #![trigger primed(old(self).strategy(), n_vars as int, clauses.deep_view(), ready)]
                primed(old(self).strategy(), n_vars as int, clauses.deep_view(), ready) && courses(
                    ready,
                    initial(n_vars as nat, clauses.deep_view()),
                    clauses.deep_view(),
                    final(self).strategy(),
                    solution.model(),
                ),
    {
        self.reset(n_vars, clauses);
        let ghost n = n_vars as nat;
        let ghost start = self.search();
        let ghost ready = self.strategy();
        proof {
            lemma_urgency_bounds(start, clauses.deep_view());
        }
        loop
            invariant
                self.search().inv(clauses.deep_view()),
                self.formula() == clauses.deep_view(),
                self.search().n() == n,
                n == n_vars,
                formula_in_range(clauses.deep_view(), n_vars as int),
                0 <= urgency(self.search()) <= pow3(n),
                start == initial(n, clauses.deep_view()),
                start.inv(clauses.deep_view()),
                forall|rule: spec_fn(Seq<Option<bool>>) -> Option<Lit>| #[trigger]
                    bound_to::<B>(rule) ==> course(self.search(), clauses.deep_view(), rule) == course(start, clauses.deep_view(), rule),
                primed(old(self).strategy(), n_vars as int, clauses.deep_view(), ready),
                forall|after: B, found: Option<Seq<bool>>| #[trigger]
                    courses(self.strategy(), self.search(), clauses.deep_view(), after, found) ==> courses(
                        ready,
                        start,
                        clauses.deep_view(),
                        after,
                        found,
                    ),
            decreases pow3(n) - urgency(self.search()),
        {
            let ghost head = self.search();
            let ghost asked = self.strategy();
            self.unit_propagate();
            let ghost calm = self.search();
            proof {
                lemma_propagated(head, clauses.deep_view());
                lemma_trail_bounds(calm);
            }
            match self.assignment.eval(clauses) {
                EvalResult::True => {
                    proof {
                        lemma_completed_holds(calm.values, clauses.deep_view());
                        assert forall|rule: spec_fn(Seq<Option<bool>>) -> Option<Lit>| #[trigger]
                            bound_to::<B>(rule) implies course(head, clauses.deep_view(), rule) == Some(
                            completed(calm.values),
                        ) by {}
                        assert(courses(asked, head, clauses.deep_view(), asked, Some(completed(calm.values))));
                    }
                    return Solution::Sat(self.assignment.complete());
                },
                EvalResult::False(conflict_clause) => {
                    let ghost j = verdict(calm.values, clauses.deep_view())->Falsified_0;
                    if self.current_decision_level == 0 {
                        proof {
                            lemma_root_conflict(calm, clauses.deep_view(), j);
                            assert forall|rule: spec_fn(Seq<Option<bool>>) -> Option<Lit>| #[trigger]
                                bound_to::<B>(rule) implies course(head, clauses.deep_view(), rule) == None::<Seq<bool>> by {}
                            assert(courses(asked, head, clauses.deep_view(), asked, None));
                        }
                        return Solution::Unsat;
                    }
                    proof {
                        lemma_conflict_is_recent(calm, clauses.deep_view(), j);
                        lemma_after_conflict(calm, clauses.deep_view(), j);
                    }
                    let learned_clause = self.analyze_conflict(conflict_clause);
                    self.learn(&learned_clause);
                    let ghost kept = learned_clause;
                    proof {
                        lemma_analyzed(calm, clauses.deep_view(), clauses.deep_view()[j]);
                    }
                    let max_decision_level = self.eval_decision_level(&learned_clause);
                    assert(jump_level(calm.learn(kept@), learned_clause@) == jump_level(calm, learned_clause@)) by {
                        lemma_jump_level_same(calm, calm.learn(kept@), learned_clause@);
                    }
                    self.backjump(max_decision_level);
                    assert(self.search() == after_conflict(calm, clauses.deep_view(), j));
                    proof {
                        let taught = self.strategy();
                        let next = self.search();
                        assert(asked.notes(analyzed(calm, clauses.deep_view(), clauses.deep_view()[j]), &taught));
                        assert forall|after: B, found: Option<Seq<bool>>| #[trigger]
                            courses(taught, next, clauses.deep_view(), after, found) implies courses(
                            ready,
                            start,
                            clauses.deep_view(),
                            after,
                            found,
                        ) by {
                            assert(courses(asked, head, clauses.deep_view(), after, found));
                        }
                    }
                },
                EvalResult::Undefined(_) => {
                    self.branch();
                    proof {
                        let next = self.search();
                        let chosen = self.strategy();
                        let lit = choose|lit: Lit|
                            {
                                &&& B::allows(calm.values, Some(lit))
                                &&& asked.chooses(calm.values, Some(lit), &chosen)
                                &&& lit.in_range(calm.n())
                                &&& calm.values[lit.index()] is None
                                &&& next == #[trigger] calm.assign(lit, None, calm.level + 1)
                            };
                        lemma_after_decision(calm, clauses.deep_view(), lit);
                        assert forall|after: B, found: Option<Seq<bool>>| #[trigger]
                            courses(chosen, next, clauses.deep_view(), after, found) implies courses(
                            ready,
                            start,
                            clauses.deep_view(),
                            after,
                            found,
                        ) by {
                            assert(courses(asked, head, clauses.deep_view(), after, found));
                        }
                    }
                },
            }
        }
    }
}

/// The level to go back to depends on the values and the levels alone.
proof fn lemma_jump_level_same(s: Search, t: Search, learned: Seq<Lit>)
    requires
        s.values == t.values,
        s.levels == t.levels,
        s.level == t.level,
    ensures
        jump_level(s, learned) == jump_level(t, learned),
    decreases learned.len(),
{
    if learned.len() > 0 {
        lemma_jump_level_same(s, t, learned.drop_last());
    }
}

} // verus!
