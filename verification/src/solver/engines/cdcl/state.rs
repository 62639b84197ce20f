//! The state of the learning engine as a mathematical value, and what holds
//! of it at every step of a search.

use vstd::prelude::*;
use crate::solver::data_model::{clause_falsified, lit_value};
use crate::solver::formula::{Lit, clause_holds, clause_in_range, formula_holds};

verus! {

/// Whether `clause` has no value at position `k` and is false everywhere else.
pub open spec fn unit_at(values: Seq<Option<bool>>, clause: Seq<Lit>, k: int) -> bool {
    &&& 0 <= k < clause.len()
    &&& lit_value(values, clause[k]) is None
    &&& forall|other: int|
        0 <= other < clause.len() && other != k ==> lit_value(values, #[trigger] clause[other]) == Some(
            false,
        )
}

/// Whether `clause` forces a literal under `values`: exactly one of its
/// literal occurrences has no value, and all the others are false.
pub open spec fn is_unit(values: Seq<Option<bool>>, clause: Seq<Lit>) -> bool {
    exists|k: int| unit_at(values, clause, k)
}

/// Whether every assignment to `n` variables under which `formula` holds makes
/// `clause` true.
pub open spec fn entails(formula: Seq<Seq<Lit>>, n: int, clause: Seq<Lit>) -> bool {
    forall|model: Seq<bool>|
        model.len() == n && #[trigger] formula_holds(model, formula) ==> clause_holds(model, clause)
}

/// Whether `values` forces no literal through any clause of `clauses` and
/// falsifies no clause of `formula`.
pub open spec fn quiet(values: Seq<Option<bool>>, clauses: Seq<Seq<Lit>>, formula: Seq<Seq<Lit>>) -> bool {
    &&& forall|c: int| 0 <= c < clauses.len() ==> !is_unit(values, #[trigger] clauses[c])
    &&& forall|j: int| 0 <= j < formula.len() ==> !clause_falsified(values, #[trigger] formula[j])
}

/// What is left of `values` when only the variables stamped before `limit`
/// keep their value.
pub open spec fn restrict(values: Seq<Option<bool>>, stamps: Seq<int>, limit: int) -> Seq<Option<bool>> {
    Seq::new(
        values.len(),
        |v: int|
            if values[v] is Some && stamps[v] < limit {
                values[v]
            } else {
                None
            },
    )
}

/// The state of a search.
pub struct Search {
    /// The value of each variable, where it has one.
    pub values: Seq<Option<bool>>,
    /// The clauses of the formula, followed by the clauses learned so far.
    pub clauses: Seq<Seq<Lit>>,
    /// For each implied variable, the place in `clauses` of the clause that
    /// forced it.
    pub reasons: Seq<Option<int>>,
    /// For each variable with a value, the decision level at which it got it.
    pub levels: Seq<Option<u64>>,
    /// The current decision level.
    pub level: int,
    /// The variables with a value, in the order in which they got it.
    pub trail: Seq<int>,
    /// For each variable with a value, its place in `trail`.
    pub stamps: Seq<int>,
    /// The variable decided at each level, from level 1 on.
    pub decisions: Seq<int>,
}

impl Search {
    /// The number of variables.
    pub open spec fn n(self) -> int {
        self.values.len() as int
    }

    /// Whether variable `v` has a value.
    pub open spec fn assigned(self, v: int) -> bool {
        0 <= v < self.values.len() && self.values[v] is Some
    }

    /// The literal over variable `v` that is true.
    pub open spec fn true_lit(self, v: int) -> Lit {
        Lit { var: (v + 1) as u64, positive: self.values[v]->0 }
    }

    /// The level at which variable `v` got its value.
    pub open spec fn level_of(self, v: int) -> int {
        self.levels[v]->0 as int
    }

    /// The mark of each variable on the trail: 2 where it was implied, 1
    /// where it was decided.
    pub open spec fn marks(self) -> Seq<int> {
        Seq::new(
            self.trail.len(),
            |j: int|
                if self.reasons[self.trail[j]] is Some {
                    2int
                } else {
                    1int
                },
        )
    }

    /// Whether the clause recorded for the implied variable `v` holds its true
    /// literal, and besides it only false literals that got their value
    /// before `v`.
    pub open spec fn reason_ok(self, v: int) -> bool {
        let c = self.reasons[v]->0;
        &&& 0 <= c < self.clauses.len()
        &&& self.clauses[c].contains(self.true_lit(v))
        &&& forall|k: int|
            0 <= k < self.clauses[c].len() && (#[trigger] self.clauses[c][k]) != self.true_lit(v) ==> {
                &&& lit_value(self.values, self.clauses[c][k]) == Some(false)
                &&& self.stamps[self.clauses[c][k].index()] < self.stamps[v]
            }
    }

    /// Whether the records kept for variable `v` fit together.
    pub open spec fn var_ok(self, v: int) -> bool {
        &&& self.levels[v] is Some <==> self.values[v] is Some
        &&& self.reasons[v] is Some ==> self.values[v] is Some
        &&& self.values[v] is Some ==> {
            &&& 0 <= self.stamps[v] < self.trail.len()
            &&& self.trail[self.stamps[v]] == v
            &&& self.level_of(v) <= self.level
            &&& self.reasons[v] is None ==> 1 <= self.level_of(v) && self.decisions[self.level_of(v) - 1] == v
            &&& self.reasons[v] is Some ==> self.reason_ok(v)
        }
    }

    /// Whether place `j` of the trail holds a variable with a value that is
    /// stamped `j`.
    pub open spec fn slot_ok(self, j: int) -> bool {
        &&& self.assigned(self.trail[j])
        &&& self.stamps[self.trail[j]] == j
    }

    /// Whether the variable recorded for level `i + 1` was decided at that
    /// level.
    pub open spec fn dec_ok(self, i: int) -> bool {
        let w = self.decisions[i];
        &&& self.assigned(w)
        &&& self.reasons[w] is None
        &&& self.level_of(w) == i + 1
        &&& self.stamps[w] >= i
    }

    /// Whether variable `v`, if it has a value, is above level `i` exactly
    /// when it got its value no earlier than the decision of level `i + 1`.
    pub open spec fn ordered(self, v: int, i: int) -> bool {
        self.values[v] is Some ==> (self.level_of(v) > i <==> self.stamps[v] >= self.stamps[self.decisions[i]])
    }

    /// Whether the state was quiet just before the decision of level `i + 1`.
    pub open spec fn calm_before(self, formula: Seq<Seq<Lit>>, i: int) -> bool {
        quiet(restrict(self.values, self.stamps, self.stamps[self.decisions[i]]), self.clauses, formula)
    }

    /// Whether `model` gives variable `v` the value it has here, if it got
    /// that value at level 0.
    pub open spec fn root_agrees(self, model: Seq<bool>, v: int) -> bool {
        self.levels[v] == Some(0u64) ==> self.values[v] == Some(model[v])
    }

    /// Whether the trail, the levels and the reasons fit together.
    pub open spec fn wf(self) -> bool {
        &&& self.values.len() <= u64::MAX
        &&& self.levels.len() == self.values.len()
        &&& self.reasons.len() == self.values.len()
        &&& self.stamps.len() == self.values.len()
        &&& self.decisions.len() == self.level
        &&& 0 <= self.level <= u64::MAX
        &&& forall|v: int| 0 <= v < self.values.len() ==> #[trigger] self.var_ok(v)
        &&& forall|j: int| 0 <= j < self.trail.len() ==> #[trigger] self.slot_ok(j)
        &&& forall|i: int| 0 <= i < self.level ==> #[trigger] self.dec_ok(i)
        &&& forall|v: int, i: int| 0 <= v < self.values.len() && 0 <= i < self.level ==> #[trigger] self.ordered(v, i)
    }

    /// Whether the clauses begin with those of `formula`, are over the
    /// variables at hand, hold no literal twice, and follow from `formula`.
    pub open spec fn db_ok(self, formula: Seq<Seq<Lit>>) -> bool {
        &&& self.clauses.len() >= formula.len()
        &&& forall|j: int| 0 <= j < formula.len() ==> (#[trigger] self.clauses[j]) == formula[j]
        &&& forall|c: int| 0 <= c < self.clauses.len() ==> clause_in_range(#[trigger] self.clauses[c], self.n())
        &&& forall|c: int| 0 <= c < self.clauses.len() ==> (#[trigger] self.clauses[c]).no_duplicates()
        &&& forall|c: int| 0 <= c < self.clauses.len() ==> entails(formula, self.n(), (#[trigger] self.clauses[c]))
    }

    /// What holds of the state at every step of a search for `formula`.
    pub open spec fn inv(self, formula: Seq<Seq<Lit>>) -> bool {
        &&& self.wf()
        &&& self.db_ok(formula)
        &&& forall|i: int| 0 <= i < self.level ==> #[trigger] self.calm_before(formula, i)
        &&& forall|model: Seq<bool>, v: int|
            model.len() == self.n() && formula_holds(model, formula) && 0 <= v < self.n() ==> #[trigger] self.root_agrees(model, v)
    }

    /// The state after `lit` got the value true at `level`, for the reason
    /// given; without a reason it is the decision of that level.
    pub open spec fn assign(self, lit: Lit, reason: Option<int>, level: int) -> Search {
        Search {
            values: self.values.update(lit.index(), Some(lit.positive)),
            clauses: self.clauses,
            reasons: self.reasons.update(lit.index(), reason),
            levels: self.levels.update(lit.index(), Some(level as u64)),
            level: level,
            trail: self.trail.push(lit.index()),
            stamps: self.stamps.update(lit.index(), self.trail.len() as int),
            decisions: if reason is None {
                self.decisions.push(lit.index())
            } else {
                self.decisions
            },
        }
    }

    /// Whether variable `v` has a value from a level above `target`.
    pub open spec fn above(self, v: int, target: int) -> bool {
        self.levels[v] is Some && self.level_of(v) > target
    }

    /// The state with `clause` as one more clause.
    pub open spec fn learn(self, clause: Seq<Lit>) -> Search {
        Search { clauses: self.clauses.push(clause), ..self }
    }

    /// The state after everything above level `target` was undone.
    pub open spec fn undo(self, target: int) -> Search {
        Search {
            values: Seq::new(
                self.values.len(),
                |v: int|
                    if self.above(v, target) {
                        None
                    } else {
                        self.values[v]
                    },
            ),
            clauses: self.clauses,
            reasons: Seq::new(
                self.reasons.len(),
                |v: int|
                    if self.above(v, target) {
                        None
                    } else {
                        self.reasons[v]
                    },
            ),
            levels: Seq::new(
                self.levels.len(),
                |v: int|
                    if self.above(v, target) {
                        None
                    } else {
                        self.levels[v]
                    },
            ),
            level: target,
            trail: if 0 <= target < self.level {
                self.trail.take(self.stamps[self.decisions[target]])
            } else {
                self.trail
            },
            stamps: self.stamps,
            decisions: if 0 <= target < self.level {
                self.decisions.take(target)
            } else {
                self.decisions
            },
        }
    }

    /// The state after `clause` was learned and everything above level
    /// `target` was undone.
    pub open spec fn retreat(self, clause: Seq<Lit>, target: int) -> Search {
        self.learn(clause).undo(target)
    }
}

/// Whether some clause of the state forces a literal.
pub open spec fn pending(s: Search) -> bool {
    exists|c: int| 0 <= c < s.clauses.len() && is_unit(s.values, #[trigger] s.clauses[c])
}

} // verus!
