//! Why the analysis of a conflict ends, and what the clause it derives is
//! good for.

use vstd::prelude::*;
use crate::solver::cnf_ops::{
    lemma_resolvent_holds,
    lemma_resolvent_in_range,
    lemma_resolvent_members,
    pivot_in,
    resolvent,
};
use crate::solver::data_model::{clause_falsified, lit_value};
use crate::solver::engines::cdcl::measure::{lemma_mask_bounds, lemma_mask_less, mask};
use crate::solver::engines::cdcl::state::{Search, entails, is_unit, restrict, unit_at};
use crate::solver::engines::cdcl::steps::asserting;
use crate::solver::formula::{
    Lit,
    clause_holds,
    clause_in_range,
    formula_holds,
    lit_holds,
    satisfiable,
};

verus! {

/// Whether `derived` is a clause that the analysis of a conflict in state `s`
/// may hold: it follows from the formula, all its literals are false, none
/// is there twice, and one of them is from the current level.
pub open spec fn conflicting(s: Search, formula: Seq<Seq<Lit>>, derived: Seq<Lit>) -> bool {
    &&& clause_in_range(derived, s.n())
    &&& derived.no_duplicates()
    &&& entails(formula, s.n(), derived)
    &&& clause_falsified(s.values, derived)
    &&& exists|k: int| 0 <= k < derived.len() && s.level_of((#[trigger] derived[k]).index()) == s.level
}

/// Whether the analysis resolves on `lit`: its negation was implied at the
/// current level.
pub open spec fn resolvable(s: Search, lit: Lit) -> bool {
    &&& lit_value(s.values, lit) == Some(false)
    &&& s.level_of(lit.index()) == s.level
    &&& s.reasons[lit.index()] is Some
}

/// For each place of the trail, whether `derived` holds the false literal
/// over the variable there.
pub open spec fn footprint(s: Search, derived: Seq<Lit>) -> Seq<bool> {
    Seq::new(s.trail.len(), |j: int| derived.contains(s.true_lit(s.trail[j]).negated()))
}

/// The number that goes down with every resolution step of an analysis.
pub open spec fn rank(s: Search, derived: Seq<Lit>) -> int {
    mask(footprint(s, derived))
}

/// A clause of the formula that is false in a state above level 0 holds a
/// literal from the current level.
pub proof fn lemma_conflict_is_recent(s: Search, formula: Seq<Seq<Lit>>, j: int)
    requires
        s.inv(formula),
        s.level >= 1,
        0 <= j < formula.len(),
        clause_falsified(s.values, formula[j]),
    ensures
        conflicting(s, formula, formula[j]),
{
    let clause = formula[j];
    let i = s.level - 1;
    assert(s.clauses[j] == clause);
    assert(clause_in_range(s.clauses[j], s.n()));
    assert(s.calm_before(formula, i));
    let before = restrict(s.values, s.stamps, s.stamps[s.decisions[i]]);
    assert(!clause_falsified(before, clause));
    let k = choose|k: int| 0 <= k < clause.len() && lit_value(before, #[trigger] clause[k]) != Some(false);
    let x = clause[k].index();
    assert(clause[k].in_range(s.n()));
    assert(lit_value(s.values, clause[k]) == Some(false));
    assert(s.var_ok(x));
    assert(s.ordered(x, i));
    assert(s.level_of(clause[k].index()) == s.level);
    assert(entails(formula, s.n(), clause));
}

/// One resolution step of the analysis: the clause that implied the
/// negation of `derived[k]` can be resolved against `derived`, the resolvent
/// is again a clause that the analysis may hold, and its rank is lower.
pub proof fn lemma_resolution_step(s: Search, formula: Seq<Seq<Lit>>, derived: Seq<Lit>, k: int)
    requires
        s.inv(formula),
        s.level >= 1,
        conflicting(s, formula, derived),
        0 <= k < derived.len(),
        resolvable(s, derived[k]),
    ensures
        0 <= s.reasons[derived[k].index()]->0 < s.clauses.len(),
        pivot_in(s.clauses[s.reasons[derived[k].index()]->0 as int], derived[k]) != pivot_in(derived, derived[k]),
        conflicting(
            s,
            formula,
            resolvent(s.clauses[s.reasons[derived[k].index()]->0 as int], derived, derived[k]),
        ),
        0 <= rank(
            s,
            resolvent(s.clauses[s.reasons[derived[k].index()]->0 as int], derived, derived[k]),
        ) < rank(s, derived),
{
    let lit = derived[k];
    let v = lit.index();
    let n = s.n();
    assert(lit.in_range(n));
    assert(s.var_ok(v));
    assert(s.reason_ok(v));
    let c = s.reasons[v]->0 as int;
    let reason = s.clauses[c];
    let out = resolvent(reason, derived, lit);
    let forced = s.true_lit(v);
    assert(forced == lit.negated());
    assert(clause_in_range(reason, n));
    assert(derived.contains(lit));
    // The reason holds the forced literal and not its negation.
    if reason.contains(lit) {
        let o = choose|o: int| 0 <= o < reason.len() && reason[o] == lit;
        assert(reason[o] != forced);
    }
    assert(pivot_in(reason, lit) == forced);
    assert(pivot_in(derived, lit) == lit);
    lemma_resolvent_members(reason, derived, lit);
    lemma_resolvent_in_range(reason, derived, lit, n);
    let at = reason.index_of(forced);
    // Every literal of the resolvent is false.
    assert forall|o: int| 0 <= o < out.len() implies lit_value(s.values, #[trigger] out[o]) == Some(false) by {
        assert(out.contains(out[o]));
        if reason.contains(out[o]) && out[o] != forced {
            let r = choose|r: int| 0 <= r < reason.len() && reason[r] == out[o];
            assert(reason[r] != forced);
        } else {
            let r = choose|r: int| 0 <= r < derived.len() && derived[r] == out[o];
            assert(lit_value(s.values, derived[r]) == Some(false));
        }
    }
    assert(entails(formula, n, out)) by {
        assert(entails(formula, n, s.clauses[c]));
        assert forall|model: Seq<bool>| model.len() == n && #[trigger] formula_holds(model, formula) implies clause_holds(
            model,
            out,
        ) by {
            lemma_resolvent_holds(model, reason, derived, lit);
        }
    }
    // The reason was not unit just before the last decision, so besides the
    // forced literal it holds another one from the current level.
    let i = s.level - 1;
    assert(s.calm_before(formula, i));
    assert(s.dec_ok(i));
    let limit = s.stamps[s.decisions[i]];
    let before = restrict(s.values, s.stamps, limit);
    assert(!is_unit(before, s.clauses[c]));
    assert(s.ordered(v, i));
    let p = choose|p: int| 0 <= p < reason.len() && reason[p] == forced;
    assert(lit_value(before, reason[p]) is None);
    assert(!unit_at(before, reason, p));
    let q = choose|q: int| 0 <= q < reason.len() && q != p && lit_value(before, #[trigger] reason[q]) != Some(false);
    assert(reason[q] != forced) by {
        assert(s.clauses[c].no_duplicates());
    }
    let x = reason[q].index();
    assert(reason[q].in_range(n));
    assert(lit_value(s.values, reason[q]) == Some(false));
    assert(s.var_ok(x));
    assert(s.ordered(x, i));
    assert(s.level_of(x) == s.level);
    assert(reason.contains(reason[q]));
    assert(out.contains(reason[q]));
    let e = choose|e: int| 0 <= e < out.len() && out[e] == reason[q];
    assert(s.level_of(out[e].index()) == s.level);
    assert(conflicting(s, formula, out));
    // The footprint loses the place of the pivot and changes only below it.
    let t = s.stamps[v];
    let a = footprint(s, derived);
    let b = footprint(s, out);
    assert(s.trail[t] == v);
    assert(a[t]);
    assert(!b[t]);
    assert forall|j: int| t < j < a.len() implies a[j] == b[j] by {
        assert(s.slot_ok(j));
        let u = s.trail[j];
        let f = s.true_lit(u).negated();
        assert(f.index() == u);
        assert(f != lit);
        assert(f != forced);
        if reason.contains(f) {
            let r = choose|r: int| 0 <= r < reason.len() && reason[r] == f;
            assert(reason[r] != forced);
            assert(f.index() == u);
        }
    }
    lemma_mask_less(a, b, t);
    lemma_mask_bounds(b);
}

/// When the analysis finds nothing more to resolve on, the derived clause
/// holds the negation of the last decision and nothing else from the
/// current level.
pub proof fn lemma_analysis_done(s: Search, formula: Seq<Seq<Lit>>, derived: Seq<Lit>)
    requires
        s.inv(formula),
        s.level >= 1,
        conflicting(s, formula, derived),
        forall|k: int| 0 <= k < derived.len() ==> !resolvable(s, #[trigger] derived[k]),
    ensures
        exists|at: int|
            {
                &&& 0 <= at < derived.len()
                &&& s.level_of(#[trigger] derived[at].index()) == s.level
                &&& forall|k: int| 0 <= k < derived.len() && k != at ==> s.level_of((#[trigger] derived[k]).index()) < s.level
            },
{
    let at = choose|at: int| 0 <= at < derived.len() && s.level_of((#[trigger] derived[at]).index()) == s.level;
    assert(derived[at].in_range(s.n()));
    assert(lit_value(s.values, derived[at]) == Some(false));
    assert(s.var_ok(derived[at].index()));
    assert(!resolvable(s, derived[at]));
    assert forall|k: int| 0 <= k < derived.len() && k != at implies s.level_of((#[trigger] derived[k]).index())
        < s.level by {
        assert(derived[k].in_range(s.n()));
        assert(lit_value(s.values, derived[k]) == Some(false));
        assert(s.var_ok(derived[k].index()));
        assert(!resolvable(s, derived[k]));
        if s.level_of(derived[k].index()) == s.level {
            assert(derived[k].index() == derived[at].index());
            assert(derived[k] == derived[at]);
        }
    }
}

/// The level recorded for the negation of `lit`: that of its variable where
/// `lit` is false, and 0 where no level is recorded.
pub open spec fn recorded_level(s: Search, lit: Lit) -> int {
    if lit_value(s.values, lit) == Some(false) && s.levels[lit.index()] is Some {
        s.level_of(lit.index())
    } else {
        0
    }
}

/// The level to go back to after learning `learned`: the highest level
/// recorded for the negation of one of its literals, the current level left
/// aside; 0 where there is none.
pub open spec fn jump_level(s: Search, learned: Seq<Lit>) -> int
    decreases learned.len(),
{
    if learned.len() == 0 {
        0
    } else {
        let rest = jump_level(s, learned.drop_last());
        let here = recorded_level(s, learned.last());
        if here != s.level && here > rest {
            here
        } else {
            rest
        }
    }
}

/// The level to go back to is not the current one, is no lower than any
/// other level recorded for the clause, and is recorded for it unless it is 0.
pub proof fn lemma_jump_level(s: Search, learned: Seq<Lit>)
    requires
        s.level >= 1,
    ensures
        0 <= jump_level(s, learned),
        jump_level(s, learned) != s.level,
        forall|k: int|
            0 <= k < learned.len() && recorded_level(s, #[trigger] learned[k]) != s.level ==> recorded_level(
                s,
                learned[k],
            ) <= jump_level(s, learned),
        jump_level(s, learned) >= 1 ==> exists|k: int|
            0 <= k < learned.len() && recorded_level(s, #[trigger] learned[k]) == jump_level(s, learned),
    decreases learned.len(),
{
    if learned.len() > 0 {
        let front = learned.drop_last();
        lemma_jump_level(s, front);
        let target = jump_level(s, learned);
        assert forall|k: int|
            0 <= k < learned.len() && recorded_level(s, #[trigger] learned[k]) != s.level implies recorded_level(
            s,
            learned[k],
        ) <= target by {
            if k < front.len() {
                assert(front[k] == learned[k]);
            }
        }
        if target >= 1 {
            if target == jump_level(s, front) {
                let k = choose|k: int| 0 <= k < front.len() && recorded_level(s, #[trigger] front[k]) == target;
                assert(learned[k] == front[k]);
            } else {
                assert(recorded_level(s, learned[learned.len() - 1]) == target);
            }
        }
    }
}

/// The clause that an analysis ends with can be learned, with a retreat to
/// its jump level.
pub proof fn lemma_learned_asserts(s: Search, formula: Seq<Seq<Lit>>, derived: Seq<Lit>)
    requires
        s.inv(formula),
        s.level >= 1,
        conflicting(s, formula, derived),
        forall|k: int| 0 <= k < derived.len() ==> !resolvable(s, #[trigger] derived[k]),
    ensures
        exists|at: int| asserting(s, formula, derived, at, jump_level(s, derived)),
{
    lemma_analysis_done(s, formula, derived);
    lemma_jump_level(s, derived);
    let target = jump_level(s, derived);
    let at = choose|at: int|
        {
            &&& 0 <= at < derived.len()
            &&& s.level_of(#[trigger] derived[at].index()) == s.level
            &&& forall|k: int| 0 <= k < derived.len() && k != at ==> s.level_of((#[trigger] derived[k]).index()) < s.level
        };
    assert forall|k: int| 0 <= k < derived.len() implies recorded_level(s, #[trigger] derived[k]) == s.level_of(
        derived[k].index(),
    ) by {
        assert(derived[k].in_range(s.n()));
        assert(lit_value(s.values, derived[k]) == Some(false));
        assert(s.var_ok(derived[k].index()));
    }
    assert(recorded_level(s, derived[at]) == s.level);
    assert(target < s.level) by {
        if target >= 1 {
            let k = choose|k: int| 0 <= k < derived.len() && recorded_level(s, #[trigger] derived[k]) == target;
            assert(s.var_ok(derived[k].index()));
            assert(derived[k].in_range(s.n()));
        }
    }
    assert forall|k: int| 0 <= k < derived.len() && k != at implies s.level_of((#[trigger] derived[k]).index())
        <= target by {
        assert(recorded_level(s, derived[k]) != s.level);
    }
    if target >= 1 {
        let k = choose|k: int| 0 <= k < derived.len() && recorded_level(s, #[trigger] derived[k]) == target;
        assert(s.level_of(derived[k].index()) == target);
    }
    assert(asserting(s, formula, derived, at, target));
}

/// A clause of the formula that is false at level 0 is false under every
/// assignment under which the formula holds: there is none.
pub proof fn lemma_root_conflict(s: Search, formula: Seq<Seq<Lit>>, j: int)
    requires
        s.inv(formula),
        s.level == 0,
        0 <= j < formula.len(),
        clause_falsified(s.values, formula[j]),
    ensures
        !satisfiable(s.n(), formula),
{
    let clause = formula[j];
    assert(s.clauses[j] == clause);
    assert(clause_in_range(s.clauses[j], s.n()));
    assert forall|model: Seq<bool>| model.len() == s.n() implies !#[trigger] formula_holds(model, formula) by {
        if formula_holds(model, formula) {
            assert(clause_holds(model, formula[j]));
            let k = choose|k: int| 0 <= k < clause.len() && lit_holds(model, clause[k]);
            let x = clause[k].index();
            assert(clause[k].in_range(s.n()));
            assert(lit_value(s.values, clause[k]) == Some(false));
            assert(s.var_ok(x));
            assert(s.root_agrees(model, x));
        }
    }
}

} // verus!
