//! The steps of a search, and why each of them keeps the state in order.

use vstd::prelude::*;
use crate::solver::data_model::{clause_falsified, free_count, lemma_free_count_update, lit_value};
use crate::solver::engines::cdcl::measure::{lemma_bounds, lemma_push, marks_ok, pow3, weight};
use crate::solver::engines::cdcl::state::{
    Search,
    entails,
    is_unit,
    pending,
    quiet,
    restrict,
    unit_at,
};
use crate::solver::formula::{Lit, clause_holds, clause_in_range, formula_holds, lit_holds};

verus! {

/// Implying the one open literal of a clause that is false everywhere else
/// keeps the state in order, and adds a 2 to the marks.
pub proof fn lemma_imply(s: Search, formula: Seq<Seq<Lit>>, c: int, k: int)
    requires
        s.inv(formula),
        0 <= c < s.clauses.len(),
        unit_at(s.values, s.clauses[c], k),
    ensures
        s.assign(s.clauses[c][k], Some(c), s.level).inv(formula),
        s.assign(s.clauses[c][k], Some(c), s.level).marks() == s.marks().push(2),
{
    let clause = s.clauses[c];
    let lit = clause[k];
    let v = lit.index();
    let t = s.assign(lit, Some(c), s.level);
    assert(clause_in_range(clause, s.n()));
    assert(lit.in_range(s.n()));
    assert(s.values[v] is None);
    assert(t.true_lit(v) == lit);
    assert(s.var_ok(v));
    assert forall|u: int| 0 <= u < t.values.len() implies #[trigger] t.var_ok(u) by {
        assert(s.var_ok(u));
        if u == v {
            assert(clause.contains(lit));
            assert forall|o: int| 0 <= o < clause.len() && (#[trigger] clause[o]) != lit implies lit_value(
                t.values,
                clause[o],
            ) == Some(false) && t.stamps[clause[o].index()] < t.stamps[v] by {
                assert(clause[o].in_range(s.n()));
                assert(lit_value(s.values, clause[o]) == Some(false));
                assert(s.var_ok(clause[o].index()));
            }
        } else if s.values[u] is Some {
            if s.reasons[u] is Some {
                let rc = s.clauses[s.reasons[u]->0 as int];
                assert(clause_in_range(rc, s.n()));
                assert(t.true_lit(u) == s.true_lit(u));
                assert forall|o: int| 0 <= o < rc.len() && (#[trigger] rc[o]) != t.true_lit(u) implies lit_value(
                    t.values,
                    rc[o],
                ) == Some(false) && t.stamps[rc[o].index()] < t.stamps[u] by {
                    assert(rc[o].in_range(s.n()));
                    assert(lit_value(s.values, rc[o]) == Some(false));
                }
            }
        }
    }
    assert forall|j: int| 0 <= j < t.trail.len() implies #[trigger] t.slot_ok(j) by {
        if j < s.trail.len() {
            assert(s.slot_ok(j));
        }
    }
    assert forall|i: int| 0 <= i < t.level implies #[trigger] t.dec_ok(i) by {
        assert(s.dec_ok(i));
    }
    assert forall|u: int, i: int| 0 <= u < t.values.len() && 0 <= i < t.level implies #[trigger] t.ordered(u, i) by {
        assert(s.ordered(u, i));
        assert(s.dec_ok(i));
        assert(s.var_ok(s.decisions[i]));
    }
    assert(t.wf());
    assert(t.db_ok(formula));
    assert forall|i: int| 0 <= i < t.level implies #[trigger] t.calm_before(formula, i) by {
        assert(s.calm_before(formula, i));
        assert(s.dec_ok(i));
        assert(s.var_ok(s.decisions[i]));
        assert(restrict(t.values, t.stamps, t.stamps[t.decisions[i]]) =~= restrict(
            s.values,
            s.stamps,
            s.stamps[s.decisions[i]],
        ));
    }
    assert forall|model: Seq<bool>, u: int|
        model.len() == t.n() && formula_holds(model, formula) && 0 <= u < t.n() implies #[trigger] t.root_agrees(model, u) by {
        assert(s.root_agrees(model, u));
        if u == v && s.level == 0 {
            assert(entails(formula, s.n(), clause));
            assert(clause_holds(model, clause));
            let w = choose|w: int| 0 <= w < clause.len() && lit_holds(model, clause[w]);
            if w != k {
                let x = clause[w].index();
                assert(clause[w].in_range(s.n()));
                assert(lit_value(s.values, clause[w]) == Some(false));
                assert(s.var_ok(x));
                assert(s.root_agrees(model, x));
            }
        }
    }
    assert(t.marks() =~= s.marks().push(2)) by {
        assert forall|j: int| 0 <= j < s.trail.len() implies t.marks()[j] == s.marks()[j] by {
            assert(s.slot_ok(j));
        }
    }
}

/// Whether `trail` lists, each once and at the place its stamp gives, the
/// variables that have a value.
pub open spec fn threaded(values: Seq<Option<bool>>, trail: Seq<int>, stamps: Seq<int>) -> bool {
    &&& stamps.len() == values.len()
    &&& forall|j: int|
        0 <= j < trail.len() ==> 0 <= #[trigger] trail[j] < values.len() && values[trail[j]] is Some
            && stamps[trail[j]] == j
    &&& forall|v: int|
        0 <= v < values.len() && (#[trigger] values[v]) is Some ==> 0 <= stamps[v] < trail.len()
            && trail[stamps[v]] == v
}

/// Where no variable has a value, all of them are free.
pub proof fn lemma_all_free(values: Seq<Option<bool>>)
    requires
        forall|v: int| 0 <= v < values.len() ==> (#[trigger] values[v]) is None,
    ensures
        free_count(values) == values.len(),
    decreases values.len(),
{
    if values.len() > 0 {
        let front = values.drop_last();
        assert forall|v: int| 0 <= v < front.len() implies (#[trigger] front[v]) is None by {
            assert(values[v] is None);
        }
        lemma_all_free(front);
    }
}

/// The trail is as long as the number of variables that are not free.
pub proof fn lemma_trail_len(values: Seq<Option<bool>>, trail: Seq<int>, stamps: Seq<int>)
    requires
        threaded(values, trail, stamps),
    ensures
        trail.len() + free_count(values) == values.len(),
    decreases trail.len(),
{
    if trail.len() == 0 {
        lemma_all_free(values);
    } else {
        let v = trail.last();
        let rest = trail.drop_last();
        let cleared = values.update(v, None);
        assert(trail[trail.len() - 1] == v);
        assert forall|j: int| 0 <= j < rest.len() implies 0 <= #[trigger] rest[j] < cleared.len()
            && cleared[rest[j]] is Some && stamps[rest[j]] == j by {
            assert(rest[j] == trail[j]);
        }
        assert forall|u: int| 0 <= u < cleared.len() && (#[trigger] cleared[u]) is Some implies 0
            <= stamps[u] < rest.len() && rest[stamps[u]] == u by {
            assert(values[u] is Some);
        }
        lemma_trail_len(cleared, rest, stamps);
        lemma_free_count_update(values, v, None);
    }
}

/// In a state that is in order the trail is threaded, so it is no longer
/// than there are variables, and the level is no higher than it is long.
pub proof fn lemma_trail_bounds(s: Search)
    requires
        s.wf(),
    ensures
        threaded(s.values, s.trail, s.stamps),
        s.trail.len() + free_count(s.values) == s.n(),
        s.level <= s.trail.len(),
        s.marks().len() == s.trail.len(),
        marks_ok(s.marks()),
{
    assert forall|j: int| 0 <= j < s.trail.len() implies 0 <= #[trigger] s.trail[j] < s.values.len()
        && s.values[s.trail[j]] is Some && s.stamps[s.trail[j]] == j by {
        assert(s.slot_ok(j));
    }
    assert forall|v: int| 0 <= v < s.values.len() && (#[trigger] s.values[v]) is Some implies 0
        <= s.stamps[v] < s.trail.len() && s.trail[s.stamps[v]] == v by {
        assert(s.var_ok(v));
    }
    lemma_trail_len(s.values, s.trail, s.stamps);
    if s.level > 0 {
        assert(s.dec_ok(s.level - 1));
        assert(s.var_ok(s.decisions[s.level - 1]));
    }
}

/// Deciding a literal over a free variable, in a quiet state, keeps the state
/// in order, and adds a 1 to the marks.
pub proof fn lemma_decide(s: Search, formula: Seq<Seq<Lit>>, lit: Lit)
    requires
        s.inv(formula),
        quiet(s.values, s.clauses, formula),
        lit.in_range(s.n()),
        s.values[lit.index()] is None,
    ensures
        s.level + 1 <= s.n(),
        s.marks().len() < s.n(),
        s.assign(lit, None, s.level + 1).inv(formula),
        s.assign(lit, None, s.level + 1).marks() == s.marks().push(1),
{
    let v = lit.index();
    let t = s.assign(lit, None, s.level + 1);
    lemma_trail_bounds(s);
    lemma_free_count_update(s.values, v, Some(true));
    assert(s.var_ok(v));
    assert(t.reasons =~= s.reasons);
    assert forall|u: int| 0 <= u < t.values.len() implies #[trigger] t.var_ok(u) by {
        assert(s.var_ok(u));
        if u != v && s.values[u] is Some && s.reasons[u] is Some {
            let rc = s.clauses[s.reasons[u]->0 as int];
            assert(clause_in_range(rc, s.n()));
            assert(t.true_lit(u) == s.true_lit(u));
            assert forall|o: int| 0 <= o < rc.len() && (#[trigger] rc[o]) != t.true_lit(u) implies lit_value(
                t.values,
                rc[o],
            ) == Some(false) && t.stamps[rc[o].index()] < t.stamps[u] by {
                assert(rc[o].in_range(s.n()));
                assert(lit_value(s.values, rc[o]) == Some(false));
            }
        }
    }
    assert forall|j: int| 0 <= j < t.trail.len() implies #[trigger] t.slot_ok(j) by {
        if j < s.trail.len() {
            assert(s.slot_ok(j));
        }
    }
    assert forall|i: int| 0 <= i < t.level implies #[trigger] t.dec_ok(i) by {
        if i < s.level {
            assert(s.dec_ok(i));
        }
    }
    assert forall|u: int, i: int| 0 <= u < t.values.len() && 0 <= i < t.level implies #[trigger] t.ordered(u, i) by {
        assert(s.var_ok(u));
        if i < s.level {
            assert(s.ordered(u, i));
            assert(s.dec_ok(i));
            assert(s.var_ok(s.decisions[i]));
        }
    }
    assert(t.wf());
    assert(t.db_ok(formula));
    assert forall|i: int| 0 <= i < t.level implies #[trigger] t.calm_before(formula, i) by {
        if i < s.level {
            assert(s.calm_before(formula, i));
            assert(s.dec_ok(i));
            assert(s.var_ok(s.decisions[i]));
            assert(restrict(t.values, t.stamps, t.stamps[t.decisions[i]]) =~= restrict(
                s.values,
                s.stamps,
                s.stamps[s.decisions[i]],
            ));
        } else {
            assert forall|u: int| 0 <= u < s.values.len() implies restrict(t.values, t.stamps, t.stamps[v])[u]
                == s.values[u] by {
                assert(s.var_ok(u));
            }
            assert(restrict(t.values, t.stamps, t.stamps[t.decisions[i]]) =~= s.values);
        }
    }
    assert forall|model: Seq<bool>, u: int|
        model.len() == t.n() && formula_holds(model, formula) && 0 <= u < t.n() implies #[trigger] t.root_agrees(model, u) by {
        assert(s.root_agrees(model, u));
    }
    assert(t.marks() =~= s.marks().push(1)) by {
        assert forall|j: int| 0 <= j < s.trail.len() implies t.marks()[j] == s.marks()[j] by {
            assert(s.slot_ok(j));
        }
    }
}

/// Whether `learned` can be learned in state `s` with a retreat to level
/// `target`: it follows from the formula, all its literals are false, the one
/// at place `at` is the only one from the current level, and `target` is the
/// highest level among the others, or 0.
pub open spec fn asserting(s: Search, formula: Seq<Seq<Lit>>, learned: Seq<Lit>, at: int, target: int) -> bool {
    &&& clause_in_range(learned, s.n())
    &&& learned.no_duplicates()
    &&& entails(formula, s.n(), learned)
    &&& clause_falsified(s.values, learned)
    &&& 0 <= at < learned.len()
    &&& s.level_of(learned[at].index()) == s.level
    &&& 0 <= target < s.level
    &&& forall|k: int| 0 <= k < learned.len() && k != at ==> s.level_of((#[trigger] learned[k]).index()) <= target
    &&& target >= 1 ==> exists|k: int| 0 <= k < learned.len() && s.level_of((#[trigger] learned[k]).index()) == target
}

/// Undoing everything above a level below the current one keeps the state
/// in order, and cuts the marks just before a 1.
pub proof fn lemma_undo(s: Search, formula: Seq<Seq<Lit>>, target: int)
    requires
        s.inv(formula),
        0 <= target < s.level,
    ensures
        s.undo(target).inv(formula),
        0 <= s.stamps[s.decisions[target]] < s.trail.len(),
        s.undo(target).marks() == s.marks().take(s.stamps[s.decisions[target]]),
        s.marks()[s.stamps[s.decisions[target]]] == 1,
{
    let t = s.undo(target);
    let w = s.decisions[target];
    let cut = s.stamps[w];
    let n = s.n();
    assert(s.dec_ok(target));
    assert(s.var_ok(w));
    // A variable keeps its value exactly when it was stamped before the cut.
    assert forall|u: int| 0 <= u < n && s.values[u] is Some implies (s.above(u, target) <==> s.stamps[u] >= cut) by {
        assert(s.var_ok(u));
        assert(s.ordered(u, target));
    }
    assert forall|u: int| 0 <= u < t.values.len() implies #[trigger] t.var_ok(u) by {
        assert(s.var_ok(u));
        if t.values[u] is Some && s.reasons[u] is Some {
            let rc = s.clauses[s.reasons[u]->0];
            assert(clause_in_range(rc, n));
            assert(t.true_lit(u) == s.true_lit(u));
            assert forall|o: int| 0 <= o < rc.len() && (#[trigger] rc[o]) != t.true_lit(u) implies lit_value(
                t.values,
                rc[o],
            ) == Some(false) && t.stamps[rc[o].index()] < t.stamps[u] by {
                assert(rc[o].in_range(n));
                assert(lit_value(s.values, rc[o]) == Some(false));
                assert(s.var_ok(rc[o].index()));
            }
        }
    }
    assert forall|j: int| 0 <= j < t.trail.len() implies #[trigger] t.slot_ok(j) by {
        assert(s.slot_ok(j));
        assert(s.var_ok(s.trail[j]));
    }
    assert forall|i: int| 0 <= i < t.level implies #[trigger] t.dec_ok(i) by {
        assert(s.dec_ok(i));
        assert(s.var_ok(s.decisions[i]));
    }
    assert forall|u: int, i: int| 0 <= u < t.values.len() && 0 <= i < t.level implies #[trigger] t.ordered(u, i) by {
        assert(s.ordered(u, i));
        assert(s.var_ok(u));
    }
    assert(t.wf());
    assert(t.db_ok(formula));
    assert forall|i: int| 0 <= i < t.level implies #[trigger] t.calm_before(formula, i) by {
        assert(s.calm_before(formula, i));
        assert(s.dec_ok(i));
        assert(s.var_ok(s.decisions[i]));
        let limit = s.stamps[s.decisions[i]];
        assert forall|u: int| 0 <= u < n implies restrict(t.values, t.stamps, limit)[u] == restrict(
            s.values,
            s.stamps,
            limit,
        )[u] by {
            assert(s.var_ok(u));
            assert(s.ordered(u, i));
        }
        assert(restrict(t.values, t.stamps, t.stamps[t.decisions[i]]) =~= restrict(s.values, s.stamps, limit));
    }
    assert forall|model: Seq<bool>, u: int|
        model.len() == t.n() && formula_holds(model, formula) && 0 <= u < t.n() implies #[trigger] t.root_agrees(model, u) by {
        assert(s.root_agrees(model, u));
    }
    assert(t.marks() =~= s.marks().take(cut)) by {
        assert forall|j: int| 0 <= j < cut implies t.marks()[j] == s.marks()[j] by {
            assert(s.slot_ok(j));
            assert(s.var_ok(s.trail[j]));
        }
    }
}

/// Whether every variable that has a value, a level or a reason in `s` has a
/// value and a level, and that level is `target` at most.
pub open spec fn nothing_above(s: Search, target: int) -> bool {
    forall|v: int|
        0 <= v < s.n() && ((#[trigger] s.values[v]) is Some || s.levels[v] is Some || s.reasons[v] is Some) ==> {
            &&& s.values[v] is Some
            &&& s.levels[v] is Some
            &&& s.level_of(v) <= target
        }
}

/// Going back is safe: after everything above a level was undone, every
/// variable that still has a value has a level, and that level is no higher
/// than the one gone back to; and no level and no reason is left behind for
/// a variable without a value.
pub proof fn lemma_nothing_above(s: Search, target: int)
    requires
        s.wf(),
        0 <= target,
    ensures
        nothing_above(s.undo(target), target),
{
    let t = s.undo(target);
    assert forall|v: int|
        0 <= v < t.n() && ((#[trigger] t.values[v]) is Some || t.levels[v] is Some || t.reasons[v] is Some) implies {
        &&& t.values[v] is Some
        &&& t.levels[v] is Some
        &&& t.level_of(v) <= target
    } by {
        assert(s.var_ok(v));
    }
}

/// Learning an asserting clause and retreating to its level keeps the state
/// in order, leaves the clause with one open literal and false everywhere
/// else, and cuts the marks just before a 1.
pub proof fn lemma_learn(s: Search, formula: Seq<Seq<Lit>>, learned: Seq<Lit>, at: int, target: int)
    requires
        s.inv(formula),
        asserting(s, formula, learned, at, target),
    ensures
        s.retreat(learned, target).inv(formula),
        unit_at(s.retreat(learned, target).values, learned, at),
        0 <= s.stamps[s.decisions[target]] < s.trail.len(),
        s.retreat(learned, target).marks() == s.marks().take(s.stamps[s.decisions[target]]),
        s.marks()[s.stamps[s.decisions[target]]] == 1,
{
    lemma_undo(s, formula, target);
    let u = s.undo(target);
    let t = s.retreat(learned, target);
    let n = s.n();
    assert(t =~= u.learn(learned)) by {
        let grown = s.learn(learned);
        assert forall|v: int| grown.above(v, target) == s.above(v, target) by {}
        assert(t.values =~= u.values);
        assert(t.levels =~= u.levels);
        assert(t.reasons =~= u.reasons);
    }
    assert(t.marks() =~= u.marks());
    assert forall|v: int| 0 <= v < t.values.len() implies #[trigger] t.var_ok(v) by {
        assert(u.var_ok(v));
        if t.values[v] is Some && t.reasons[v] is Some {
            assert(t.clauses[t.reasons[v]->0] == u.clauses[u.reasons[v]->0]);
        }
    }
    assert forall|j: int| 0 <= j < t.trail.len() implies #[trigger] t.slot_ok(j) by {
        assert(u.slot_ok(j));
    }
    assert forall|i: int| 0 <= i < t.level implies #[trigger] t.dec_ok(i) by {
        assert(u.dec_ok(i));
    }
    assert forall|v: int, i: int| 0 <= v < t.values.len() && 0 <= i < t.level implies #[trigger] t.ordered(v, i) by {
        assert(u.ordered(v, i));
    }
    assert(t.wf());
    assert(t.db_ok(formula)) by {
        assert forall|c: int| 0 <= c < t.clauses.len() implies clause_in_range((#[trigger] t.clauses[c]), n)
            && t.clauses[c].no_duplicates() && entails(formula, n, t.clauses[c]) by {
            if c < u.clauses.len() {
                assert(t.clauses[c] == u.clauses[c]);
            }
        }
        assert forall|j: int| 0 <= j < formula.len() implies (#[trigger] t.clauses[j]) == formula[j] by {
            assert(t.clauses[j] == u.clauses[j]);
        }
    }
    assert(learned[at].in_range(n));
    assert(lit_value(s.values, learned[at]) == Some(false));
    assert(s.var_ok(learned[at].index()));
    assert forall|i: int| 0 <= i < t.level implies #[trigger] t.calm_before(formula, i) by {
        assert(u.calm_before(formula, i));
        let before = restrict(u.values, u.stamps, u.stamps[u.decisions[i]]);
        assert forall|c: int| 0 <= c < t.clauses.len() implies !is_unit(before, #[trigger] t.clauses[c]) by {
            if c < u.clauses.len() {
                assert(t.clauses[c] == u.clauses[c]);
                assert(!is_unit(before, u.clauses[c]));
            } else {
                // The literal from the current level and one from the level
                // that is gone back to are both open before that decision.
                let near = choose|k: int| 0 <= k < learned.len() && s.level_of((#[trigger] learned[k]).index()) == target;
                let mid = learned[near].index();
                assert(learned[near].in_range(n));
                assert(lit_value(s.values, learned[near]) == Some(false));
                assert(s.var_ok(mid));
                assert(u.ordered(mid, i));
                assert(lit_value(before, learned[near]) is None);
                assert(lit_value(before, learned[at]) is None);
                assert(near != at);
                assert forall|k: int| !unit_at(before, learned, k) by {
                    if unit_at(before, learned, k) {
                        if k == at {
                            assert(lit_value(before, learned[near]) == Some(false));
                        } else {
                            assert(lit_value(before, learned[at]) == Some(false));
                        }
                    }
                }
            }
        }
    }
    assert forall|model: Seq<bool>, v: int|
        model.len() == t.n() && formula_holds(model, formula) && 0 <= v < t.n() implies #[trigger] t.root_agrees(model, v) by {
        assert(u.root_agrees(model, v));
    }
    assert(unit_at(t.values, learned, at)) by {
        assert forall|o: int| 0 <= o < learned.len() && o != at implies lit_value(t.values, #[trigger] learned[o])
            == Some(false) by {
            assert(learned[o].in_range(n));
            assert(lit_value(s.values, learned[o]) == Some(false));
            assert(s.var_ok(learned[o].index()));
        }
    }
}

/// What a state weighs at the head of the search loop: its marks, with the 2
/// of the next implication already counted where one is due.
pub open spec fn urgency(s: Search) -> int {
    if pending(s) {
        weight(s.marks().push(2), s.n() as nat)
    } else {
        weight(s.marks(), s.n() as nat)
    }
}

/// A state weighs no less than its marks do, and no more than three to the
/// number of variables.
pub proof fn lemma_urgency_bounds(s: Search, formula: Seq<Seq<Lit>>)
    requires
        s.inv(formula),
    ensures
        0 <= weight(s.marks(), s.n() as nat) <= urgency(s) <= pow3(s.n() as nat),
{
    let n = s.n() as nat;
    lemma_trail_bounds(s);
    lemma_bounds(s.marks(), n);
    if pending(s) {
        let c = choose|c: int| 0 <= c < s.clauses.len() && is_unit(s.values, #[trigger] s.clauses[c]);
        let k = choose|k: int| unit_at(s.values, s.clauses[c], k);
        let lit = s.clauses[c][k];
        assert(clause_in_range(s.clauses[c], s.n()));
        assert(lit.in_range(s.n()));
        lemma_free_count_update(s.values, lit.index(), Some(true));
        lemma_push(s.marks(), 2, n);
        let more = s.marks().push(2);
        assert(marks_ok(more)) by {
            assert forall|j: int| 0 <= j < more.len() implies 1 <= #[trigger] more[j] <= 2 by {
                if j < s.marks().len() {
                    assert(more[j] == s.marks()[j]);
                }
            }
        }
        lemma_bounds(more, n);
    }
}

} // verus!
