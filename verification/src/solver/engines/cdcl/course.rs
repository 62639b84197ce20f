//! The course that a search takes, as a function of the state it starts in
//! and of the rule by which literals are decided.

use vstd::prelude::*;
use crate::solver::cnf_ops::resolvent;
use crate::solver::data_model::{
    Verdict,
    completed,
    first_falsified,
    free_count,
    lemma_free_count_update,
    lemma_verdict,
    lit_value,
    verdict,
};
use crate::solver::engines::branching::{Branching, lemma_primed_once, primed, steady};
use crate::solver::engines::cdcl::analysis::{
    conflicting,
    jump_level,
    lemma_conflict_is_recent,
    lemma_learned_asserts,
    lemma_resolution_step,
    rank,
    resolvable,
};
use crate::solver::engines::cdcl::measure::{lemma_push, lemma_retreat, pow3, weight};
use crate::solver::engines::cdcl::state::{Search, entails, is_unit, pending, quiet, unit_at};
use crate::solver::engines::cdcl::steps::{
    asserting,
    lemma_decide,
    lemma_imply,
    lemma_learn,
    lemma_trail_bounds,
    lemma_urgency_bounds,
    urgency,
};
use crate::solver::formula::{Lit, clause_in_range, formula_holds, formula_in_range, no_repeats};

verus! {

/// The state in which a search for `formula` over `n` variables starts: no
/// variable has a value, and the clauses are those of the formula.
pub open spec fn initial(n: nat, formula: Seq<Seq<Lit>>) -> Search {
    Search {
        values: Seq::new(n, |v: int| None),
        clauses: formula,
        reasons: Seq::new(n, |v: int| None),
        levels: Seq::new(n, |v: int| None),
        level: 0,
        trail: Seq::empty(),
        stamps: Seq::new(n, |v: int| 0int),
        decisions: Seq::empty(),
    }
}

/// The first clause from place `from` on that forces a literal.
pub open spec fn first_unit(s: Search, from: int) -> Option<int>
    decreases s.clauses.len() - from,
{
    if from < 0 || from >= s.clauses.len() {
        None
    } else if is_unit(s.values, s.clauses[from]) {
        Some(from)
    } else {
        first_unit(s, from + 1)
    }
}

/// The literal that `clause` forces under `values`.
pub open spec fn forced(values: Seq<Option<bool>>, clause: Seq<Lit>) -> Lit {
    clause[choose|k: int| unit_at(values, clause, k)]
}

/// The state after the first clause that forces a literal has had its way,
/// where there is such a clause.
pub open spec fn implied(s: Search) -> Search {
    match first_unit(s, 0) {
        Some(c) => s.assign(forced(s.values, s.clauses[c]), Some(c), s.level),
        None => s,
    }
}

/// The state after propagation: literals are implied, each time by the
/// first clause that forces one, until no clause forces any.
pub open spec fn propagated(s: Search) -> Search
    decreases free_count(s.values),
{
    match first_unit(s, 0) {
        Some(c) => {
            let lit = forced(s.values, s.clauses[c]);
            if lit.in_range(s.n()) && s.values[lit.index()] is None {
                proof {
                    lemma_free_count_update(s.values, lit.index(), Some(lit.positive));
                }
                propagated(implied(s))
            } else {
                s
            }
        },
        None => s,
    }
}

/// The first place from `from` on where `derived` holds a literal that the
/// analysis resolves on.
pub open spec fn first_resolvable(s: Search, derived: Seq<Lit>, from: int) -> Option<int>
    decreases derived.len() - from,
{
    if from < 0 || from >= derived.len() {
        None
    } else if resolvable(s, derived[from]) {
        Some(from)
    } else {
        first_resolvable(s, derived, from + 1)
    }
}

/// What `first_unit` finds is the first clause that forces a literal.
pub proof fn lemma_first_unit(s: Search, from: int)
    requires
        0 <= from,
    ensures
        match first_unit(s, from) {
            Some(c) => from <= c < s.clauses.len() && is_unit(s.values, s.clauses[c]) && forall|i: int|
                from <= i < c ==> !is_unit(s.values, #[trigger] s.clauses[i]),
            None => forall|i: int| from <= i < s.clauses.len() ==> !is_unit(s.values, #[trigger] s.clauses[i]),
        },
    decreases s.clauses.len() - from,
{
    if from < s.clauses.len() && !is_unit(s.values, s.clauses[from]) {
        lemma_first_unit(s, from + 1);
    }
}

/// What `first_resolvable` finds is the first literal to resolve on.
pub proof fn lemma_first_resolvable(s: Search, derived: Seq<Lit>, from: int)
    requires
        0 <= from,
    ensures
        match first_resolvable(s, derived, from) {
            Some(k) => from <= k < derived.len() && resolvable(s, derived[k]) && forall|i: int|
                from <= i < k ==> !resolvable(s, #[trigger] derived[i]),
            None => forall|i: int| from <= i < derived.len() ==> !resolvable(s, #[trigger] derived[i]),
        },
    decreases derived.len() - from,
{
    if from < derived.len() && !resolvable(s, derived[from]) {
        lemma_first_resolvable(s, derived, from + 1);
    }
}

/// A clause forces one literal only.
pub proof fn lemma_forced(values: Seq<Option<bool>>, clause: Seq<Lit>, k: int)
    requires
        unit_at(values, clause, k),
    ensures
        forced(values, clause) == clause[k],
{
    let other = choose|other: int| unit_at(values, clause, other);
    if other != k {
        assert(lit_value(values, clause[other]) == Some(false));
    }
}

/// The clause that the analysis of a conflict derives from `derived`: as
/// long as the clause holds a literal whose negation was implied at the
/// current level, the first such literal is resolved away against the clause
/// that implied its negation.
pub open spec fn analyzed(s: Search, formula: Seq<Seq<Lit>>, derived: Seq<Lit>) -> Seq<Lit>
    decreases rank(s, derived),
    when s.inv(formula) && s.level >= 1 && conflicting(s, formula, derived)
{
    match first_resolvable(s, derived, 0) {
        Some(k) => {
            proof {
                lemma_first_resolvable(s, derived, 0);
                lemma_resolution_step(s, formula, derived, k);
            }
            analyzed(s, formula, resolvent(s.clauses[s.reasons[derived[k].index()]->0 as int], derived, derived[k]))
        },
        None => derived,
    }
}

/// Propagation keeps the state in order, changes neither the clauses nor
/// the level, leaves no clause that forces a literal, and makes up for the
/// weight that a forcing clause was counted for.
pub proof fn lemma_propagated(s: Search, formula: Seq<Seq<Lit>>)
    requires
        s.inv(formula),
    ensures
        propagated(s).inv(formula),
        propagated(s).clauses == s.clauses,
        propagated(s).level == s.level,
        propagated(s).n() == s.n(),
        !pending(propagated(s)),
        weight(propagated(s).marks(), s.n() as nat) >= urgency(s),
    decreases free_count(s.values),
{
    lemma_first_unit(s, 0);
    lemma_urgency_bounds(s, formula);
    match first_unit(s, 0) {
        Some(c) => {
            let k = choose|k: int| unit_at(s.values, s.clauses[c], k);
            let lit = s.clauses[c][k];
            assert(clause_in_range(s.clauses[c], s.n()));
            assert(lit.in_range(s.n()));
            lemma_imply(s, formula, c, k);
            lemma_free_count_update(s.values, lit.index(), Some(lit.positive));
            let next = implied(s);
            lemma_propagated(next, formula);
            lemma_urgency_bounds(next, formula);
            assert(pending(s));
        },
        None => {
            assert(!pending(s));
        },
    }
}

/// The analysis ends with a clause that it may hold and that gives it
/// nothing more to resolve on.
pub proof fn lemma_analyzed(s: Search, formula: Seq<Seq<Lit>>, derived: Seq<Lit>)
    requires
        s.inv(formula),
        s.level >= 1,
        conflicting(s, formula, derived),
    ensures
        conflicting(s, formula, analyzed(s, formula, derived)),
        forall|k: int|
            0 <= k < analyzed(s, formula, derived).len() ==> !resolvable(s, #[trigger] analyzed(s, formula, derived)[k]),
    decreases rank(s, derived),
{
    lemma_first_resolvable(s, derived, 0);
    match first_resolvable(s, derived, 0) {
        Some(k) => {
            lemma_resolution_step(s, formula, derived, k);
            lemma_analyzed(
                s,
                formula,
                resolvent(s.clauses[s.reasons[derived[k].index()]->0 as int], derived, derived[k]),
            );
        },
        None => {},
    }
}

/// The state after the conflict with clause `j` of the formula: the clause
/// that the analysis derives is learned, and everything above its jump level
/// is undone.
pub open spec fn after_conflict(s: Search, formula: Seq<Seq<Lit>>, j: int) -> Search {
    let learned = analyzed(s, formula, formula[j]);
    s.retreat(learned, jump_level(s, learned))
}

/// After a conflict above level 0 the state is in order again and weighs
/// more than before.
pub proof fn lemma_after_conflict(s: Search, formula: Seq<Seq<Lit>>, j: int)
    requires
        s.inv(formula),
        s.level >= 1,
        first_falsified(s.values, formula, j),
    ensures
        after_conflict(s, formula, j).inv(formula),
        after_conflict(s, formula, j).n() == s.n(),
        weight(s.marks(), s.n() as nat) < urgency(after_conflict(s, formula, j)) <= pow3(s.n() as nat),
{
    let n = s.n() as nat;
    lemma_conflict_is_recent(s, formula, j);
    lemma_analyzed(s, formula, formula[j]);
    let learned = analyzed(s, formula, formula[j]);
    let target = jump_level(s, learned);
    lemma_learned_asserts(s, formula, learned);
    let at = choose|at: int| asserting(s, formula, learned, at, target);
    lemma_learn(s, formula, learned, at, target);
    let next = s.retreat(learned, target);
    let cut = s.stamps[s.decisions[target]];
    assert(next.clauses[s.clauses.len() as int] == learned);
    assert(is_unit(next.values, next.clauses[s.clauses.len() as int]));
    assert(pending(next));
    lemma_trail_bounds(s);
    lemma_retreat(s.marks(), cut, n);
    lemma_urgency_bounds(next, formula);
}

/// After a decision in a state where nothing is forced and nothing is
/// falsified, the state is in order again and weighs more than before.
pub proof fn lemma_after_decision(s: Search, formula: Seq<Seq<Lit>>, lit: Lit)
    requires
        s.inv(formula),
        !pending(s),
        verdict(s.values, formula) is Undefined,
        lit.in_range(s.n()),
        s.values[lit.index()] is None,
    ensures
        s.assign(lit, None, s.level + 1).inv(formula),
        s.assign(lit, None, s.level + 1).n() == s.n(),
        weight(s.marks(), s.n() as nat) < urgency(s.assign(lit, None, s.level + 1)) <= pow3(s.n() as nat),
{
    let n = s.n() as nat;
    lemma_verdict(s.values, formula);
    assert(quiet(s.values, s.clauses, formula)) by {
        assert forall|c: int| 0 <= c < s.clauses.len() implies !is_unit(s.values, #[trigger] s.clauses[c]) by {}
    }
    lemma_decide(s, formula, lit);
    lemma_push(s.marks(), 1, n);
    lemma_urgency_bounds(s.assign(lit, None, s.level + 1), formula);
}

/// What a search that is in state `s` finds for `formula` when the literals
/// are decided as `rule` says.
///
/// It propagates. Where then every clause of the formula is satisfied, it
/// finds the completion of the assignment. Where a clause is falsified, it
/// finds nothing at level 0, and else goes on after the conflict. Where a
/// clause is undefined, it goes on after deciding the literal of `rule`.
pub open spec fn course(
    s: Search,
    formula: Seq<Seq<Lit>>,
    rule: spec_fn(Seq<Option<bool>>) -> Option<Lit>,
) -> Option<Seq<bool>>
    decreases pow3(s.n() as nat) - urgency(s),
    when s.inv(formula)
{
    let calm = propagated(s);
    match verdict(calm.values, formula) {
        Verdict::Satisfied => Some(completed(calm.values)),
        Verdict::Falsified(j) => if calm.level == 0 {
            None
        } else {
            proof {
                lemma_propagated(s, formula);
                lemma_verdict(calm.values, formula);
                lemma_after_conflict(calm, formula, j);
            }
            course(after_conflict(calm, formula, j), formula, rule)
        },
        Verdict::Undefined(_) => match rule(calm.values) {
            Some(lit) => if lit.in_range(calm.n()) && calm.values[lit.index()] is None {
                proof {
                    lemma_propagated(s, formula);
                    lemma_after_decision(calm, formula, lit);
                }
                course(calm.assign(lit, None, calm.level + 1), formula, rule)
            } else {
                None
            },
            None => None,
        },
    }
}

/// Whether a search that is in state `s`, with the strategy `before`, can
/// find `found` for `formula` and leave the strategy as `after`.
///
/// It propagates, which asks nothing of the strategy. Where then every
/// clause of the formula is satisfied, or one is falsified at level 0, it
/// ends with the strategy as it is. Where a clause is falsified above level
/// 0, the strategy takes note of the clause learned from the conflict, and
/// the search goes on after the conflict. Where a clause is undefined, the
/// strategy is asked for one choice, a literal over a free variable, and the
/// search goes on after deciding it.
pub open spec fn courses<B: Branching>(
    before: B,
    s: Search,
    formula: Seq<Seq<Lit>>,
    after: B,
    found: Option<Seq<bool>>,
) -> bool
    decreases pow3(s.n() as nat) - urgency(s),
    when s.inv(formula)
    via courses_end::<B>
{
    let calm = propagated(s);
    match verdict(calm.values, formula) {
        Verdict::Satisfied => after == before && found == Some(completed(calm.values)),
        Verdict::Falsified(j) => if calm.level == 0 {
            after == before && found == None::<Seq<bool>>
        } else {
            exists|taught: B|
                #![trigger before.notes(analyzed(calm, formula, formula[j]), &taught)]
                before.notes(analyzed(calm, formula, formula[j]), &taught) && courses(
                    taught,
                    after_conflict(calm, formula, j),
                    formula,
                    after,
                    found,
                )
        },
        Verdict::Undefined(_) => exists|lit: Lit, chosen: B|
            #![trigger before.chooses(calm.values, Some(lit), &chosen)]
            {
                &&& before.chooses(calm.values, Some(lit), &chosen)
                &&& lit.in_range(calm.n())
                &&& calm.values[lit.index()] is None
                &&& courses(chosen, calm.assign(lit, None, calm.level + 1), formula, after, found)
            },
    }
}

/// Every step of a search leaves less to go.
#[via_fn]
proof fn courses_end<B: Branching>(
    before: B,
    s: Search,
    formula: Seq<Seq<Lit>>,
    after: B,
    found: Option<Seq<bool>>,
) {
    let calm = propagated(s);
    lemma_propagated(s, formula);
    lemma_verdict(calm.values, formula);
    match verdict(calm.values, formula) {
        Verdict::Falsified(j) => {
            if calm.level != 0 {
                lemma_after_conflict(calm, formula, j);
            }
        },
        Verdict::Undefined(_) => {
            assert forall|lit: Lit| lit.in_range(calm.n()) && calm.values[lit.index()] is None implies weight(
                calm.marks(),
                calm.n() as nat,
            ) < urgency(#[trigger] calm.assign(lit, None, calm.level + 1)) <= pow3(calm.n() as nat)
                && calm.assign(lit, None, calm.level + 1).n() == calm.n() by {
                lemma_after_decision(calm, formula, lit);
            }
        },
        Verdict::Satisfied => {},
    }
}

/// What a course is made of, where the search does not end at once: the
/// strategy after the step, and the literal decided where one is decided.
pub proof fn lemma_courses_unfolds<B: Branching>(
    before: B,
    s: Search,
    formula: Seq<Seq<Lit>>,
    after: B,
    found: Option<Seq<bool>>,
) -> (parts: (B, Lit))
    requires
        s.inv(formula),
        courses(before, s, formula, after, found),
    ensures
        match verdict(propagated(s).values, formula) {
            Verdict::Satisfied => after == before && found == Some(completed(propagated(s).values)),
            Verdict::Falsified(j) => if propagated(s).level == 0 {
                after == before && found == None::<Seq<bool>>
            } else {
                &&& before.notes(analyzed(propagated(s), formula, formula[j]), &parts.0)
                &&& courses(parts.0, after_conflict(propagated(s), formula, j), formula, after, found)
            },
            Verdict::Undefined(_) => {
                &&& before.chooses(propagated(s).values, Some(parts.1), &parts.0)
                &&& parts.1.in_range(propagated(s).n())
                &&& propagated(s).values[parts.1.index()] is None
                &&& courses(
                    parts.0,
                    propagated(s).assign(parts.1, None, propagated(s).level + 1),
                    formula,
                    after,
                    found,
                )
            },
        },
{
    let calm = propagated(s);
    lemma_propagated(s, formula);
    lemma_verdict(calm.values, formula);
    match verdict(calm.values, formula) {
        Verdict::Satisfied => (before, arbitrary()),
        Verdict::Falsified(j) => {
            if calm.level == 0 {
                (before, arbitrary())
            } else {
                lemma_conflict_is_recent(calm, formula, j);
                lemma_after_conflict(calm, formula, j);
                let taught = choose|taught: B|
                    #![trigger before.notes(analyzed(calm, formula, formula[j]), &taught)]
                    before.notes(analyzed(calm, formula, formula[j]), &taught) && courses(
                        taught,
                        after_conflict(calm, formula, j),
                        formula,
                        after,
                        found,
                    );
                (taught, arbitrary())
            }
        },
        Verdict::Undefined(_) => {
            assert forall|lit: Lit| lit.in_range(calm.n()) && calm.values[lit.index()] is None implies (
            #[trigger] calm.assign(lit, None, calm.level + 1)).inv(formula) by {
                lemma_after_decision(calm, formula, lit);
            }
            let (lit, chosen) = choose|lit: Lit, chosen: B|
                #![trigger before.chooses(calm.values, Some(lit), &chosen)]
                {
                    &&& before.chooses(calm.values, Some(lit), &chosen)
                    &&& lit.in_range(calm.n())
                    &&& calm.values[lit.index()] is None
                    &&& courses(chosen, calm.assign(lit, None, calm.level + 1), formula, after, found)
                };
            (chosen, lit)
        },
    }
}

/// The course of a search is repeatable: with a steady strategy, a search
/// from a given state with the strategy in a given state finds one thing
/// only and leaves the strategy in one state only.
pub proof fn lemma_courses_once<B: Branching>(
    before: B,
    s: Search,
    formula: Seq<Seq<Lit>>,
    after_one: B,
    found_one: Option<Seq<bool>>,
    after_other: B,
    found_other: Option<Seq<bool>>,
)
    requires
        steady::<B>(),
        s.inv(formula),
        courses(before, s, formula, after_one, found_one),
        courses(before, s, formula, after_other, found_other),
    ensures
        after_one == after_other,
        found_one == found_other,
    decreases pow3(s.n() as nat) - urgency(s),
{
    let calm = propagated(s);
    lemma_propagated(s, formula);
    lemma_verdict(calm.values, formula);
    let (next_one, lit_one) = lemma_courses_unfolds(before, s, formula, after_one, found_one);
    let (next_other, lit_other) = lemma_courses_unfolds(before, s, formula, after_other, found_other);
    match verdict(calm.values, formula) {
        Verdict::Satisfied => {},
        Verdict::Falsified(j) => {
            if calm.level != 0 {
                lemma_after_conflict(calm, formula, j);
                assert(next_one == next_other);
                lemma_courses_once(
                    next_one,
                    after_conflict(calm, formula, j),
                    formula,
                    after_one,
                    found_one,
                    after_other,
                    found_other,
                );
            }
        },
        Verdict::Undefined(_) => {
            assert(Some(lit_one) == Some(lit_other) && next_one == next_other);
            lemma_after_decision(calm, formula, lit_one);
            lemma_courses_once(
                next_one,
                calm.assign(lit_one, None, calm.level + 1),
                formula,
                after_one,
                found_one,
                after_other,
                found_other,
            );
        },
    }
}

/// The learning search is repeatable: with a steady strategy, whatever
/// state the strategy is in before it is reset and shown the formula, the
/// search from the state in which nothing is decided finds one thing only.
pub proof fn lemma_solving_once<B: Branching>(
    one: B,
    other: B,
    n: nat,
    formula: Seq<Seq<Lit>>,
    ready_one: B,
    after_one: B,
    found_one: Option<Seq<bool>>,
    ready_other: B,
    after_other: B,
    found_other: Option<Seq<bool>>,
)
    requires
        steady::<B>(),
        n <= u64::MAX,
        formula_in_range(formula, n as int),
        no_repeats(formula),
        primed(one, n as int, formula, ready_one),
        courses(ready_one, initial(n, formula), formula, after_one, found_one),
        primed(other, n as int, formula, ready_other),
        courses(ready_other, initial(n, formula), formula, after_other, found_other),
    ensures
        after_one == after_other,
        found_one == found_other,
{
    lemma_initial(n, formula);
    lemma_primed_once(one, other, n as int, formula, ready_one, ready_other);
    lemma_courses_once(ready_one, initial(n, formula), formula, after_one, found_one, after_other, found_other);
}

/// The state in which a search starts is in order.
pub proof fn lemma_initial(n: nat, formula: Seq<Seq<Lit>>)
    requires
        n <= u64::MAX,
        formula_in_range(formula, n as int),
        no_repeats(formula),
    ensures
        initial(n, formula).inv(formula),
{
    let s = initial(n, formula);
    assert forall|v: int| 0 <= v < s.values.len() implies #[trigger] s.var_ok(v) by {}
    assert forall|model: Seq<bool>, v: int|
        model.len() == s.n() && formula_holds(model, formula) && 0 <= v < s.n() implies #[trigger] s.root_agrees(
        model,
        v,
    ) by {}
    assert forall|c: int| 0 <= c < s.clauses.len() implies clause_in_range(#[trigger] s.clauses[c], s.n())
        && s.clauses[c].no_duplicates() && entails(formula, s.n(), s.clauses[c]) by {
        assert(s.clauses[c] == formula[c]);
    }
}

} // verus!
