//! Operations on literals and clauses: negation and resolution.

use vstd::prelude::*;
use crate::solver::formula::{Clause, Lit, clause_holds, clause_in_range, lit_holds};

verus! {

/// The test that a literal is another one than `lit`.
pub open spec fn other_than(lit: Lit) -> spec_fn(Lit) -> bool {
    |l: Lit| l != lit
}

/// `clause` without every occurrence of `lit`.
pub open spec fn without(clause: Seq<Lit>, lit: Lit) -> Seq<Lit> {
    clause.filter(other_than(lit))
}

/// `lits` with only the first occurrence of each literal kept.
pub open spec fn dedup(lits: Seq<Lit>) -> Seq<Lit>
    decreases lits.len(),
{
    if lits.len() == 0 {
        lits
    } else {
        let front = dedup(lits.drop_last());
        if front.contains(lits.last()) {
            front
        } else {
            front.push(lits.last())
        }
    }
}

/// The polarity of the pivot that resolution removes from `clause`: `pivot`
/// itself where the clause holds it, else its negation.
pub open spec fn pivot_in(clause: Seq<Lit>, pivot: Lit) -> Lit {
    if clause.contains(pivot) {
        pivot
    } else {
        pivot.negated()
    }
}

/// The resolvent of `lhs` and `rhs` over `pivot`: the literals of `lhs` other
/// than its side of the pivot, then those of `rhs` other than its side, each
/// literal kept once, at its first place.
pub open spec fn resolvent(lhs: Seq<Lit>, rhs: Seq<Lit>, pivot: Lit) -> Seq<Lit> {
    dedup(without(lhs, pivot_in(lhs, pivot)) + without(rhs, pivot_in(rhs, pivot)))
}

/// A literal is in `dedup(lits)` exactly when it is in `lits`, and none is
/// there twice.
pub proof fn lemma_dedup(lits: Seq<Lit>)
    ensures
        dedup(lits).no_duplicates(),
        forall|l: Lit|
            #![trigger dedup(lits).contains(l)]
            #![trigger lits.contains(l)]
            dedup(lits).contains(l) <==> lits.contains(l),
    decreases lits.len(),
{
    if lits.len() > 0 {
        let front = lits.drop_last();
        lemma_dedup(front);
        let d = dedup(front);
        let out = dedup(lits);
        assert forall|l: Lit| out.contains(l) <==> lits.contains(l) by {
            if lits.contains(l) {
                let i = choose|i: int| 0 <= i < lits.len() && lits[i] == l;
                if i < lits.len() - 1 {
                    assert(front[i] == l);
                    assert(front.contains(l));
                    assert(d.contains(l));
                    let k = choose|k: int| 0 <= k < d.len() && d[k] == l;
                    assert(out[k] == l);
                } else if !d.contains(lits.last()) {
                    assert(out[d.len() as int] == l);
                }
            }
            if out.contains(l) {
                let k = choose|k: int| 0 <= k < out.len() && out[k] == l;
                if k < d.len() {
                    assert(d[k] == l);
                    assert(d.contains(l));
                    assert(front.contains(l));
                    let i = choose|i: int| 0 <= i < front.len() && front[i] == l;
                    assert(lits[i] == l);
                } else {
                    assert(lits[lits.len() - 1] == l);
                }
            }
        }
    }
}

/// A literal is in `without(clause, lit)` exactly when it is in `clause` and
/// is not `lit`.
pub proof fn lemma_without(clause: Seq<Lit>, lit: Lit)
    ensures
        forall|l: Lit|
            #![trigger without(clause, lit).contains(l)]
            #![trigger clause.contains(l)]
            without(clause, lit).contains(l) <==> clause.contains(l) && l != lit,
    decreases clause.len(),
{
    if clause.len() > 0 {
        let front = clause.drop_last();
        lemma_without(front, lit);
        let w = without(front, lit);
        let out = without(clause, lit);
        assert(front.push(clause.last()) =~= clause);
        Seq::lemma_filter_push(front, clause.last(), other_than(lit));
        assert forall|l: Lit| out.contains(l) <==> clause.contains(l) && l != lit by {
            if clause.contains(l) && l != lit {
                let i = choose|i: int| 0 <= i < clause.len() && clause[i] == l;
                if i < clause.len() - 1 {
                    assert(front[i] == l);
                    assert(front.contains(l));
                    assert(w.contains(l));
                    let k = choose|k: int| 0 <= k < w.len() && w[k] == l;
                    assert(out[k] == l);
                } else {
                    assert(out[w.len() as int] == l);
                }
            }
            if out.contains(l) {
                let k = choose|k: int| 0 <= k < out.len() && out[k] == l;
                if k < w.len() {
                    assert(w[k] == l);
                    assert(w.contains(l));
                    assert(front.contains(l));
                    let i = choose|i: int| 0 <= i < front.len() && front[i] == l;
                    assert(clause[i] == l);
                } else {
                    assert(clause[clause.len() - 1] == l);
                }
            }
        }
    }
}

/// A literal is in the resolvent exactly when it is in one of the two clauses
/// and is not the pivot as that clause holds it; and none is there twice.
pub proof fn lemma_resolvent_members(lhs: Seq<Lit>, rhs: Seq<Lit>, pivot: Lit)
    ensures
        resolvent(lhs, rhs, pivot).no_duplicates(),
        forall|l: Lit|
            #![trigger resolvent(lhs, rhs, pivot).contains(l)]
            #![trigger lhs.contains(l)]
            #![trigger rhs.contains(l)]
            resolvent(lhs, rhs, pivot).contains(l) <==> (lhs.contains(l) && l != pivot_in(
                lhs,
                pivot,
            )) || (rhs.contains(l) && l != pivot_in(rhs, pivot)),
{
    let lp = pivot_in(lhs, pivot);
    let rp = pivot_in(rhs, pivot);
    let a = without(lhs, lp);
    let b = without(rhs, rp);
    lemma_dedup(a + b);
    lemma_without(lhs, lp);
    lemma_without(rhs, rp);
    assert forall|l: Lit|
        resolvent(lhs, rhs, pivot).contains(l) <==> (lhs.contains(l) && l != lp) || (rhs.contains(
            l,
        ) && l != rp) by {
        if (a + b).contains(l) {
            let i = choose|i: int| 0 <= i < (a + b).len() && (a + b)[i] == l;
            if i < a.len() {
                assert(a[i] == l);
                assert(a.contains(l));
            } else {
                assert(b[i - a.len()] == l);
                assert(b.contains(l));
            }
        }
        if lhs.contains(l) && l != lp {
            assert(a.contains(l));
            let i = choose|i: int| 0 <= i < a.len() && a[i] == l;
            assert((a + b)[i] == l);
        }
        if rhs.contains(l) && l != rp {
            assert(b.contains(l));
            let i = choose|i: int| 0 <= i < b.len() && b[i] == l;
            assert((a + b)[a.len() + i] == l);
        }
    }
}

/// Resolution is sound: an assignment that makes both clauses true makes
/// their resolvent true, whenever the two clauses hold the pivot with
/// opposite polarities.
pub proof fn lemma_resolvent_holds(model: Seq<bool>, lhs: Seq<Lit>, rhs: Seq<Lit>, pivot: Lit)
    requires
        pivot_in(lhs, pivot) != pivot_in(rhs, pivot),
        clause_holds(model, lhs),
        clause_holds(model, rhs),
    ensures
        clause_holds(model, resolvent(lhs, rhs, pivot)),
{
    lemma_resolvent_members(lhs, rhs, pivot);
    let res = resolvent(lhs, rhs, pivot);
    let lp = pivot_in(lhs, pivot);
    let rp = pivot_in(rhs, pivot);
    let i = choose|i: int| 0 <= i < lhs.len() && lit_holds(model, lhs[i]);
    let j = choose|j: int| 0 <= j < rhs.len() && lit_holds(model, rhs[j]);
    assert(lhs.contains(lhs[i]));
    assert(rhs.contains(rhs[j]));
    assert(lp == rp.negated());
    let witness = if lhs[i] != lp {
        lhs[i]
    } else {
        rhs[j]
    };
    assert(res.contains(witness));
    let k = choose|k: int| 0 <= k < res.len() && res[k] == witness;
    assert(lit_holds(model, res[k]));
}

/// Where one clause holds the pivot and not its negation, and the other holds
/// the negation and not the pivot, the resolvent holds neither.
pub proof fn lemma_resolvent_drops_pivot(lhs: Seq<Lit>, rhs: Seq<Lit>, pivot: Lit)
    requires
        lhs.contains(pivot) != rhs.contains(pivot),
        lhs.contains(pivot) ==> !lhs.contains(pivot.negated()) && rhs.contains(pivot.negated()),
        rhs.contains(pivot) ==> !rhs.contains(pivot.negated()) && lhs.contains(pivot.negated()),
    ensures
        !resolvent(lhs, rhs, pivot).contains(pivot),
        !resolvent(lhs, rhs, pivot).contains(pivot.negated()),
{
    lemma_resolvent_members(lhs, rhs, pivot);
}

/// The resolvent is over the variables that the two clauses are over.
pub proof fn lemma_resolvent_in_range(lhs: Seq<Lit>, rhs: Seq<Lit>, pivot: Lit, n: int)
    requires
        clause_in_range(lhs, n),
        clause_in_range(rhs, n),
    ensures
        clause_in_range(resolvent(lhs, rhs, pivot), n),
{
    lemma_resolvent_members(lhs, rhs, pivot);
    let res = resolvent(lhs, rhs, pivot);
    assert forall|k: int| 0 <= k < res.len() implies (#[trigger] res[k]).in_range(n) by {
        assert(res.contains(res[k]));
        if lhs.contains(res[k]) {
            let i = choose|i: int| 0 <= i < lhs.len() && lhs[i] == res[k];
            assert(lhs[i].in_range(n));
        } else {
            let i = choose|i: int| 0 <= i < rhs.len() && rhs[i] == res[k];
            assert(rhs[i].in_range(n));
        }
    }
}

/// The literal over the same variable with the opposite polarity.
pub fn negate_literal(lit: &Lit) -> (neg: Lit)
    ensures
        neg == lit.negated(),
{
    Lit { var: lit.var, positive: !lit.positive }
}

/// Appends to `out` the literals of `from` other than `skip` that `out` does
/// not hold yet.
fn merge_into(out: &mut Vec<Lit>, from: &Clause, skip: Lit, Ghost(before): Ghost<Seq<Lit>>)
    requires
        old(out)@ == dedup(before),
    ensures
        final(out)@ == dedup(before + without(from@, skip)),
{
    let mut i: usize = 0;
    assert(from@.take(0).filter(other_than(skip)) =~= Seq::<Lit>::empty());
    assert(before + Seq::<Lit>::empty() =~= before);
    while i < from.len()
        invariant
            i <= from@.len(),
            out@ == dedup(before + without(from@.take(i as int), skip)),
        decreases from@.len() - i,
    {
        let lit = from.lit(i);
        proof {
            let keep = other_than(skip);
            let seen = from@.take(i as int);
            assert(from@.take(i + 1) =~= seen.push(lit));
            Seq::lemma_filter_push(seen, lit, keep);
            if lit != skip {
                let next = before + seen.filter(keep).push(lit);
                assert(next.drop_last() =~= before + seen.filter(keep));
                assert(next.last() == lit);
            }
        }
        if lit != skip && !contains_lit(out, lit) {
            out.push(lit);
        }
        i += 1;
    }
    assert(from@.take(i as int) =~= from@);
}

/// Whether `lit` occurs in `lits`.
fn contains_lit(lits: &Vec<Lit>, lit: Lit) -> (found: bool)
    ensures
        found == lits@.contains(lit),
{
    let mut i: usize = 0;
    while i < lits.len()
        invariant
            i <= lits.len(),
            forall|k: int| 0 <= k < i ==> lits@[k] != lit,
        decreases lits.len() - i,
    {
        if lits[i] == lit {
            return true;
        }
        i += 1;
    }
    false
}

/// Resolves `lhs` against `rhs` over the variable of `pivot_lit`.
///
/// Each clause gives up the pivot in the polarity in which it holds it
/// (`pivot_lit` itself where it occurs there, else its negation); the two
/// must differ. What is left of `lhs`, then of `rhs`, makes the result, each
/// literal once.
pub fn resolve(lhs: &Clause, rhs: &Clause, pivot_lit: &Lit) -> (resolved: Clause)
    requires
        pivot_in(lhs@, *pivot_lit) != pivot_in(rhs@, *pivot_lit),
    ensures
        resolved@ == resolvent(lhs@, rhs@, *pivot_lit),
{
    let mut resolved_lits: Vec<Lit> = Vec::new();
    let neg_pivot_lit = negate_literal(pivot_lit);
    let lhs_pivot_lit = if lhs.contains(pivot_lit) {
        *pivot_lit
    } else {
        neg_pivot_lit
    };
    let rhs_pivot_lit = if rhs.contains(pivot_lit) {
        *pivot_lit
    } else {
        neg_pivot_lit
    };
    let ghost none = Seq::<Lit>::empty();
    merge_into(&mut resolved_lits, lhs, lhs_pivot_lit, Ghost(none));
    assert(none + without(lhs@, lhs_pivot_lit) =~= without(lhs@, lhs_pivot_lit));
    merge_into(&mut resolved_lits, rhs, rhs_pivot_lit, Ghost(without(lhs@, lhs_pivot_lit)));
    Clause::from_vec(resolved_lits)
}

} // verus!
