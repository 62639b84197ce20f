//! The measure by which the search of the learning engine is seen to end.
//!
//! The variables that have a value are written down in the order in which
//! they got it, each with a mark: 1 for a decided variable, 2 for an implied
//! one. Read as a number in base 3, and padded with zeros to one digit per
//! variable, this record grows with every step of the search.

use vstd::prelude::*;

verus! {

/// Three to the power `k`.
pub open spec fn pow3(k: nat) -> nat
    decreases k,
{
    if k == 0 {
        1
    } else {
        3 * pow3((k - 1) as nat)
    }
}

/// The number that `marks` spells in base 3, the first mark being the most
/// significant digit.
pub open spec fn value(marks: Seq<int>) -> int
    decreases marks.len(),
{
    if marks.len() == 0 {
        0
    } else {
        3 * value(marks.drop_last()) + marks.last()
    }
}

/// Whether every mark is 1 or 2.
pub open spec fn marks_ok(marks: Seq<int>) -> bool {
    forall|j: int| 0 <= j < marks.len() ==> 1 <= #[trigger] marks[j] <= 2
}

/// The number that `marks` spells when padded with zeros to `n` digits.
pub open spec fn weight(marks: Seq<int>, n: nat) -> int {
    value(marks) * pow3((n - marks.len()) as nat)
}

/// The least number above every `weight` of an extension of `marks`.
pub open spec fn ceiling(marks: Seq<int>, n: nat) -> int {
    (value(marks) + 1) * pow3((n - marks.len()) as nat)
}

/// A power of three is positive.
pub proof fn lemma_pow3_positive(k: nat)
    ensures
        pow3(k) >= 1,
    decreases k,
{
    if k > 0 {
        lemma_pow3_positive((k - 1) as nat);
    }
}

/// A record never spells a negative number.
pub proof fn lemma_value_nonnegative(marks: Seq<int>)
    requires
        marks_ok(marks),
    ensures
        value(marks) >= 0,
    decreases marks.len(),
{
    if marks.len() > 0 {
        assert(marks_ok(marks.drop_last())) by {
            assert forall|j: int| 0 <= j < marks.drop_last().len() implies 1 <= #[trigger] marks.drop_last()[j] <= 2 by {
                assert(marks.drop_last()[j] == marks[j]);
            }
        }
        lemma_value_nonnegative(marks.drop_last());
    }
}

/// One more mark raises the weight, and raises it to the old ceiling at
/// most; a 2 in the place of a 1 reaches the ceiling of the record with the 1.
pub proof fn lemma_push(marks: Seq<int>, mark: int, n: nat)
    requires
        marks.len() < n,
        1 <= mark <= 2,
    ensures
        weight(marks.push(mark), n) > weight(marks, n),
        ceiling(marks.push(mark), n) <= ceiling(marks, n),
        weight(marks.push(2), n) == ceiling(marks.push(1), n),
{
    let rest = (n - marks.len() - 1) as nat;
    let unit = pow3(rest) as int;
    let v = value(marks);
    lemma_pow3_positive(rest);
    assert(marks.push(mark).drop_last() =~= marks);
    assert(marks.push(1).drop_last() =~= marks);
    assert(marks.push(2).drop_last() =~= marks);
    assert(pow3((n - marks.len()) as nat) == 3 * unit);
    assert(value(marks.push(mark)) == 3 * v + mark);
    assert(value(marks.push(1)) == 3 * v + 1);
    assert(value(marks.push(2)) == 3 * v + 2);
    assert((3 * v + mark) * unit > v * (3 * unit)) by (nonlinear_arith)
        requires
            unit >= 1,
            mark >= 1,
    ;
    assert((3 * v + mark + 1) * unit <= (v + 1) * (3 * unit)) by (nonlinear_arith)
        requires
            unit >= 1,
            mark <= 2,
    ;
}

/// The weight of a record stays under its ceiling, and no ceiling is above
/// three to the number of variables.
pub proof fn lemma_bounds(marks: Seq<int>, n: nat)
    requires
        marks.len() <= n,
        marks_ok(marks),
    ensures
        0 <= weight(marks, n) < ceiling(marks, n) <= pow3(n),
    decreases marks.len(),
{
    let unit = pow3((n - marks.len()) as nat) as int;
    let v = value(marks);
    lemma_pow3_positive((n - marks.len()) as nat);
    lemma_value_nonnegative(marks);
    assert(0 <= v * unit < (v + 1) * unit) by (nonlinear_arith)
        requires
            unit >= 1,
            v >= 0,
    ;
    if marks.len() == 0 {
        assert(ceiling(marks, n) == pow3(n)) by (nonlinear_arith)
            requires
                ceiling(marks, n) == (0 + 1) * unit,
                unit == pow3(n),
        ;
    } else {
        let front = marks.drop_last();
        assert(marks_ok(front)) by {
            assert forall|j: int| 0 <= j < front.len() implies 1 <= #[trigger] front[j] <= 2 by {
                assert(front[j] == marks[j]);
            }
        }
        lemma_bounds(front, n);
        lemma_push(front, marks.last(), n);
        assert(front.push(marks.last()) =~= marks);
    }
}

/// The ceiling of a record is no higher than that of any of its beginnings.
pub proof fn lemma_prefix(marks: Seq<int>, k: int, n: nat)
    requires
        0 <= k <= marks.len() <= n,
        marks_ok(marks),
    ensures
        ceiling(marks, n) <= ceiling(marks.take(k), n),
    decreases marks.len() - k,
{
    if k < marks.len() {
        let front = marks.drop_last();
        assert(marks_ok(front)) by {
            assert forall|j: int| 0 <= j < front.len() implies 1 <= #[trigger] front[j] <= 2 by {
                assert(front[j] == marks[j]);
            }
        }
        lemma_prefix(front, k, n);
        lemma_push(front, marks.last(), n);
        assert(front.push(marks.last()) =~= marks);
        assert(front.take(k) =~= marks.take(k));
    } else {
        assert(marks.take(k) =~= marks);
    }
}

/// Going back to just before a decision and implying a variable in its
/// place gives a record that weighs more than the whole record did.
pub proof fn lemma_retreat(marks: Seq<int>, cut: int, n: nat)
    requires
        0 <= cut < marks.len() <= n,
        marks_ok(marks),
        marks[cut] == 1,
    ensures
        weight(marks.take(cut).push(2), n) > weight(marks, n),
{
    let kept = marks.take(cut);
    lemma_push(kept, 1, n);
    assert(kept.push(1) =~= marks.take(cut + 1));
    lemma_prefix(marks, cut + 1, n);
    lemma_bounds(marks, n);
}

/// Two to the power `k`.
pub open spec fn pow2(k: nat) -> nat
    decreases k,
{
    if k == 0 {
        1
    } else {
        2 * pow2((k - 1) as nat)
    }
}

/// The number whose binary digit `j` is set exactly where `bits[j]` holds.
pub open spec fn mask(bits: Seq<bool>) -> int
    decreases bits.len(),
{
    if bits.len() == 0 {
        0
    } else {
        mask(bits.drop_last()) + if bits.last() {
            pow2((bits.len() - 1) as nat) as int
        } else {
            0
        }
    }
}

/// A mask of `k` bits is a number below two to the `k`.
pub proof fn lemma_mask_bounds(bits: Seq<bool>)
    ensures
        0 <= mask(bits) < pow2(bits.len()),
    decreases bits.len(),
{
    if bits.len() > 0 {
        lemma_mask_bounds(bits.drop_last());
    }
}

/// Clearing a bit lowers a mask, whatever happens to the bits below it.
pub proof fn lemma_mask_less(a: Seq<bool>, b: Seq<bool>, t: int)
    requires
        a.len() == b.len(),
        0 <= t < a.len(),
        a[t],
        !b[t],
        forall|j: int| t < j < a.len() ==> a[j] == b[j],
    ensures
        mask(b) < mask(a),
    decreases a.len(),
{
    if t == a.len() - 1 {
        lemma_mask_bounds(a.drop_last());
        lemma_mask_bounds(b.drop_last());
    } else {
        assert(a.last() == b.last());
        lemma_mask_less(a.drop_last(), b.drop_last(), t);
    }
}

} // verus!
