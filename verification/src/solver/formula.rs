//! Literals and clauses, and what it means for an assignment to satisfy them.

use vstd::prelude::*;

verus! {

/// A propositional variable, numbered from 1, together with a polarity.
#[derive(Clone, Copy, Debug, PartialEq, Eq, Structural, Hash)]
pub struct Lit {
    /// The number of the variable, starting at 1.
    pub var: u64,
    /// Whether the literal stands for the variable itself (`true`) or for its
    /// negation (`false`).
    pub positive: bool,
}

impl Lit {
    /// The literal over the same variable with the opposite polarity.
    pub open spec fn negated(self) -> Lit {
        Lit { var: self.var, positive: !self.positive }
    }

    /// Whether the literal's variable is one of the `n` variables `1..=n`.
    pub open spec fn in_range(self, n: int) -> bool {
        1 <= self.var <= n
    }

    /// The position of the literal's variable in an assignment.
    pub open spec fn index(self) -> int {
        self.var - 1
    }

    /// The literal that the signed number `code` stands for: the magnitude is
    /// the variable, and a negative sign marks its negation.
    pub open spec fn of_code(code: int) -> Lit {
        Lit { var: (if code >= 0 { code } else { -code }) as u64, positive: code >= 0 }
    }

    /// Builds a literal from its signed number.
    pub fn from_i64(code: i64) -> (lit: Lit)
        ensures
            lit == Lit::of_code(code as int),
    {
        if code >= 0 {
            Lit { var: code as u64, positive: true }
        } else if code == i64::MIN {
            Lit { var: 0x8000_0000_0000_0000u64, positive: false }
        } else {
            Lit { var: (-code) as u64, positive: false }
        }
    }

    /// The number of the literal's variable.
    pub fn var(&self) -> (v: u64)
        ensures
            v == self.var,
    {
        self.var
    }

    /// Whether the literal is the variable itself rather than its negation.
    pub fn is_positive(&self) -> (p: bool)
        ensures
            p == self.positive,
    {
        self.positive
    }
}

/// A disjunction of literals, in the order in which they were given.
#[derive(Debug)]
pub struct Clause {
    lits: Vec<Lit>,
}

impl View for Clause {
    type V = Seq<Lit>;

    closed spec fn view(&self) -> Seq<Lit> {
        self.lits@
    }
}

impl DeepView for Clause {
    type V = Seq<Lit>;

    open spec fn deep_view(&self) -> Seq<Lit> {
        self@
    }
}

impl Clause {
    /// Makes a clause of the given literals, keeping their order.
    pub fn from_vec(lits: Vec<Lit>) -> (clause: Clause)
        ensures
            clause@ == lits@,
    {
        Clause { lits }
    }

    /// The number of literals in the clause, repetitions counted.
    pub fn len(&self) -> (n: usize)
        ensures
            n == self@.len(),
    {
        self.lits.len()
    }

    /// The literals of the clause, in order.
    pub fn lits(&self) -> (lits: &Vec<Lit>)
        ensures
            lits@ == self@,
    {
        &self.lits
    }

    /// The literal at position `i`.
    pub fn lit(&self, i: usize) -> (lit: Lit)
        requires
            i < self@.len(),
        ensures
            lit == self@[i as int],
    {
        self.lits[i]
    }

    /// Whether `lit` occurs in the clause, with that polarity.
    pub fn contains(&self, lit: &Lit) -> (found: bool)
        ensures
            found == self@.contains(*lit),
    {
        let mut i: usize = 0;
        while i < self.lits.len()
            invariant
                i <= self.lits.len(),
                forall|k: int| 0 <= k < i ==> self.lits@[k] != *lit,
            decreases self.lits.len() - i,
        {
            if self.lits[i] == *lit {
                return true;
            }
            i += 1;
        }
        false
    }
}

impl Clone for Clause {
    fn clone(&self) -> (copy: Clause)
        ensures
            copy@ == self@,
    {
        let mut lits: Vec<Lit> = Vec::new();
        let mut i: usize = 0;
        while i < self.lits.len()
            invariant
                i <= self.lits.len(),
                lits@ == self.lits@.take(i as int),
            decreases self.lits.len() - i,
        {
            lits.push(self.lits[i]);
            i += 1;
        }
        Clause { lits }
    }
}

/// Whether every literal of `clause` is over one of the variables `1..=n`.
pub open spec fn clause_in_range(clause: Seq<Lit>, n: int) -> bool {
    forall|i: int| 0 <= i < clause.len() ==> (#[trigger] clause[i]).in_range(n)
}

/// Whether every clause of `clauses` is over the variables `1..=n`.
pub open spec fn formula_in_range(clauses: Seq<Seq<Lit>>, n: int) -> bool {
    forall|j: int| 0 <= j < clauses.len() ==> clause_in_range(#[trigger] clauses[j], n)
}

/// Whether no clause of `clauses` holds a literal twice.
pub open spec fn no_repeats(clauses: Seq<Seq<Lit>>) -> bool {
    forall|j: int| 0 <= j < clauses.len() ==> (#[trigger] clauses[j]).no_duplicates()
}

/// Tests whether every literal of every clause is over a variable in
/// `1..=n_vars`.
pub fn formula_fits(clauses: &Vec<Clause>, n_vars: u64) -> (fits: bool)
    ensures
        fits == formula_in_range(clauses.deep_view(), n_vars as int),
{
    let mut j: usize = 0;
    while j < clauses.len()
        invariant
            j <= clauses@.len(),
            forall|i: int| 0 <= i < j ==> clause_in_range(#[trigger] clauses.deep_view()[i], n_vars as int),
        decreases clauses@.len() - j,
    {
        let clause = &clauses[j];
        let mut k: usize = 0;
        while k < clause.len()
            invariant
                j < clauses@.len(),
                *clause == clauses@[j as int],
                k <= clause@.len(),
                forall|i: int| 0 <= i < k ==> (#[trigger] clause@[i]).in_range(n_vars as int),
            decreases clause@.len() - k,
        {
            let lit = clause.lit(k);
            if lit.var < 1 || lit.var > n_vars {
                assert(!clause_in_range(clauses.deep_view()[j as int], n_vars as int));
                return false;
            }
            k += 1;
        }
        j += 1;
    }
    true
}

/// Tests whether no clause holds a literal twice.
pub fn formula_has_no_repeats(clauses: &Vec<Clause>) -> (clean: bool)
    ensures
        clean == no_repeats(clauses.deep_view()),
{
    let mut j: usize = 0;
    while j < clauses.len()
        invariant
            j <= clauses@.len(),
            forall|i: int| 0 <= i < j ==> (#[trigger] clauses.deep_view()[i]).no_duplicates(),
        decreases clauses@.len() - j,
    {
        let clause = &clauses[j];
        let mut k: usize = 0;
        while k < clause.len()
            invariant
                j < clauses@.len(),
                *clause == clauses@[j as int],
                k <= clause@.len(),
                clause@.take(k as int).no_duplicates(),
            decreases clause@.len() - k,
        {
            let lit = clause.lit(k);
            let mut before: usize = 0;
            while before < k
                invariant
                    j < clauses@.len(),
                    *clause == clauses@[j as int],
                    before <= k < clause@.len(),
                    lit == clause@[k as int],
                    forall|i: int| 0 <= i < before ==> clause@[i] != lit,
                decreases k - before,
            {
                if clause.lit(before) == lit {
                    assert(!clauses.deep_view()[j as int].no_duplicates());
                    return false;
                }
                before += 1;
            }
            assert(clause@.take(k + 1).no_duplicates()) by {
                let upto = clause@.take(k + 1);
                let seen = clause@.take(k as int);
                assert forall|a: int, b: int| 0 <= a < upto.len() && 0 <= b < upto.len() && a != b implies upto[a]
                    != upto[b] by {
                    if a < k && b < k {
                        assert(seen[a] != seen[b]);
                    }
                }
            }
            k += 1;
        }
        assert(clause@.take(k as int) =~= clause@);
        j += 1;
    }
    true
}

/// Whether `lit` is true under the total assignment `model`, which gives the
/// value of variable `v` at position `v - 1`.
pub open spec fn lit_holds(model: Seq<bool>, lit: Lit) -> bool {
    model[lit.index()] == lit.positive
}

/// Whether some literal of `clause` is true under `model`.
pub open spec fn clause_holds(model: Seq<bool>, clause: Seq<Lit>) -> bool {
    exists|i: int| 0 <= i < clause.len() && lit_holds(model, #[trigger] clause[i])
}

/// Whether every clause of `clauses` is true under `model`.
pub open spec fn formula_holds(model: Seq<bool>, clauses: Seq<Seq<Lit>>) -> bool {
    forall|j: int| 0 <= j < clauses.len() ==> clause_holds(model, #[trigger] clauses[j])
}

/// Whether some assignment to `n` variables makes every clause of `clauses`
/// true.
pub open spec fn satisfiable(n: int, clauses: Seq<Seq<Lit>>) -> bool {
    exists|model: Seq<bool>| model.len() == n && #[trigger] formula_holds(model, clauses)
}

} // verus!
