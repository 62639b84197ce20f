//! Assignments, partial and total, and the outcome of solving.

use vstd::prelude::*;
use vstd::string::StringExecFns;
use crate::solver::formula::{
    Clause,
    Lit,
    clause_holds,
    clause_in_range,
    formula_holds,
    formula_in_range,
    lit_holds,
};

verus! {

/// The value of `lit` under the partial assignment `values`, which gives the
/// value of variable `v`, where it has one, at position `v - 1`.
pub open spec fn lit_value(values: Seq<Option<bool>>, lit: Lit) -> Option<bool> {
    match values[lit.index()] {
        None => None,
        Some(value) => Some(value == lit.positive),
    }
}

/// Whether some literal of `clause` is true under `values`.
pub open spec fn clause_satisfied(values: Seq<Option<bool>>, clause: Seq<Lit>) -> bool {
    exists|i: int| 0 <= i < clause.len() && lit_value(values, #[trigger] clause[i]) == Some(true)
}

/// Whether every literal of `clause` is false under `values`.
pub open spec fn clause_falsified(values: Seq<Option<bool>>, clause: Seq<Lit>) -> bool {
    forall|i: int| 0 <= i < clause.len() ==> lit_value(values, #[trigger] clause[i]) == Some(false)
}

/// Whether `clause` has no true literal under `values` and at least one
/// without a value.
pub open spec fn clause_undefined(values: Seq<Option<bool>>, clause: Seq<Lit>) -> bool {
    !clause_satisfied(values, clause) && !clause_falsified(values, clause)
}

/// Whether `j` is the first clause of `clauses` that `values` falsifies.
pub open spec fn first_falsified(values: Seq<Option<bool>>, clauses: Seq<Seq<Lit>>, j: int) -> bool {
    &&& 0 <= j < clauses.len()
    &&& clause_falsified(values, clauses[j])
    &&& forall|k: int| 0 <= k < j ==> !clause_falsified(values, #[trigger] clauses[k])
}

/// Whether `j` is the first clause of `clauses` that is undefined under
/// `values`.
pub open spec fn first_undefined(values: Seq<Option<bool>>, clauses: Seq<Seq<Lit>>, j: int) -> bool {
    &&& 0 <= j < clauses.len()
    &&& clause_undefined(values, clauses[j])
    &&& forall|k: int| 0 <= k < j ==> !clause_undefined(values, #[trigger] clauses[k])
}

/// What a partial assignment makes of a formula: every clause is satisfied;
/// or the clause at the place given is the first one falsified; or none is
/// falsified and the clause at the place given is the first one undefined.
pub enum Verdict {
    /// Every clause has a true literal.
    Satisfied,
    /// The clause at this place is the first whose literals are all false.
    Falsified(int),
    /// No clause is falsified, and the clause at this place is the first
    /// that has no true literal.
    Undefined(int),
}

/// What `values` makes of `clauses`.
pub open spec fn verdict(values: Seq<Option<bool>>, clauses: Seq<Seq<Lit>>) -> Verdict {
    if exists|j: int| first_falsified(values, clauses, j) {
        Verdict::Falsified(choose|j: int| first_falsified(values, clauses, j))
    } else if exists|j: int| first_undefined(values, clauses, j) {
        Verdict::Undefined(choose|j: int| first_undefined(values, clauses, j))
    } else {
        Verdict::Satisfied
    }
}

/// Where a clause is falsified, some clause is the first one falsified.
pub proof fn lemma_first_falsified_exists(values: Seq<Option<bool>>, clauses: Seq<Seq<Lit>>, j: int)
    requires
        0 <= j < clauses.len(),
        clause_falsified(values, clauses[j]),
    ensures
        exists|f: int| first_falsified(values, clauses, f),
    decreases j,
{
    if exists|k: int| 0 <= k < j && clause_falsified(values, #[trigger] clauses[k]) {
        let k = choose|k: int| 0 <= k < j && clause_falsified(values, #[trigger] clauses[k]);
        lemma_first_falsified_exists(values, clauses, k);
    } else {
        assert(first_falsified(values, clauses, j));
    }
}

/// What the verdict says of the clauses.
pub proof fn lemma_verdict(values: Seq<Option<bool>>, clauses: Seq<Seq<Lit>>)
    ensures
        match verdict(values, clauses) {
            Verdict::Satisfied => true,
            Verdict::Falsified(j) => first_falsified(values, clauses, j),
            Verdict::Undefined(j) => {
                &&& first_undefined(values, clauses, j)
                &&& forall|f: int| 0 <= f < clauses.len() ==> !clause_falsified(values, #[trigger] clauses[f])
            },
        },
{
    if verdict(values, clauses) is Undefined {
        assert forall|f: int| 0 <= f < clauses.len() implies !clause_falsified(values, #[trigger] clauses[f]) by {
            if clause_falsified(values, clauses[f]) {
                lemma_first_falsified_exists(values, clauses, f);
            }
        }
    }
}

/// The first falsified clause decides the verdict.
pub proof fn lemma_verdict_falsified(values: Seq<Option<bool>>, clauses: Seq<Seq<Lit>>, j: int)
    requires
        first_falsified(values, clauses, j),
    ensures
        verdict(values, clauses) == Verdict::Falsified(j),
{
    let v = choose|v: int| first_falsified(values, clauses, v);
    if v < j {
        assert(!clause_falsified(values, clauses[v]));
    }
    if j < v {
        assert(!clause_falsified(values, clauses[j]));
    }
}

/// Where no clause is falsified, the first undefined clause decides the
/// verdict.
pub proof fn lemma_verdict_undefined(values: Seq<Option<bool>>, clauses: Seq<Seq<Lit>>, j: int)
    requires
        first_undefined(values, clauses, j),
        forall|f: int| 0 <= f < clauses.len() ==> !clause_falsified(values, #[trigger] clauses[f]),
    ensures
        verdict(values, clauses) == Verdict::Undefined(j),
{
    assert forall|f: int| !first_falsified(values, clauses, f) by {
        if first_falsified(values, clauses, f) {
            assert(!clause_falsified(values, clauses[f]));
        }
    }
    let v = choose|v: int| first_undefined(values, clauses, v);
    if v < j {
        assert(!clause_undefined(values, clauses[v]));
    }
    if j < v {
        assert(!clause_undefined(values, clauses[j]));
    }
}

/// Where every clause is satisfied, so is the formula.
pub proof fn lemma_verdict_satisfied(values: Seq<Option<bool>>, clauses: Seq<Seq<Lit>>)
    requires
        forall|j: int| 0 <= j < clauses.len() ==> clause_satisfied(values, #[trigger] clauses[j]),
    ensures
        verdict(values, clauses) is Satisfied,
{
    assert forall|j: int| !first_falsified(values, clauses, j) by {
        if first_falsified(values, clauses, j) {
            assert(clause_satisfied(values, clauses[j]));
            let i = choose|i: int| 0 <= i < clauses[j].len() && lit_value(values, #[trigger] clauses[j][i]) == Some(true);
        }
    }
    assert forall|j: int| !first_undefined(values, clauses, j) by {
        if first_undefined(values, clauses, j) {
            assert(clause_satisfied(values, clauses[j]));
        }
    }
}

/// The total assignment that agrees with `values` and gives `false` to every
/// variable that `values` leaves open.
pub open spec fn completed(values: Seq<Option<bool>>) -> Seq<bool> {
    Seq::new(
        values.len(),
        |i: int|
            match values[i] {
                Some(value) => value,
                None => false,
            },
    )
}

/// Whether the total assignment `model` gives every variable that `values`
/// has decided the value it has there.
pub open spec fn extends(model: Seq<bool>, values: Seq<Option<bool>>) -> bool {
    &&& model.len() == values.len()
    &&& forall|i: int| 0 <= i < values.len() && values[i] is Some ==> values[i] == Some(#[trigger] model[i])
}

/// The number of variables that `values` leaves without a value.
pub open spec fn free_count(values: Seq<Option<bool>>) -> nat
    decreases values.len(),
{
    if values.len() == 0 {
        0
    } else {
        free_count(values.drop_last()) + if values.last() is None {
            1nat
        } else {
            0nat
        }
    }
}

/// Giving one variable another value changes the number of free variables by
/// what that variable contributes before and after.
pub proof fn lemma_free_count_update(values: Seq<Option<bool>>, i: int, value: Option<bool>)
    requires
        0 <= i < values.len(),
    ensures
        free_count(values.update(i, value)) + (if values[i] is None {
            1nat
        } else {
            0nat
        }) == free_count(values) + (if value is None {
            1nat
        } else {
            0nat
        }),
        free_count(values) <= values.len(),
    decreases values.len(),
{
    let updated = values.update(i, value);
    if i == values.len() - 1 {
        assert(updated.drop_last() =~= values.drop_last());
        lemma_free_count_bound(values.drop_last());
    } else {
        assert(updated.drop_last() =~= values.drop_last().update(i, value));
        lemma_free_count_update(values.drop_last(), i, value);
    }
}

/// No more variables are free than there are variables.
pub proof fn lemma_free_count_bound(values: Seq<Option<bool>>)
    ensures
        free_count(values) <= values.len(),
    decreases values.len(),
{
    if values.len() > 0 {
        lemma_free_count_bound(values.drop_last());
    }
}

/// An assignment that extends a partial one makes true each clause that the
/// partial one satisfies, and makes false each clause that it falsifies.
pub proof fn lemma_extension_agrees(model: Seq<bool>, values: Seq<Option<bool>>, clause: Seq<Lit>)
    requires
        extends(model, values),
        clause_in_range(clause, values.len() as int),
    ensures
        clause_satisfied(values, clause) ==> clause_holds(model, clause),
        clause_falsified(values, clause) ==> !clause_holds(model, clause),
{
    if clause_satisfied(values, clause) {
        let i = choose|i: int| 0 <= i < clause.len() && lit_value(values, clause[i]) == Some(true);
        assert(clause[i].in_range(values.len() as int));
        assert(lit_holds(model, clause[i]));
    }
    if clause_falsified(values, clause) && clause_holds(model, clause) {
        let i = choose|i: int| 0 <= i < clause.len() && lit_holds(model, clause[i]);
        assert(clause[i].in_range(values.len() as int));
        assert(lit_value(values, clause[i]) == Some(false));
    }
}

/// The character that stands for the decimal digit `d`.
pub open spec fn digit(d: int) -> char {
    if d == 0 {
        '0'
    } else if d == 1 {
        '1'
    } else if d == 2 {
        '2'
    } else if d == 3 {
        '3'
    } else if d == 4 {
        '4'
    } else if d == 5 {
        '5'
    } else if d == 6 {
        '6'
    } else if d == 7 {
        '7'
    } else if d == 8 {
        '8'
    } else {
        '9'
    }
}

/// The decimal numeral for `n`, without leading zeros.
pub open spec fn decimal(n: nat) -> Seq<char>
    decreases n,
{
    if n < 10 {
        seq![digit(n as int)]
    } else {
        decimal(n / 10).push(digit((n % 10) as int))
    }
}

/// The text for the value of variable `var`: its number, with a minus sign
/// before it where the value is `false`, and a space behind it.
pub open spec fn entry_text(var: nat, value: bool) -> Seq<char> {
    (if value {
        Seq::<char>::empty()
    } else {
        seq!['-']
    }) + decimal(var) + seq![' ']
}

/// The entries for all variables of `model`, in ascending order.
pub open spec fn entries_text(model: Seq<bool>) -> Seq<char>
    decreases model.len(),
{
    if model.len() == 0 {
        Seq::<char>::empty()
    } else {
        entries_text(model.drop_last()) + entry_text(model.len(), model.last())
    }
}

/// The text for the assignment `model`: one signed number per variable, in
/// ascending order, and a closing `0`.
pub open spec fn assignment_text(model: Seq<bool>) -> Seq<char> {
    entries_text(model) + seq!['0']
}

/// The text for an outcome: `UNSAT`, or `SAT` and on the next line the text
/// for the assignment.
pub open spec fn solution_text(solution: Solution) -> Seq<char> {
    match solution {
        Solution::Sat(model) => seq!['S', 'A', 'T', '\n'] + assignment_text(model@),
        Solution::Unsat => seq!['U', 'N', 'S', 'A', 'T'],
    }
}

/// The one-character text for the decimal digit `d`.
fn digit_str(d: u64) -> (text: &'static str)
    requires
        d < 10,
    ensures
        text@ == seq![digit(d as int)],
{
    proof {
        reveal_strlit("0");
        reveal_strlit("1");
        reveal_strlit("2");
        reveal_strlit("3");
        reveal_strlit("4");
        reveal_strlit("5");
        reveal_strlit("6");
        reveal_strlit("7");
        reveal_strlit("8");
        reveal_strlit("9");
    }
    let text = if d == 0 {
        "0"
    } else if d == 1 {
        "1"
    } else if d == 2 {
        "2"
    } else if d == 3 {
        "3"
    } else if d == 4 {
        "4"
    } else if d == 5 {
        "5"
    } else if d == 6 {
        "6"
    } else if d == 7 {
        "7"
    } else if d == 8 {
        "8"
    } else {
        "9"
    };
    assert(text@ =~= seq![digit(d as int)]);
    text
}

/// Appends the decimal numeral for `n` to `out`.
fn push_decimal(out: &mut String, n: u64)
    ensures
        final(out)@ == old(out)@ + decimal(n as nat),
    decreases n,
{
    if n >= 10 {
        push_decimal(out, n / 10);
    }
    out.append(digit_str(n % 10));
    assert(out@ =~= old(out)@ + decimal(n as nat));
}

/// A total assignment to the variables of a formula.
#[derive(Debug)]
pub struct Assignment {
    assignment: Vec<bool>,
}

impl View for Assignment {
    type V = Seq<bool>;

    closed spec fn view(&self) -> Seq<bool> {
        self.assignment@
    }
}

impl Assignment {
    /// The number of variables.
    pub fn len(&self) -> (n: usize)
        ensures
            n == self@.len(),
    {
        self.assignment.len()
    }

    /// The value of each variable; that of variable `v` is at position `v - 1`.
    pub fn values(&self) -> (values: &Vec<bool>)
        ensures
            values@ == self@,
    {
        &self.assignment
    }

    /// The assignment as text: for each variable in ascending order its
    /// number, negative where the variable is false, then a closing `0`, all
    /// separated by single spaces.
    pub fn to_string(&self) -> (text: String)
        ensures
            text@ == assignment_text(self@),
    {
        let mut text = String::new();
        let mut i: usize = 0;
        while i < self.assignment.len()
            invariant
                i <= self.assignment@.len(),
                text@ == entries_text(self@.take(i as int)),
            decreases self.assignment@.len() - i,
        {
            let ghost so_far = text@;
            if !self.assignment[i] {
                text.append("-");
            }
            let ghost signed = text@;
            push_decimal(&mut text, i as u64 + 1);
            text.append(" ");
            proof {
                reveal_strlit("-");
                reveal_strlit(" ");
                assert(self@.take(i + 1).drop_last() =~= self@.take(i as int));
                assert(text@ =~= so_far + entry_text((i + 1) as nat, self@[i as int]));
            }
            i += 1;
        }
        text.append("0");
        proof {
            reveal_strlit("0");
            assert(self@.take(i as int) =~= self@);
            assert(text@ =~= assignment_text(self@));
        }
        text
    }
}

/// What solving a formula gives.
#[derive(Debug)]
pub enum Solution {
    /// The formula is true under the assignment.
    Sat(Assignment),
    /// No assignment makes the formula true.
    Unsat,
}

impl Solution {
    /// The assignment found, if one was found.
    pub open spec fn model(self) -> Option<Seq<bool>> {
        match self {
            Solution::Sat(model) => Some(model@),
            Solution::Unsat => None,
        }
    }

    /// The outcome as text: `UNSAT`, or `SAT` and on the next line the
    /// assignment.
    pub fn to_string(&self) -> (text: String)
        ensures
            text@ == solution_text(*self),
    {
        match self {
            Solution::Sat(model) => {
                let text = String::from_str("SAT\n").concat(model.to_string().as_str());
                proof {
                    reveal_strlit("SAT\n");
                    assert(text@ =~= solution_text(*self));
                }
                text
            },
            Solution::Unsat => {
                let text = String::from_str("UNSAT");
                proof {
                    reveal_strlit("UNSAT");
                    assert(text@ =~= solution_text(*self));
                }
                text
            },
        }
    }
}

/// The assignment that is being built while solving: each variable is
/// true, false, or not decided yet.
#[derive(Debug)]
pub struct PartialAssignment {
    assignment: Vec<Option<bool>>,
}

impl View for PartialAssignment {
    type V = Seq<Option<bool>>;

    closed spec fn view(&self) -> Seq<Option<bool>> {
        self.assignment@
    }
}

/// What a partial assignment makes of a formula.
#[derive(Debug)]
pub enum EvalResult {
    /// Every clause has a true literal.
    True,
    /// The clause has only false literals.
    False(Clause),
    /// No clause has only false literals; the clause has no true literal
    /// and one without a value.
    Undefined(Clause),
}

impl PartialAssignment {
    /// A partial assignment to `n_vars` variables that decides none of them.
    pub fn new(n_vars: usize) -> (fresh: PartialAssignment)
        ensures
            fresh@.len() == n_vars,
            forall|i: int| 0 <= i < n_vars ==> fresh@[i] is None,
    {
        let mut assignment: Vec<Option<bool>> = Vec::new();
        let mut i: usize = 0;
        while i < n_vars
            invariant
                i <= n_vars,
                assignment@.len() == i,
                forall|k: int| 0 <= k < i ==> assignment@[k] is None,
            decreases n_vars - i,
        {
            assignment.push(None);
            i += 1;
        }
        PartialAssignment { assignment }
    }

    /// The number of variables.
    pub fn len(&self) -> (n: usize)
        ensures
            n == self@.len(),
    {
        self.assignment.len()
    }

    /// The value of `lit`, if its variable has one.
    pub fn get(&self, lit: &Lit) -> (value: Option<bool>)
        requires
            lit.in_range(self@.len() as int),
        ensures
            value == lit_value(self@, *lit),
    {
        let n_vars: usize = self.assignment.len();
        match self.assignment[(lit.var - 1) as usize] {
            None => None,
            Some(variable_val) => Some(variable_val == lit.positive),
        }
    }

    /// Gives the variable of `lit` the value that makes `lit` true.
    pub fn set(&mut self, lit: &Lit)
        requires
            lit.in_range(old(self)@.len() as int),
        ensures
            final(self)@ == old(self)@.update(lit.index(), Some(lit.positive)),
    {
        let n_vars: usize = self.assignment.len();
        self.assignment.set((lit.var - 1) as usize, Some(lit.positive));
    }

    /// Leaves the variable of `lit` without a value.
    pub fn unset(&mut self, lit: &Lit)
        requires
            lit.in_range(old(self)@.len() as int),
        ensures
            final(self)@ == old(self)@.update(lit.index(), None),
    {
        let n_vars: usize = self.assignment.len();
        self.assignment.set((lit.var - 1) as usize, None);
    }

    /// The positions of all variables, in ascending order.
    pub fn variables(&self) -> (all: std::ops::Range<usize>)
        ensures
            all.start == 0,
            all.end == self@.len(),
    {
        0..self.assignment.len()
    }

    /// The positions of the variables without a value, in ascending order.
    pub fn free_variables(&self) -> (free: Vec<usize>)
        ensures
            forall|k: int| 0 <= k < free@.len() ==> (#[trigger] free@[k]) < self@.len() && self@[free@[k] as int] is None,
            forall|k: int, l: int| 0 <= k < l < free@.len() ==> free@[k] < free@[l],
            forall|i: int| 0 <= i < self@.len() && self@[i] is None ==> exists|k: int| 0 <= k < free@.len() && #[trigger] free@[k] == i,
    {
        let mut free: Vec<usize> = Vec::new();
        let mut ix: usize = 0;
        while ix < self.assignment.len()
            invariant
                ix <= self.assignment@.len(),
                forall|k: int| 0 <= k < free@.len() ==> (#[trigger] free@[k]) < ix && self@[free@[k] as int] is None,
                forall|k: int, l: int| 0 <= k < l < free@.len() ==> free@[k] < free@[l],
                forall|i: int| 0 <= i < ix && self@[i] is None ==> exists|k: int| 0 <= k < free@.len() && #[trigger] free@[k] == i,
            decreases self.assignment@.len() - ix,
        {
            if self.assignment[ix].is_none() {
                let ghost before = free@;
                free.push(ix);
                assert forall|i: int| 0 <= i < ix + 1 && self@[i] is None implies exists|k: int| 0 <= k < free@.len() && #[trigger] free@[k] == i by {
                    if i < ix {
                        let k = choose|k: int| 0 <= k < before.len() && #[trigger] before[k] == i;
                        assert(free@[k] == i);
                    } else {
                        assert(free@[before.len() as int] == i);
                    }
                }
            }
            ix += 1;
        }
        free
    }

    /// What the assignment makes of one clause: `Some(true)` where a literal
    /// is true, `Some(false)` where all are false, `None` otherwise.
    fn eval_clause(&self, clause: &Clause) -> (value: Option<bool>)
        requires
            clause_in_range(clause@, self@.len() as int),
        ensures
            value == Some(true) <==> clause_satisfied(self@, clause@),
            value == Some(false) <==> clause_falsified(self@, clause@),
    {
        let mut clause_res = Some(false);
        let mut i: usize = 0;
        while i < clause.len()
            invariant
                i <= clause@.len(),
                clause_in_range(clause@, self@.len() as int),
                clause_res != Some(true),
                forall|k: int| 0 <= k < i ==> lit_value(self@, #[trigger] clause@[k]) != Some(true),
                clause_res == Some(false) <==> forall|k: int| 0 <= k < i ==> lit_value(self@, #[trigger] clause@[k]) == Some(false),
            decreases clause@.len() - i,
        {
            let lit = clause.lit(i);
            assert(clause@[i as int].in_range(self@.len() as int));
            match self.get(&lit) {
                None => {
                    clause_res = None;
                },
                Some(true) => {
                    return Some(true);
                },
                Some(false) => {},
            }
            i += 1;
        }
        clause_res
    }

    /// Evaluates the clauses in order under the assignment.
    ///
    /// The first clause whose literals are all false decides the outcome;
    /// where there is none, the first clause that is undefined does; where
    /// there is none either, every clause is satisfied.
    pub fn eval(&self, clauses: &Vec<Clause>) -> (outcome: EvalResult)
        requires
            formula_in_range(clauses.deep_view(), self@.len() as int),
        ensures
            match outcome {
                EvalResult::True => {
                    &&& verdict(self@, clauses.deep_view()) is Satisfied
                    &&& forall|j: int| 0 <= j < clauses@.len() ==> clause_satisfied(self@, #[trigger] clauses.deep_view()[j])
                },
                EvalResult::False(clause) => {
                    &&& verdict(self@, clauses.deep_view()) is Falsified
                    &&& first_falsified(self@, clauses.deep_view(), verdict(self@, clauses.deep_view())->Falsified_0)
                    &&& clause@ == clauses.deep_view()[verdict(self@, clauses.deep_view())->Falsified_0]
                },
                EvalResult::Undefined(clause) => {
                    &&& verdict(self@, clauses.deep_view()) is Undefined
                    &&& forall|j: int| 0 <= j < clauses@.len() ==> !clause_falsified(self@, #[trigger] clauses.deep_view()[j])
                    &&& first_undefined(self@, clauses.deep_view(), verdict(self@, clauses.deep_view())->Undefined_0)
                    &&& clause@ == clauses.deep_view()[verdict(self@, clauses.deep_view())->Undefined_0]
                },
            },
    {
        let mut eval_result = EvalResult::True;
        let mut j: usize = 0;
        while j < clauses.len()
            invariant
                j <= clauses@.len(),
                formula_in_range(clauses.deep_view(), self@.len() as int),
                forall|k: int| 0 <= k < j ==> !clause_falsified(self@, #[trigger] clauses.deep_view()[k]),
                match eval_result {
                    EvalResult::True => forall|k: int| 0 <= k < j ==> clause_satisfied(self@, #[trigger] clauses.deep_view()[k]),
                    EvalResult::False(_) => false,
                    EvalResult::Undefined(clause) => exists|u: int| u < j && first_undefined(self@, clauses.deep_view(), u) && clause@ == clauses.deep_view()[u],
                },
            decreases clauses@.len() - j,
        {
            let clause = &clauses[j];
            assert(clause_in_range(clauses.deep_view()[j as int], self@.len() as int));
            match self.eval_clause(clause) {
                None => {
                    let should_overwrite = matches!(eval_result, EvalResult::True);
                    if should_overwrite {
                        eval_result = EvalResult::Undefined(clause.clone());
                        assert(first_undefined(self@, clauses.deep_view(), j as int));
                    }
                },
                Some(false) => {
                    proof {
                        lemma_verdict_falsified(self@, clauses.deep_view(), j as int);
                    }
                    return EvalResult::False(clause.clone());
                },
                Some(true) => {},
            }
            j += 1;
        }
        proof {
            match eval_result {
                EvalResult::Undefined(_) => {
                    let u = choose|u: int| first_undefined(self@, clauses.deep_view(), u) && eval_result->Undefined_0@ == clauses.deep_view()[u];
                    lemma_verdict_undefined(self@, clauses.deep_view(), u);
                },
                _ => {
                    lemma_verdict_satisfied(self@, clauses.deep_view());
                },
            }
        }
        eval_result
    }

    /// The total assignment that keeps every value decided so far and gives
    /// `false` to every variable without one.
    pub fn complete(&self) -> (total: Assignment)
        ensures
            total@ == completed(self@),
    {
        let mut assignment: Vec<bool> = Vec::new();
        let mut i: usize = 0;
        while i < self.assignment.len()
            invariant
                i <= self.assignment@.len(),
                assignment@.len() == i,
                forall|k: int| 0 <= k < i ==> assignment@[k] == completed(self@)[k],
            decreases self.assignment@.len() - i,
        {
            assignment.push(self.assignment[i].unwrap_or(false));
            i += 1;
        }
        assert(assignment@ =~= completed(self@));
        Assignment { assignment }
    }
}

/// The partial assignment that gives every variable the value it has in
/// `model`.
pub open spec fn decided(model: Seq<bool>) -> Seq<Option<bool>> {
    model.map_values(|value: bool| Some(value))
}

/// A formula holds under an assignment exactly when every clause of it
/// evaluates to true under that assignment.
pub proof fn lemma_holds_is_satisfied(model: Seq<bool>, clauses: Seq<Seq<Lit>>)
    requires
        formula_in_range(clauses, model.len() as int),
    ensures
        formula_holds(model, clauses) <==> verdict(decided(model), clauses) is Satisfied,
        formula_holds(model, clauses) <==> forall|j: int|
            0 <= j < clauses.len() ==> clause_satisfied(decided(model), #[trigger] clauses[j]),
{
    let values = decided(model);
    assert(extends(model, values));
    assert forall|j: int| 0 <= j < clauses.len() implies (clause_holds(model, clauses[j]) <==> clause_satisfied(
        values,
        #[trigger] clauses[j],
    )) by {
        let clause = clauses[j];
        lemma_extension_agrees(model, values, clause);
        if clause_holds(model, clause) {
            let i = choose|i: int| 0 <= i < clause.len() && lit_holds(model, clause[i]);
            assert(clause[i].in_range(model.len() as int));
            assert(lit_value(values, clause[i]) == Some(true));
        }
    }
    if formula_holds(model, clauses) {
        assert forall|j: int| 0 <= j < clauses.len() implies clause_satisfied(values, #[trigger] clauses[j]) by {
            assert(clause_holds(model, clauses[j]));
        }
        lemma_verdict_satisfied(values, clauses);
    }
    if verdict(values, clauses) is Satisfied {
        assert forall|j: int| 0 <= j < clauses.len() implies clause_holds(model, #[trigger] clauses[j]) by {
            let clause = clauses[j];
            if !clause_satisfied(values, clause) {
                if clause_falsified(values, clause) {
                    lemma_first_falsified_exists(values, clauses, j);
                } else {
                    lemma_first_undefined_exists(values, clauses, j);
                }
            }
        }
    }
    if forall|j: int| 0 <= j < clauses.len() ==> clause_satisfied(values, #[trigger] clauses[j]) {
        assert forall|j: int| 0 <= j < clauses.len() implies clause_holds(model, #[trigger] clauses[j]) by {
            assert(clause_satisfied(values, clauses[j]));
        }
    }
}

/// Where a clause is undefined, some clause is the first one undefined.
pub proof fn lemma_first_undefined_exists(values: Seq<Option<bool>>, clauses: Seq<Seq<Lit>>, j: int)
    requires
        0 <= j < clauses.len(),
        clause_undefined(values, clauses[j]),
    ensures
        exists|f: int| first_undefined(values, clauses, f),
    decreases j,
{
    if exists|k: int| 0 <= k < j && clause_undefined(values, #[trigger] clauses[k]) {
        let k = choose|k: int| 0 <= k < j && clause_undefined(values, #[trigger] clauses[k]);
        lemma_first_undefined_exists(values, clauses, k);
    } else {
        assert(first_undefined(values, clauses, j));
    }
}

/// Completing a partial assignment that satisfies every clause gives an
/// assignment under which the formula holds.
pub proof fn lemma_completed_holds(values: Seq<Option<bool>>, clauses: Seq<Seq<Lit>>)
    requires
        formula_in_range(clauses, values.len() as int),
        forall|j: int| 0 <= j < clauses.len() ==> clause_satisfied(values, #[trigger] clauses[j]),
    ensures
        extends(completed(values), values),
        formula_holds(completed(values), clauses),
{
    let model = completed(values);
    assert forall|j: int| 0 <= j < clauses.len() implies clause_holds(model, #[trigger] clauses[j]) by {
        lemma_extension_agrees(model, values, clauses[j]);
    }
}

} // verus!
