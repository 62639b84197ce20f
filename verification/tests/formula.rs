use simple_solver::solver::cnf_ops::{negate_literal, resolve};
use simple_solver::solver::data_model::{EvalResult, PartialAssignment};
use simple_solver::solver::engines::branching::trivial::TrivialBranching;
use simple_solver::solver::engines::branching::vsids::branch_on_scores;
use simple_solver::solver::engines::branching::Branching;
use simple_solver::solver::formula::{formula_fits, formula_has_no_repeats, Clause, Lit};

fn clause(codes: &[i64]) -> Clause {
    Clause::from_vec(codes.iter().map(|&code| Lit::from_i64(code)).collect())
}

fn codes(clause: &Clause) -> Vec<i64> {
    clause
        .lits()
        .iter()
        .map(|lit| if lit.is_positive() { lit.var() as i64 } else { -(lit.var() as i64) })
        .collect()
}

fn assignment(values: &[Option<bool>]) -> PartialAssignment {
    let mut state = PartialAssignment::new(values.len());
    for (i, value) in values.iter().enumerate() {
        match value {
            Some(true) => state.set(&Lit::from_i64(i as i64 + 1)),
            Some(false) => state.set(&Lit::from_i64(-(i as i64 + 1))),
            None => {}
        }
    }
    state
}

#[test]
fn literal_from_signed_number() {
    let lit = Lit::from_i64(5);
    assert_eq!(lit.var(), 5);
    assert!(lit.is_positive());
    let lit = Lit::from_i64(-7);
    assert_eq!(lit.var(), 7);
    assert!(!lit.is_positive());
    assert_eq!(Lit::from_i64(i64::MIN).var(), 1u64 << 63);
    assert_eq!(Lit::from_i64(3), Lit { var: 3, positive: true });
    assert_ne!(Lit::from_i64(3), Lit::from_i64(-3));
}

#[test]
fn negation_flips_the_polarity_only() {
    assert_eq!(negate_literal(&Lit::from_i64(4)), Lit::from_i64(-4));
    assert_eq!(negate_literal(&Lit::from_i64(-4)), Lit::from_i64(4));
    let lit = Lit::from_i64(9);
    assert_eq!(negate_literal(&negate_literal(&lit)), lit);
    assert_eq!(negate_literal(&lit).var(), 9);
}

#[test]
fn clause_keeps_its_literals_in_order() {
    let c = clause(&[3, -1, 2, 3]);
    assert_eq!(c.len(), 4);
    assert_eq!(codes(&c), vec![3, -1, 2, 3]);
    assert_eq!(c.lit(1), Lit::from_i64(-1));
    assert!(c.contains(&Lit::from_i64(2)));
    assert!(!c.contains(&Lit::from_i64(-2)));
    assert_eq!(codes(&c.clone()), vec![3, -1, 2, 3]);
}

#[test]
fn resolve_joins_what_is_left_of_both_clauses() {
    let resolved = resolve(&clause(&[1, 2, 3]), &clause(&[-1, 4]), &Lit::from_i64(1));
    assert_eq!(codes(&resolved), vec![2, 3, 4]);
}

#[test]
fn resolve_takes_the_pivot_in_either_polarity() {
    let resolved = resolve(&clause(&[1, 2, 3]), &clause(&[-1, 4]), &Lit::from_i64(-1));
    assert_eq!(codes(&resolved), vec![2, 3, 4]);
    let resolved = resolve(&clause(&[-1, 4]), &clause(&[1, 2, 3]), &Lit::from_i64(1));
    assert_eq!(codes(&resolved), vec![4, 2, 3]);
}

#[test]
fn resolve_keeps_each_literal_once() {
    let resolved = resolve(&clause(&[2, 1, 3, 2]), &clause(&[3, -1, 2, 5]), &Lit::from_i64(1));
    assert_eq!(codes(&resolved), vec![2, 3, 5]);
}

#[test]
fn resolve_of_two_units_is_empty() {
    let resolved = resolve(&clause(&[1]), &clause(&[-1]), &Lit::from_i64(1));
    assert_eq!(resolved.len(), 0);
}

#[test]
fn resolvent_is_implied_and_free_of_the_pivot() {
    let lhs = clause(&[1, -2, 3]);
    let rhs = clause(&[2, 3, -4]);
    let resolved = resolve(&lhs, &rhs, &Lit::from_i64(2));
    assert!(!resolved.contains(&Lit::from_i64(2)));
    assert!(!resolved.contains(&Lit::from_i64(-2)));
    let true_under = |c: &Clause, bits: u32| {
        c.lits().iter().any(|l| (bits & (1 << (l.var() - 1)) != 0) == l.is_positive())
    };
    for bits in 0u32..16 {
        if true_under(&lhs, bits) && true_under(&rhs, bits) {
            assert!(true_under(&resolved, bits));
        }
    }
}

#[test]
fn fresh_assignment_decides_nothing() {
    let state = PartialAssignment::new(3);
    assert_eq!(state.len(), 3);
    for v in 1..4 {
        assert_eq!(state.get(&Lit::from_i64(v)), None);
        assert_eq!(state.get(&Lit::from_i64(-v)), None);
    }
    assert_eq!(state.variables(), 0..3);
    assert_eq!(state.free_variables(), vec![0, 1, 2]);
}

#[test]
fn set_makes_the_literal_true() {
    let mut state = PartialAssignment::new(2);
    state.set(&Lit::from_i64(-2));
    assert_eq!(state.get(&Lit::from_i64(-2)), Some(true));
    assert_eq!(state.get(&Lit::from_i64(2)), Some(false));
    assert_eq!(state.get(&Lit::from_i64(1)), None);
    state.set(&Lit::from_i64(2));
    assert_eq!(state.get(&Lit::from_i64(2)), Some(true));
    state.unset(&Lit::from_i64(-2));
    assert_eq!(state.get(&Lit::from_i64(2)), None);
}

#[test]
fn free_variables_come_in_ascending_order() {
    let state = assignment(&[None, Some(true), None, Some(false), None]);
    assert_eq!(state.free_variables(), vec![0, 2, 4]);
    assert_eq!(state.variables().count(), 5);
    let state = assignment(&[Some(true), Some(false)]);
    assert_eq!(state.free_variables(), Vec::<usize>::new());
}

#[test]
fn complete_gives_false_to_free_variables() {
    let state = assignment(&[None, Some(true), None, Some(false)]);
    let total = state.complete();
    assert_eq!(total.values(), &vec![false, true, false, false]);
    assert_eq!(total.len(), 4);
    assert_eq!(total.to_string(), "-1 2 -3 -4 0");
}

#[test]
fn assignment_text_counts_in_decimal() {
    let mut state = PartialAssignment::new(12);
    state.set(&Lit::from_i64(10));
    state.set(&Lit::from_i64(12));
    assert_eq!(state.complete().to_string(), "-1 -2 -3 -4 -5 -6 -7 -8 -9 10 -11 12 0");
    assert_eq!(PartialAssignment::new(0).complete().to_string(), "0");
}

#[test]
fn eval_is_true_when_every_clause_has_a_true_literal() {
    let state = assignment(&[Some(true), None, Some(false)]);
    let clauses = vec![clause(&[1, 2]), clause(&[2, -3]), clause(&[-3])];
    assert!(matches!(state.eval(&clauses), EvalResult::True));
    assert!(matches!(state.eval(&Vec::new()), EvalResult::True));
}

#[test]
fn eval_reports_the_first_falsified_clause() {
    let state = assignment(&[Some(true), None, Some(false)]);
    let clauses = vec![clause(&[2, 3]), clause(&[1]), clause(&[-1, 3]), clause(&[3])];
    match state.eval(&clauses) {
        EvalResult::False(c) => assert_eq!(codes(&c), vec![-1, 3]),
        _ => panic!("a clause is falsified"),
    }
}

#[test]
fn eval_reports_the_first_undefined_clause_when_none_is_falsified() {
    let state = assignment(&[Some(true), None, None]);
    let clauses = vec![clause(&[1]), clause(&[-1, 3]), clause(&[2, 3]), clause(&[2, 1])];
    match state.eval(&clauses) {
        EvalResult::Undefined(c) => assert_eq!(codes(&c), vec![-1, 3]),
        _ => panic!("a clause is undefined and none is falsified"),
    }
}

#[test]
fn eval_finds_a_true_literal_behind_an_open_one() {
    let state = assignment(&[None, Some(true)]);
    assert!(matches!(state.eval(&vec![clause(&[1, 2])]), EvalResult::True));
    assert!(matches!(state.eval(&vec![clause(&[1, -2])]), EvalResult::Undefined(_)));
}

#[test]
fn eval_falsifies_the_empty_clause() {
    let state = PartialAssignment::new(1);
    assert!(matches!(state.eval(&vec![clause(&[1]), clause(&[])]), EvalResult::False(_)));
}

#[test]
fn trivial_branching_takes_the_first_free_variable_negatively() {
    let mut brancher = TrivialBranching::new();
    brancher.reset(4);
    brancher.add_clause(&clause(&[4, 4, 4]));
    brancher.add_clauses(&[clause(&[3]), clause(&[3, 4])]);
    let state = assignment(&[Some(false), Some(true), None, None]);
    assert_eq!(brancher.branch(&state), Some(Lit::from_i64(-3)));
    assert_eq!(brancher.branch(&PartialAssignment::new(2)), Some(Lit::from_i64(-1)));
}

#[test]
fn trivial_branching_gives_none_without_free_variables() {
    let mut brancher = TrivialBranching::new();
    let state = assignment(&[Some(false), Some(true)]);
    assert_eq!(brancher.branch(&state), None);
    assert_eq!(brancher.branch(&PartialAssignment::new(0)), None);
}

#[test]
fn scores_choose_the_highest_free_variable() {
    let state = assignment(&[None, Some(true), None, None]);
    assert_eq!(branch_on_scores(&state, &vec![1, 9, 5, 3]), Some(Lit::from_i64(-3)));
    assert_eq!(branch_on_scores(&state, &vec![7, 9, 5, 3]), Some(Lit::from_i64(-1)));
    assert_eq!(branch_on_scores(&state, &vec![-7, 9, -5, -3]), Some(Lit::from_i64(-4)));
}

#[test]
fn scores_that_tie_choose_the_first_variable() {
    let state = assignment(&[Some(false), None, None, None]);
    assert_eq!(branch_on_scores(&state, &vec![0, 0, 0, 0]), Some(Lit::from_i64(-2)));
    assert_eq!(branch_on_scores(&state, &vec![8, 2, 6, 6]), Some(Lit::from_i64(-3)));
    assert_eq!(branch_on_scores(&state, &vec![8, 2, 6, 6, 100]), Some(Lit::from_i64(-3)));
}

#[test]
fn scores_choose_nothing_without_free_variables() {
    let state = assignment(&[Some(false), Some(true)]);
    assert_eq!(branch_on_scores(&state, &vec![4, 5]), None);
    assert_eq!(branch_on_scores(&PartialAssignment::new(0), &Vec::new()), None);
}

#[test]
fn formula_fits_its_variables() {
    let clauses = vec![clause(&[1, -3]), clause(&[]), clause(&[2])];
    assert!(formula_fits(&clauses, 3));
    assert!(formula_fits(&clauses, 4));
    assert!(!formula_fits(&clauses, 2));
    assert!(!formula_fits(&vec![clause(&[1, 0])], 3));
    assert!(formula_fits(&Vec::new(), 0));
}

#[test]
fn repeated_literals_are_found() {
    assert!(formula_has_no_repeats(&vec![clause(&[1, -1, 2]), clause(&[]), clause(&[3])]));
    assert!(!formula_has_no_repeats(&vec![clause(&[1, 2]), clause(&[3, -2, 3])]));
    assert!(!formula_has_no_repeats(&vec![clause(&[-1, -1])]));
    assert!(formula_has_no_repeats(&Vec::new()));
}
