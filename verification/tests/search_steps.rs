use simple_solver::solver::data_model::EvalResult;
use simple_solver::solver::engines::branching::trivial::TrivialBranching;
use simple_solver::solver::engines::cdcl::CdclSolver;
use simple_solver::solver::formula::{Clause, Lit};

fn clause(codes: &[i64]) -> Clause {
    Clause::from_vec(codes.iter().map(|&code| Lit::from_i64(code)).collect())
}

fn codes(clause: &Clause) -> Vec<i64> {
    clause
        .lits()
        .iter()
        .map(|lit| if lit.is_positive() { lit.var() as i64 } else { -(lit.var() as i64) })
        .collect()
}

fn values(engine: &CdclSolver<TrivialBranching>, n_vars: i64) -> Vec<Option<bool>> {
    (1..=n_vars).map(|v| engine.assignment().get(&Lit::from_i64(v))).collect()
}

/// Deciding 1 and 2 false forces 3, 4, 5 and 6 in turn and falsifies the
/// last clause.
fn two_level_conflict() -> Vec<Clause> {
    vec![
        clause(&[1, 2, 3]),
        clause(&[1, 2, 4]),
        clause(&[-3, -4, 5]),
        clause(&[-5, 6]),
        clause(&[-6, -3, 1]),
    ]
}

fn engine_at_conflict() -> CdclSolver<TrivialBranching> {
    let mut engine = CdclSolver::new(TrivialBranching::new());
    engine.reset(6, &two_level_conflict());
    engine.unit_propagate();
    engine.branch();
    engine.unit_propagate();
    engine.branch();
    engine.unit_propagate();
    engine
}

#[test]
fn fresh_engine_has_decided_nothing() {
    let mut engine = CdclSolver::new(TrivialBranching::new());
    assert_eq!(engine.decision_level(), 0);
    assert_eq!(engine.clause_count(), 0);
    assert_eq!(engine.assignment().len(), 0);
    engine.reset(6, &two_level_conflict());
    assert_eq!(engine.decision_level(), 0);
    assert_eq!(engine.clause_count(), 5);
    assert_eq!(codes(engine.clause(4)), vec![-6, -3, 1]);
    assert_eq!(values(&engine, 6), vec![None; 6]);
}

#[test]
fn propagation_stops_when_nothing_is_forced() {
    let mut engine = CdclSolver::new(TrivialBranching::new());
    engine.reset(6, &two_level_conflict());
    assert!(!engine.unit_propagate_step());
    engine.unit_propagate();
    assert_eq!(values(&engine, 6), vec![None; 6]);
}

#[test]
fn propagation_takes_the_first_forcing_clause_first() {
    let mut engine = CdclSolver::new(TrivialBranching::new());
    engine.reset(3, &vec![clause(&[1, 2]), clause(&[-3]), clause(&[3, 1]), clause(&[-1, 2])]);
    assert!(engine.unit_propagate_step());
    assert_eq!(values(&engine, 3), vec![None, None, Some(false)]);
    assert_eq!(engine.implication(&Lit::from_i64(-3)), Some(1));
    assert!(engine.unit_propagate_step());
    assert_eq!(values(&engine, 3), vec![Some(true), None, Some(false)]);
    assert_eq!(engine.implication(&Lit::from_i64(1)), Some(2));
    assert!(engine.unit_propagate_step());
    assert_eq!(values(&engine, 3), vec![Some(true), Some(true), Some(false)]);
    assert_eq!(engine.implication(&Lit::from_i64(2)), Some(3));
    assert!(!engine.unit_propagate_step());
    assert_eq!(engine.level_of(&Lit::from_i64(2)), Some(0));
}

#[test]
fn clause_with_two_open_literals_forces_nothing() {
    let mut engine = CdclSolver::new(TrivialBranching::new());
    engine.reset(3, &vec![clause(&[-1])]);
    engine.unit_propagate();
    assert_eq!(engine.unit_propagate_clause(&clause(&[1, 2, 3])), None);
    assert_eq!(engine.unit_propagate_clause(&clause(&[1, 2])), Some(Lit::from_i64(2)));
    assert_eq!(engine.unit_propagate_clause(&clause(&[2, 1])), Some(Lit::from_i64(2)));
    assert_eq!(engine.unit_propagate_clause(&clause(&[-1, 2])), None);
    assert_eq!(engine.unit_propagate_clause(&clause(&[1])), None);
    assert_eq!(engine.unit_propagate_clause(&clause(&[2, 2])), None);
}

#[test]
fn decisions_open_levels_and_implications_stay_on_them() {
    let mut engine = CdclSolver::new(TrivialBranching::new());
    engine.reset(6, &two_level_conflict());
    engine.unit_propagate();
    engine.branch();
    assert_eq!(engine.decision_level(), 1);
    assert_eq!(engine.level_of(&Lit::from_i64(-1)), Some(1));
    assert_eq!(engine.level_of(&Lit::from_i64(1)), None);
    assert_eq!(engine.implication(&Lit::from_i64(-1)), None);
    engine.unit_propagate();
    assert_eq!(values(&engine, 6), vec![Some(false), None, None, None, None, None]);
    engine.branch();
    engine.unit_propagate();
    assert_eq!(engine.decision_level(), 2);
    assert_eq!(
        values(&engine, 6),
        vec![Some(false), Some(false), Some(true), Some(true), Some(true), Some(true)]
    );
    for v in 2..7 {
        let lit = if v == 2 { Lit::from_i64(-2) } else { Lit::from_i64(v) };
        assert_eq!(engine.level_of(&lit), Some(2));
    }
    assert_eq!(engine.implication(&Lit::from_i64(-2)), None);
    assert_eq!(engine.implication(&Lit::from_i64(3)), Some(0));
    assert_eq!(engine.implication(&Lit::from_i64(4)), Some(1));
    assert_eq!(engine.implication(&Lit::from_i64(5)), Some(2));
    assert_eq!(engine.implication(&Lit::from_i64(6)), Some(3));
}

#[test]
fn analysis_of_a_conflict_with_several_literals_is_pinned() {
    let engine = engine_at_conflict();
    let conflict = match engine.assignment().eval(&two_level_conflict()) {
        EvalResult::False(clause) => clause,
        _ => panic!("the last clause is falsified"),
    };
    assert_eq!(codes(&conflict), vec![-6, -3, 1]);
    let learned = engine.analyze_conflict(conflict);
    assert_eq!(codes(&learned), vec![1, 2]);
    assert_eq!(engine.eval_decision_level(&learned), 1);
}

#[test]
fn analysis_of_a_conflict_on_one_level_ends_with_the_decision() {
    let formula = vec![
        clause(&[1, 2]),
        clause(&[1, 3]),
        clause(&[-2, -3, 4]),
        clause(&[-4, 5]),
        clause(&[-4, -5]),
    ];
    let mut engine = CdclSolver::new(TrivialBranching::new());
    engine.reset(5, &formula);
    engine.unit_propagate();
    engine.branch();
    engine.unit_propagate();
    let learned = engine.analyze_conflict(clause(&[-4, -5]));
    assert_eq!(codes(&learned), vec![1]);
    assert_eq!(engine.eval_decision_level(&learned), 0);
}

#[test]
fn jump_level_leaves_the_current_level_aside() {
    let engine = engine_at_conflict();
    assert_eq!(engine.eval_decision_level(&clause(&[1, 2])), 1);
    assert_eq!(engine.eval_decision_level(&clause(&[2, -3])), 0);
    assert_eq!(engine.eval_decision_level(&clause(&[-1, -2])), 0);
    assert_eq!(engine.eval_decision_level(&clause(&[])), 0);
}

#[test]
fn backjump_leaves_nothing_above_its_level() {
    let mut engine = engine_at_conflict();
    engine.backjump(1);
    assert_eq!(engine.decision_level(), 1);
    assert_eq!(values(&engine, 6), vec![Some(false), None, None, None, None, None]);
    assert_eq!(engine.level_of(&Lit::from_i64(-1)), Some(1));
    for v in 2..7 {
        for lit in [Lit::from_i64(v), Lit::from_i64(-v)] {
            assert_eq!(engine.level_of(&lit), None);
            assert_eq!(engine.implication(&lit), None);
        }
    }
    engine.backjump(0);
    assert_eq!(engine.decision_level(), 0);
    assert_eq!(values(&engine, 6), vec![None; 6]);
    assert_eq!(engine.level_of(&Lit::from_i64(-1)), None);
}

#[test]
fn backjump_keeps_what_is_at_its_level_or_below() {
    let mut engine = CdclSolver::new(TrivialBranching::new());
    engine.reset(4, &vec![clause(&[4]), clause(&[1, 2]), clause(&[2, 3])]);
    engine.unit_propagate();
    engine.branch();
    engine.unit_propagate();
    engine.branch();
    engine.unit_propagate();
    assert_eq!(values(&engine, 4), vec![Some(false), Some(true), Some(false), Some(true)]);
    engine.backjump(1);
    assert_eq!(values(&engine, 4), vec![Some(false), Some(true), None, Some(true)]);
    assert_eq!(engine.level_of(&Lit::from_i64(4)), Some(0));
    assert_eq!(engine.level_of(&Lit::from_i64(2)), Some(1));
    assert_eq!(engine.implication(&Lit::from_i64(2)), Some(1));
    assert_eq!(engine.implication(&Lit::from_i64(4)), Some(0));
}

#[test]
fn learned_clause_forces_a_literal_after_the_backjump() {
    let mut engine = engine_at_conflict();
    let learned = engine.analyze_conflict(clause(&[-6, -3, 1]));
    engine.learn(&learned);
    assert_eq!(engine.clause_count(), 6);
    assert_eq!(codes(engine.clause(5)), vec![1, 2]);
    let target = engine.eval_decision_level(&learned);
    engine.backjump(target);
    assert_eq!(engine.unit_propagate_clause(&learned), Some(Lit::from_i64(2)));
    engine.unit_propagate();
    assert_eq!(engine.level_of(&Lit::from_i64(2)), Some(1));
    assert_eq!(engine.implication(&Lit::from_i64(2)), Some(5));
    assert_eq!(values(&engine, 6), vec![Some(false), Some(true), None, None, None, None]);
}
