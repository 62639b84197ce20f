use simple_solver::solver::data_model::{PartialAssignment, Solution};
use simple_solver::solver::engines::branching::trivial::TrivialBranching;
use simple_solver::solver::engines::branching::Branching;
use simple_solver::solver::engines::brute_force::BruteForceSolver;
use simple_solver::solver::engines::cdcl::CdclSolver;
use simple_solver::solver::formula::{Clause, Lit};
use simple_solver::solver::{solve_instance, Instance, Rejection, SatSolver};

fn clause(codes: &[i64]) -> Clause {
    Clause::from_vec(codes.iter().map(|&code| Lit::from_i64(code)).collect())
}

fn formula(clauses: &[&[i64]]) -> Vec<Clause> {
    clauses.iter().map(|codes| clause(codes)).collect()
}

fn holds(model: &[bool], clauses: &[Clause]) -> bool {
    clauses.iter().all(|c| {
        c.lits()
            .iter()
            .any(|lit| model[(lit.var() - 1) as usize] == lit.is_positive())
    })
}

fn satisfiable_by_enumeration(n_vars: usize, clauses: &[Clause]) -> bool {
    (0u32..(1u32 << n_vars)).any(|bits| {
        let model: Vec<bool> = (0..n_vars).map(|v| bits & (1 << v) != 0).collect();
        holds(&model, clauses)
    })
}

fn brute_force(n_vars: u64, clauses: &Vec<Clause>) -> Solution {
    BruteForceSolver::new(TrivialBranching::new()).solve(n_vars, clauses)
}

fn cdcl(n_vars: u64, clauses: &Vec<Clause>) -> Solution {
    CdclSolver::new(TrivialBranching::new()).solve(n_vars, clauses)
}

fn model_of(solution: &Solution) -> Option<Vec<bool>> {
    match solution {
        Solution::Sat(model) => Some(model.values().clone()),
        Solution::Unsat => None,
    }
}

/// A strategy that branches as the trivial one does and counts the decisions.
struct Counting {
    inner: TrivialBranching,
    decisions: std::rc::Rc<std::cell::Cell<u64>>,
}

impl Branching for Counting {
    fn reset(&mut self, n_vars: u64) {
        self.inner.reset(n_vars)
    }

    fn add_clause(&mut self, clause: &Clause) {
        self.inner.add_clause(clause)
    }

    fn branch(&mut self, state: &PartialAssignment) -> Option<Lit> {
        self.decisions.set(self.decisions.get() + 1);
        self.inner.branch(state)
    }
}

/// The clauses that say that `pigeons` pigeons sit in `holes` holes, no two
/// of them in one hole. Variable `p * holes + h + 1` puts pigeon `p` in hole `h`.
fn pigeonhole(pigeons: i64, holes: i64) -> (u64, Vec<Clause>) {
    let var = |p: i64, h: i64| p * holes + h + 1;
    let mut clauses = Vec::new();
    for p in 0..pigeons {
        clauses.push(Clause::from_vec(
            (0..holes).map(|h| Lit::from_i64(var(p, h))).collect(),
        ));
    }
    for h in 0..holes {
        for p in 0..pigeons {
            for q in (p + 1)..pigeons {
                clauses.push(clause(&[-var(p, h), -var(q, h)]));
            }
        }
    }
    ((pigeons * holes) as u64, clauses)
}

#[test]
fn unit_clause_is_satisfied_by_its_literal() {
    let clauses = formula(&[&[1]]);
    assert_eq!(model_of(&brute_force(1, &clauses)), Some(vec![true]));
    assert_eq!(model_of(&cdcl(1, &clauses)), Some(vec![true]));
    assert_eq!(cdcl(1, &clauses).to_string(), "SAT\n1 0");
}

#[test]
fn negative_unit_clause_is_satisfied_by_false() {
    let clauses = formula(&[&[-1]]);
    assert_eq!(model_of(&brute_force(1, &clauses)), Some(vec![false]));
    assert_eq!(model_of(&cdcl(1, &clauses)), Some(vec![false]));
}

#[test]
fn direct_contradiction_is_unsat() {
    let clauses = formula(&[&[1], &[-1]]);
    assert_eq!(model_of(&brute_force(1, &clauses)), None);
    assert_eq!(model_of(&cdcl(1, &clauses)), None);
    assert_eq!(cdcl(1, &clauses).to_string(), "UNSAT");
}

#[test]
fn direct_contradiction_needs_no_decision() {
    let decisions = std::rc::Rc::new(std::cell::Cell::new(0));
    let brancher = Counting { inner: TrivialBranching::new(), decisions: decisions.clone() };
    let clauses = formula(&[&[1], &[-1]]);
    let solution = CdclSolver::new(brancher).solve(1, &clauses);
    assert!(matches!(solution, Solution::Unsat));
    assert_eq!(decisions.get(), 0);
}

#[test]
fn exactly_one_of_two_is_true() {
    let clauses = formula(&[&[1, 2], &[-1, -2]]);
    for solution in [brute_force(2, &clauses), cdcl(2, &clauses)] {
        let model = model_of(&solution).unwrap();
        assert_eq!(model.len(), 2);
        assert!(model[0] != model[1]);
    }
}

#[test]
fn exactly_one_of_two_branches_false_first() {
    let clauses = formula(&[&[1, 2], &[-1, -2]]);
    assert_eq!(model_of(&brute_force(2, &clauses)), Some(vec![false, true]));
    assert_eq!(model_of(&cdcl(2, &clauses)), Some(vec![false, true]));
}

#[test]
fn two_items_in_one_hole_is_unsat() {
    let clauses = formula(&[&[1], &[2], &[-1, -2]]);
    assert_eq!(model_of(&brute_force(2, &clauses)), None);
    assert_eq!(model_of(&cdcl(2, &clauses)), None);
}

#[test]
fn pigeonhole_is_unsat_for_both_engines() {
    for holes in 1..4 {
        let (n_vars, clauses) = pigeonhole(holes + 1, holes);
        assert_eq!(model_of(&brute_force(n_vars, &clauses)), None);
        assert_eq!(model_of(&cdcl(n_vars, &clauses)), None);
    }
}

#[test]
fn pigeonhole_takes_cdcl_fewer_decisions() {
    let (n_vars, clauses) = pigeonhole(4, 3);
    let slow = std::rc::Rc::new(std::cell::Cell::new(0));
    let fast = std::rc::Rc::new(std::cell::Cell::new(0));
    let solution = BruteForceSolver::new(Counting { inner: TrivialBranching::new(), decisions: slow.clone() })
        .solve(n_vars, &clauses);
    assert!(matches!(solution, Solution::Unsat));
    let solution = CdclSolver::new(Counting { inner: TrivialBranching::new(), decisions: fast.clone() })
        .solve(n_vars, &clauses);
    assert!(matches!(solution, Solution::Unsat));
    assert!(fast.get() < slow.get());
}

#[test]
fn empty_formula_without_variables_is_sat() {
    let clauses: Vec<Clause> = Vec::new();
    for solution in [brute_force(0, &clauses), cdcl(0, &clauses)] {
        assert_eq!(model_of(&solution), Some(vec![]));
        assert_eq!(solution.to_string(), "SAT\n0");
    }
}

#[test]
fn empty_formula_leaves_every_variable_false() {
    let clauses: Vec<Clause> = Vec::new();
    assert_eq!(model_of(&brute_force(3, &clauses)), Some(vec![false, false, false]));
    assert_eq!(model_of(&cdcl(3, &clauses)), Some(vec![false, false, false]));
}

#[test]
fn empty_clause_is_unsat() {
    let clauses = formula(&[&[1, 2], &[]]);
    assert_eq!(model_of(&brute_force(2, &clauses)), None);
    assert_eq!(model_of(&cdcl(2, &clauses)), None);
}

#[test]
fn free_variables_of_a_model_are_reported_false() {
    let clauses = formula(&[&[-1, 3]]);
    assert_eq!(model_of(&brute_force(4, &clauses)), Some(vec![false, false, false, false]));
    assert_eq!(model_of(&cdcl(4, &clauses)), Some(vec![false, false, false, false]));
}

#[test]
fn brute_force_takes_repeated_literals() {
    let clauses = formula(&[&[1, 1], &[-2, -2, -2]]);
    assert_eq!(model_of(&brute_force(2, &clauses)), Some(vec![true, false]));
}

#[test]
fn propagation_chain_is_followed() {
    let clauses = formula(&[&[1], &[-1, 2], &[-2, 3], &[-3, 4]]);
    assert_eq!(model_of(&cdcl(4, &clauses)), Some(vec![true, true, true, true]));
    assert_eq!(model_of(&brute_force(4, &clauses)), Some(vec![true, true, true, true]));
}

#[test]
fn learned_clause_turns_the_search() {
    // Deciding 1 false forces 2 and 3 through the first two clauses and
    // falsifies the third; what is learned then forces 1.
    let clauses = formula(&[&[1, 2], &[1, 3], &[-2, -3, 1], &[-1, 4], &[-4, -5]]);
    let expected = Some(vec![true, false, false, true, false]);
    assert_eq!(model_of(&cdcl(5, &clauses)), expected);
    assert_eq!(model_of(&brute_force(5, &clauses)), expected);
}

#[test]
fn two_level_conflict_is_solved() {
    let clauses = formula(&[&[1, 2, 3], &[1, 2, 4], &[-3, -4, 5], &[-5, 6], &[-6, -3, 1]]);
    let solution = cdcl(6, &clauses);
    assert_eq!(solution.to_string(), "SAT\n-1 2 -3 -4 -5 -6 0");
    assert_eq!(brute_force(6, &clauses).to_string(), "SAT\n-1 2 -3 -4 -5 -6 0");
}

#[test]
fn conflict_with_several_literals_is_pinned() {
    let clauses = formula(&[
        &[1, 2, 3],
        &[1, 2, -3],
        &[1, -2, 4],
        &[1, -2, -4],
        &[-1, 5, 6],
        &[-1, 5, -6],
        &[-1, -5, 6],
    ]);
    let solution = cdcl(6, &clauses);
    assert_eq!(solution.to_string(), "SAT\n1 -2 -3 -4 5 6 0");
    assert!(holds(&model_of(&solution).unwrap(), &clauses));
}

#[test]
fn engines_agree_on_all_small_formulas() {
    // All formulas of up to three clauses over two variables, each clause a
    // set of literals.
    let literals = [1i64, -1, 2, -2];
    let all_clauses: Vec<Vec<i64>> = (0u32..16)
        .map(|bits| (0..4).filter(|i| bits & (1 << i) != 0).map(|i| literals[i]).collect())
        .collect();
    for a in 0..16 {
        for b in a..16 {
            for c in b..16 {
                let clauses: Vec<Clause> =
                    [a, b, c].iter().map(|&i| clause(&all_clauses[i])).collect();
                let expected = satisfiable_by_enumeration(2, &clauses);
                for solution in [brute_force(2, &clauses), cdcl(2, &clauses)] {
                    match model_of(&solution) {
                        Some(model) => {
                            assert!(expected);
                            assert_eq!(model.len(), 2);
                            assert!(holds(&model, &clauses));
                        }
                        None => assert!(!expected),
                    }
                }
            }
        }
    }
}

fn generated(seed: &mut u64, n_vars: u64, n_clauses: usize) -> Vec<Clause> {
    let mut next = || {
        *seed = seed.wrapping_mul(6364136223846793005).wrapping_add(1442695040888963407);
        *seed >> 33
    };
    let mut clauses = Vec::new();
    for _ in 0..n_clauses {
        let width = (1 + next() % 3).min(n_vars);
        let mut codes: Vec<i64> = Vec::new();
        while (codes.len() as u64) < width {
            let var = (1 + next() % n_vars) as i64;
            let code = if next() % 2 == 0 { var } else { -var };
            if !codes.contains(&code) {
                codes.push(code);
            }
        }
        clauses.push(clause(&codes));
    }
    clauses
}

#[test]
fn engines_agree_on_generated_formulas() {
    let mut seed = 7u64;
    for round in 0..3000 {
        let n_vars = 1 + (round % 7) as u64;
        let n_clauses = 1 + (round % 23) as usize;
        let clauses = generated(&mut seed, n_vars, n_clauses);
        let expected = satisfiable_by_enumeration(n_vars as usize, &clauses);
        for solution in [brute_force(n_vars, &clauses), cdcl(n_vars, &clauses)] {
            match model_of(&solution) {
                Some(model) => {
                    assert!(expected);
                    assert_eq!(model.len() as u64, n_vars);
                    assert!(holds(&model, &clauses));
                }
                None => assert!(!expected),
            }
        }
    }
}

#[test]
fn cdcl_decides_larger_generated_formulas() {
    let mut seed = 11u64;
    for _ in 0..200 {
        let clauses = generated(&mut seed, 12, 50);
        let expected = satisfiable_by_enumeration(12, &clauses);
        match model_of(&cdcl(12, &clauses)) {
            Some(model) => {
                assert!(expected);
                assert!(holds(&model, &clauses));
            }
            None => assert!(!expected),
        }
    }
}

#[test]
fn repeated_solving_gives_the_same_result() {
    let mut seed = 3u64;
    for _ in 0..200 {
        let clauses = generated(&mut seed, 6, 14);
        let mut engine = CdclSolver::new(TrivialBranching::new());
        let first = engine.solve(6, &clauses).to_string();
        let second = engine.solve(6, &clauses).to_string();
        assert_eq!(first, second);
        assert_eq!(first, cdcl(6, &clauses).to_string());
        let mut engine = BruteForceSolver::new(TrivialBranching::new());
        let first = engine.solve(6, &clauses).to_string();
        let second = engine.solve(6, &clauses).to_string();
        assert_eq!(first, second);
    }
}

#[test]
fn engine_can_be_used_again_for_another_formula() {
    let mut engine = CdclSolver::new(TrivialBranching::new());
    assert_eq!(model_of(&engine.solve(1, &formula(&[&[1], &[-1]]))), None);
    assert_eq!(model_of(&engine.solve(2, &formula(&[&[1, 2], &[-1]]))), Some(vec![false, true]));
    let mut engine = BruteForceSolver::new(TrivialBranching::new());
    assert_eq!(model_of(&engine.solve(1, &formula(&[&[1], &[-1]]))), None);
    assert_eq!(model_of(&engine.solve(2, &formula(&[&[1, 2], &[-1]]))), Some(vec![false, true]));
}

#[test]
fn instance_in_cnf_is_solved() {
    let instance = Instance::Cnf { num_vars: 2, clauses: formula(&[&[1, 2], &[-1]]) };
    let mut engine = CdclSolver::new(TrivialBranching::new());
    let solution = solve_instance(&mut engine, &instance).unwrap();
    assert_eq!(solution.to_string(), "SAT\n-1 2 0");
    let mut engine = BruteForceSolver::new(TrivialBranching::new());
    let instance = Instance::Cnf { num_vars: 1, clauses: formula(&[&[1], &[-1]]) };
    assert_eq!(solve_instance(&mut engine, &instance).unwrap().to_string(), "UNSAT");
}

#[test]
fn instance_in_the_nested_format_is_rejected() {
    let mut engine = CdclSolver::new(TrivialBranching::new());
    let rejection = solve_instance(&mut engine, &Instance::Sat).unwrap_err();
    assert_eq!(rejection, Rejection::NotCnf);
    assert_eq!(rejection.message(), "simple-solver does not support .sat instances");
    let mut engine = BruteForceSolver::new(TrivialBranching::new());
    assert!(solve_instance(&mut engine, &Instance::Sat).is_err());
}

#[test]
fn engines_take_what_they_can_solve() {
    let cdcl = CdclSolver::new(TrivialBranching::new());
    let brute_force = BruteForceSolver::new(TrivialBranching::new());
    let plain = formula(&[&[1, -2], &[2, 3]]);
    assert!(cdcl.takes(3, &plain));
    assert!(brute_force.takes(3, &plain));
    assert!(!cdcl.takes(2, &plain));
    assert!(!brute_force.takes(2, &plain));
    let repeating = formula(&[&[1, 1]]);
    assert!(!cdcl.takes(1, &repeating));
    assert!(brute_force.takes(1, &repeating));
    assert!(cdcl.takes(0, &Vec::new()));
}

/// A strategy that branches as the trivial one does and writes down what is
/// asked of it.
struct Recording {
    inner: TrivialBranching,
    calls: std::rc::Rc<std::cell::RefCell<Vec<String>>>,
}

impl Branching for Recording {
    fn reset(&mut self, n_vars: u64) {
        self.calls.borrow_mut().push(format!("reset {}", n_vars));
        self.inner.reset(n_vars)
    }

    fn add_clause(&mut self, clause: &Clause) {
        let codes: Vec<String> = clause
            .lits()
            .iter()
            .map(|lit| format!("{}{}", if lit.is_positive() { "" } else { "-" }, lit.var()))
            .collect();
        self.calls.borrow_mut().push(format!("add {}", codes.join(" ")));
        self.inner.add_clause(clause)
    }

    fn branch(&mut self, state: &PartialAssignment) -> Option<Lit> {
        self.calls.borrow_mut().push(format!("branch"));
        self.inner.branch(state)
    }
}

#[test]
fn brute_force_prepares_the_strategy_at_every_step() {
    let calls = std::rc::Rc::new(std::cell::RefCell::new(Vec::new()));
    let brancher = Recording { inner: TrivialBranching::new(), calls: calls.clone() };
    let solution = BruteForceSolver::new(brancher).solve(1, &formula(&[&[1]]));
    assert_eq!(solution.to_string(), "SAT\n1 0");
    assert_eq!(
        *calls.borrow(),
        vec!["reset 1", "add 1", "branch", "reset 1", "add 1", "reset 1", "add 1"]
    );
}

#[test]
fn brute_force_shows_the_clauses_in_order() {
    let calls = std::rc::Rc::new(std::cell::RefCell::new(Vec::new()));
    let brancher = Recording { inner: TrivialBranching::new(), calls: calls.clone() };
    let solution = BruteForceSolver::new(brancher).solve(2, &formula(&[&[-1, 2], &[-2], &[-1]]));
    assert_eq!(solution.to_string(), "SAT\n-1 -2 0");
    assert_eq!(
        *calls.borrow(),
        vec![
            "reset 2", "add -1 2", "add -2", "add -1", "branch", "reset 2", "add -1 2", "add -2",
            "add -1", "branch", "reset 2", "add -1 2", "add -2", "add -1",
        ]
    );
}

#[test]
fn cdcl_prepares_the_strategy_once_and_shows_it_what_it_learns() {
    let calls = std::rc::Rc::new(std::cell::RefCell::new(Vec::new()));
    let brancher = Recording { inner: TrivialBranching::new(), calls: calls.clone() };
    let solution = CdclSolver::new(brancher).solve(2, &formula(&[&[1, 2], &[1, -2]]));
    assert_eq!(solution.to_string(), "SAT\n1 -2 0");
    assert_eq!(*calls.borrow(), vec!["reset 2", "add 1 2", "add 1 -2", "branch", "add 1"]);
}

#[test]
fn cdcl_prepares_the_strategy_anew_for_every_formula() {
    let calls = std::rc::Rc::new(std::cell::RefCell::new(Vec::new()));
    let brancher = Recording { inner: TrivialBranching::new(), calls: calls.clone() };
    let mut engine = CdclSolver::new(brancher);
    engine.solve(1, &formula(&[&[1], &[-1]]));
    engine.solve(1, &formula(&[&[-1]]));
    assert_eq!(*calls.borrow(), vec!["reset 1", "add 1", "add -1", "reset 1", "add -1"]);
}

#[test]
fn rejected_instance_leaves_the_engine_alone() {
    let calls = std::rc::Rc::new(std::cell::RefCell::new(Vec::new()));
    let brancher = Recording { inner: TrivialBranching::new(), calls: calls.clone() };
    let mut engine = CdclSolver::new(brancher);
    engine.solve(2, &formula(&[&[1, 2], &[1, -2]]));
    let asked = calls.borrow().len();
    let clauses = engine.clause_count();
    let level = engine.decision_level();
    assert!(solve_instance(&mut engine, &Instance::Sat).is_err());
    assert_eq!(calls.borrow().len(), asked);
    assert_eq!(engine.clause_count(), clauses);
    assert_eq!(engine.decision_level(), level);
    assert_eq!(engine.assignment().len(), 2);
}
