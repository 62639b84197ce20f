use simple_solver::solver::engines::branching::trivial::TrivialBranching;
use simple_solver::solver::engines::cdcl::CdclSolver;
use simple_solver::solver::formula::{Clause, Lit};
use simple_solver::solver::reading::{numerals_fit_in, read_instance, ReadError, LONGEST_NUMERAL};
use simple_solver::solver::{solve_instance, Instance};

fn codes(clause: &Clause) -> Vec<i64> {
    clause
        .lits()
        .iter()
        .map(|lit| if lit.is_positive() { lit.var() as i64 } else { -(lit.var() as i64) })
        .collect()
}

#[test]
fn formula_in_cnf_is_read() {
    let text = "c a small formula\np cnf 3 2\n1 -3 0\n2 3 -1 0\n";
    match read_instance(text) {
        Ok(Instance::Cnf { num_vars, clauses }) => {
            assert_eq!(num_vars, 3);
            assert_eq!(clauses.len(), 2);
            assert_eq!(codes(&clauses[0]), vec![1, -3]);
            assert_eq!(codes(&clauses[1]), vec![2, 3, -1]);
            assert_eq!(clauses[0].lit(1), Lit { var: 3, positive: false });
        }
        _ => panic!("the text is a formula in conjunctive normal form"),
    }
}

#[test]
fn formula_with_an_empty_clause_is_read() {
    match read_instance("p cnf 1 2\n0\n1 0") {
        Ok(Instance::Cnf { num_vars, clauses }) => {
            assert_eq!(num_vars, 1);
            assert_eq!(clauses.len(), 2);
            assert_eq!(clauses[0].len(), 0);
            assert_eq!(codes(&clauses[1]), vec![1]);
        }
        _ => panic!("the text is a formula in conjunctive normal form"),
    }
}

#[test]
fn formula_in_the_nested_format_is_read_as_such() {
    assert!(matches!(read_instance("p sat 4\n(*(+(1 3 -4) +(4) +(2 3)))"), Ok(Instance::Sat)));
}

#[test]
fn malformed_text_is_not_read() {
    for text in ["", "p cnf", "p cnf 2 1\n1 x 0", "1 2 0", "p dnf 2 1\n1 2 0"] {
        match read_instance(text) {
            Err(ReadError::Malformed(words)) => {
                assert!(words.starts_with("Loc "));
                assert!(words.contains("error kind: "));
            }
            _ => panic!("the text is in neither format"),
        }
    }
}

#[test]
fn malformed_text_is_reported_with_place_and_kind() {
    match read_instance("p cnf 2 1\n1 x 0") {
        Err(ReadError::Malformed(words)) => {
            assert_eq!(words, "Loc Loc { line: 2, col: 3 }, error kind: NotParsedToEnd")
        }
        _ => panic!("the text is in neither format"),
    }
}

#[test]
fn long_numerals_are_not_read() {
    let longest = "1".repeat(LONGEST_NUMERAL);
    let too_long = "1".repeat(LONGEST_NUMERAL + 1);
    assert!(numerals_fit_in(&longest));
    assert!(!numerals_fit_in(&too_long));
    assert!(numerals_fit_in(""));
    assert!(numerals_fit_in(&format!("{} {}", longest, longest)));
    assert!(numerals_fit_in(&format!("{}-{}", longest, longest)));
    assert!(!numerals_fit_in(&format!("p cnf 1 1\n{} 0", too_long)));
    assert!(matches!(
        read_instance(&format!("p cnf 1 1\n{} 0", too_long)),
        Err(ReadError::NumeralTooLong)
    ));
    assert!(matches!(
        read_instance(&format!("p cnf {} 1\n1 0", too_long)),
        Err(ReadError::NumeralTooLong)
    ));
    match read_instance(&format!("p cnf {} 1\n-{} 0", longest, longest)) {
        Ok(Instance::Cnf { num_vars, clauses }) => {
            assert_eq!(num_vars, 111_111_111);
            assert_eq!(clauses[0].lit(0), Lit { var: 111_111_111, positive: false });
        }
        _ => panic!("the numerals are short enough"),
    }
}

#[test]
fn text_is_read_and_solved() {
    let instance = read_instance("p cnf 2 2\n1 2 0\n-1 0\n").unwrap();
    let mut engine = CdclSolver::new(TrivialBranching::new());
    assert_eq!(solve_instance(&mut engine, &instance).unwrap().to_string(), "SAT\n-1 2 0");
    let instance = read_instance("p cnf 1 2\n1 0\n-1 0\n").unwrap();
    assert_eq!(solve_instance(&mut engine, &instance).unwrap().to_string(), "UNSAT");
}
