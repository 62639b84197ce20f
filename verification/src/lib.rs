//! A propositional satisfiability solver for formulas in conjunctive normal
//! form, with a brute-force engine and a conflict-driven clause-learning
//! engine, both verified.

pub mod solver;
