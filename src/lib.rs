//! A satisfiability solver for Boolean formulas in conjunctive normal form,
//! using unit propagation and case splits with backtracking (DPLL).

pub mod cnf;
pub mod simplifier;
pub mod solver;
