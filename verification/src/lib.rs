//! A small satisfiability toolkit: a reference-counted Boolean expression
//! arena with a fixed-width word layer on top, and a DPLL-style SAT search
//! over CNF clauses read from DIMACS text.

pub mod arith;
pub mod bits;
pub mod cnf;
pub mod dimacs;
pub mod formula;
pub mod logic;
pub mod solver;
pub mod word;
