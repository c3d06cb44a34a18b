//! A DPLL SAT solver: unit propagation plus recursive case-split search over
//! literal polarity, on formulas in conjunctive normal form, proved to
//! return a satisfying assignment exactly when one exists.
//!
//! `logic` holds the mathematical model of formulas and of the `assign`
//! simplification, `semantics` their truth-functional meaning, and `laws`
//! the properties proved of the operations.  `dpll` and `solver` are the two
//! executable faces of the procedure, `cnf` the literal/clause value types,
//! `lexer` the input parsing, and `sort` the display ordering of a result.

pub mod cnf;
pub mod dpll;
pub mod laws;
pub mod lexer;
pub mod logic;
pub mod semantics;
pub mod solver;
pub mod sort;
