//! A conflict-driven clause-learning (CDCL) SAT solver over CNF formulas,
//! with the solver state, the clause bookkeeping and the DIMACS reader
//! verified against their contracts.
#![allow(non_snake_case)]

pub mod literal;
pub mod clause;
pub mod cdcl;
pub mod formula;
pub mod randomness;
pub mod messaging;
pub mod dimacs;
pub mod trail;
