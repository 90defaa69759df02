//! Propositional formulas in reverse-Polish notation: parsing into a tree,
//! evaluation, truth tables and satisfiability, negation and conjunctive
//! normal forms, and a reading of the same tree over finite sets.
pub mod ast;
pub mod nnf;
pub mod cnf;
pub mod parse;
pub mod table;
pub mod sets;
pub mod boole;
pub mod curve;
