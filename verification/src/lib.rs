//! Core of a small bit-vector satisfiability engine: a propositional
//! formula algebra with De Morgan normalization and CNF conversion,
//! a bit-blasting encoder for fixed-width bit-vector terms, and a
//! solver front-end that drives an external SAT engine.
pub mod cnf;
pub mod expr;
pub mod logic;
pub mod solver;
