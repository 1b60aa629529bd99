//! An eager, bit-blasting solver for quantifier-free bit-vector problems:
//! programs in a small s-expression language are parsed, blasted into
//! clauses in conjunctive normal form, and numbered for a SAT solver.  The
//! clauses of a program can be satisfied exactly when the program can.
pub mod vars;
pub mod cnf;
pub mod gates;
pub mod syntax;
pub mod check;
pub mod sat;
pub mod semantics;
pub mod laws;
pub mod soundness;
pub mod completeness;
pub mod bounds;
