//! A small library of competitive-programming utilities: a boolean
//! satisfiability solver with verified soundness and completeness, a
//! union-find structure, and modular-arithmetic helpers (fast modular
//! exponentiation, a fixed-modulus integer type, factorial tables).

pub mod disjoint_set;
pub mod modint;
pub mod sat;
