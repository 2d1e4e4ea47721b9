//! An interval constraint propagator for arithmetic and comparison
//! expression trees.
//!
//! Given an expression built from columns, literals, the arithmetic
//! operators `+` and `-`, the comparisons `>` and `<`, and conjunction,
//! the solver computes a bottom-up bound for every sub-expression from
//! known leaf ranges, and then tightens the leaf ranges top-down so they
//! stay consistent with the root predicate being satisfiable.
#![verifier::loop_isolation(false)]

pub mod cp_solver;
pub mod errors;
pub mod expr;
pub mod file_type;
pub mod interval;
pub mod scalar;
