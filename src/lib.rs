//! An evaluator for an affine lambda calculus: every bound variable is used at
//! most once and every function value is applied at most once. Terms are
//! rewritten in place to a normal form; a variable is resolved through a
//! write-once slot that belongs to its abstraction.
//!
//! Two stores are offered. [`arraytree`] keeps every term in one vector
//! addressed by index, built either through explicit destinations
//! ([`arraytree::Program`]) or through closures ([`arraytree_lam::Program`]).
//! [`heaptree`] keeps a term as a tree and its slots in a table, [`Args`].

pub mod arraytree;
pub mod arraytree_lam;
pub mod heaptree;
pub mod heaptree_norc;

pub use heaptree::{eval, make_app, make_bas, make_lam, Args, EvalError, Expr, Lam, Ptr, ONE, UNIT, ZERO};
