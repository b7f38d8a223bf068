//! The tree evaluator with its slots held in an explicit table, [`Args`]:
//! the same items as [`crate::heaptree`].

pub use crate::heaptree::{eval, make_app, make_bas, make_lam, Args, EvalError, Expr, Lam, Ptr, ONE, UNIT, ZERO};
