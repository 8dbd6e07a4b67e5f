//! Exact-first symbolic calculus and descriptive statistics over exact
//! rational numbers.
//!
//! The library is organised as follows:
//!
//! - [`number`]: arbitrary-precision exact rationals (arithmetic delegated to
//!   `num-rational`), with a mathematical model of every operation.
//! - [`rational`]: the field laws of that model, and sums and products of
//!   lists of fractions.
//! - [`error`]: structured error codes, numeric modes, limits, and the
//!   cooperative work budget.
//! - [`expr`]: the restricted expression grammar and its mathematical view.
//! - [`text`]: string comparison.
//! - [`ast`]: constructors, validation, traversal, substitution, free
//!   variables.
//! - [`differentiate`], [`simplify`], [`evaluate`], [`print`], [`taylor`]:
//!   the symbolic layer; [`simplify_value`] proves that simplification keeps
//!   exact values.
//! - [`symbolic`]: the user-facing symbolic operations.
//! - [`stats`]: exact descriptive statistics.
//! - [`assumptions`]: the stated assumptions of inferential results.
//! - [`params`]: checks of request parameters.
pub mod number;
pub mod error;
pub mod expr;
pub mod text;
pub mod ast;
pub mod differentiate;
pub mod evaluate;
pub mod rational;
pub mod simplify;
pub mod simplify_value;
pub mod print;
pub mod taylor;
pub mod symbolic;
pub mod stats;
pub mod stratified;
pub mod assumptions;
pub mod params;
