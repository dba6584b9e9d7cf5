//! A small filter-expression engine in the style of the jq query language.
//!
//! A *filter* consumes one structured value (null, boolean, number, string,
//! array, object) and produces a stream of zero, one, or many output values.
//! The crate provides the value model with its operators, the filter
//! representation with its catalog of builtin operations, a name-resolution
//! pass that turns symbolic calls into direct references, and a total,
//! demand- and fuel-bounded evaluator whose behaviour is pinned down by a
//! mathematical evaluation function.

pub mod val;
pub mod functions;
pub mod filter;
pub mod eval;
pub mod toplevel;
pub mod laws;
