//! Part-of-speech driven parsing of a compact array language.
//!
//! The grammatical role of every name (noun, verb, adverb) is itself the
//! result of parsing another assignment, so parsing a block interleaves name
//! resolution with shift-reduce rewriting.
//!
//! - [`reducer`] rewrites a stack of tagged expressions by a fixed table of rules.
//! - [`frame`] and [`parsnip`] parse one expression: a machine over a stack of
//!   frames that stops at every name and goes on when it is told the part of
//!   speech of the name.
//! - [`scope`], [`schedule`] and [`block`] parse the assignments of a block
//!   together: a parse waits for the bindings that it refers to, and the block
//!   ends with its expression, with a name that it must be told, with a
//!   failure, or with a cycle.
//! - [`census`] and [`soundness`] say what a schedule keeps of a scope.
//! - [`laws`], [`flat`], [`propagation`] and [`cycles`] hold what follows for
//!   the library as a whole.
//!
//! Every executable type has a model over sequences, and every contract
//! says what a function does to the models.

pub mod pos;
pub mod expression;
pub mod terms;
pub mod error;
pub mod reducer;
pub mod frame;
pub mod parsnip;
pub mod scope;
pub mod schedule;
pub mod census;
pub mod soundness;
pub mod block;
pub mod laws;
pub mod flat;
pub mod propagation;
pub mod cycles;
