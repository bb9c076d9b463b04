//! Deterministic, exactly decomposable gradient boosting with depth-limited
//! oblivious trees: the verified core.
//!
//! Everything in this crate is a rule, a data structure or an algorithm over
//! plain values. Floating-point numbers are held by their bit patterns
//! ([`float::F32`], [`float::F64`]), which is enough to compare, validate, order,
//! copy and write them; arithmetic on them is left to the caller.
pub mod backend;
pub mod boosters;
pub mod cat;
pub mod cell_refit;
pub mod constraints;
pub mod data;
pub mod digits;
pub mod draw;
pub mod engine;
pub mod error;
pub mod float;
pub mod labels;
pub mod raws;
pub mod seed_laws;
pub mod shown;
pub mod sort;
pub mod text;
pub mod values;
