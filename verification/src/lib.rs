//! Verified logic of three procedural macros: a `Builder` derive, a `seq!`
//! repetition macro and a `#[sorted]` order check.
//!
//! The macros' inputs are given as plain models (token trees with span
//! handles, or the parts of a parsed item that the macros read); the results
//! say exactly what the macros generate or which error they report.
pub mod builder;
pub mod search;
pub mod seq_macro;
pub mod sorted_check;
pub mod text;
pub mod tokens;

