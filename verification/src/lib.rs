//! A verified execution engine for a minimal line-oriented scripting dialect:
//! tokenization, label resolution, variable substitution, statement dispatch
//! and the program-counter loop, with an outside library evaluating the
//! arithmetic and boolean expressions.
pub mod chars;
pub mod engine;
pub mod evalx;
pub mod interp;
pub mod laws;
pub mod num;
pub mod store;
pub mod subst;
pub mod tokenize;
