//! A pattern-driven string generator.
//!
//! A compact textual pattern expression (for example `c:2:4-v-{d-%AB}`) is
//! compiled into a tree of generator nodes, and the tree is then evaluated
//! against a seeded pseudo-random source to produce concrete strings.

pub mod charset;
pub mod node;
pub mod rng;
pub mod engine;
pub mod grammar;
pub mod laws;
pub mod parser;
