//! Compilation of lambda-calculus terms into interaction nets.
//!
//! A term is encoded into a net of binary nodes whose free ports are tied
//! together by named wires. The encoding is checked for vicious cycles:
//! a node placed inside its own subtree disappears from the net, and the
//! encoding is then refused.

pub mod names;
pub mod fun;
pub mod hvm;
pub mod arena;
mod encode;
pub mod labels;
pub mod compile;
pub mod diagnostics;

pub use compile::{ViciousCycleErr, book_to_hvm, term_to_hvm};
pub use labels::{LabelGenerator, Labels};
