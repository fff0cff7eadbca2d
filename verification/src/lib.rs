//! Live match highlighting for an interactive regular-expression tester.
//!
//! The crate keeps a compiled matcher consistent with the pattern text the
//! user is typing, and partitions a body of text into matched and plain runs
//! that reproduce the body exactly.

pub mod mode;
pub mod engine;
pub mod text;
pub mod span;
pub mod scan;
pub mod runs;
pub mod highlight;
pub mod validator;
