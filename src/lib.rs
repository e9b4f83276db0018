//! Deterministic finite automata over arbitrary symbol alphabets, with the
//! boolean operations of regular languages (union, intersection, difference
//! and complement) built by the cross-product construction.
pub mod accept;
pub mod alphabet;
pub mod dfa;
pub mod error;
pub mod prelude;
pub mod util;

pub use dfa::{DFABuilder, DFAStorage, DefaultDFAStorage, DFA};
pub use error::Error;
pub use util::Range;
