//! Common items to import.
pub use crate::accept::{Accept, IterExt};
pub use crate::dfa::{DFABuilder, DFAStorage, DefaultDFAStorage, DFA};
pub use crate::error::Error;
