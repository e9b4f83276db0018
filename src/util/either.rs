use vstd::prelude::*;

verus! {

/// A value of one of two types.
#[derive(Debug, Copy, Clone, PartialEq, Eq, PartialOrd, Ord, Hash)]
pub enum Either<L, R> {
    /// A value of the first type.
    Left(L),
    /// A value of the second type.
    Right(R),
}

} // verus!
