use crate::alphabet::Alphabet;
use crate::dfa::{DFAStorage, DFA};
use vstd::prelude::*;

verus! {

/// Objects that can decide whether or not a string belongs to the language
/// they represent.
pub trait Accept {
    /// The type of symbols in the strings.
    type Symbol;

    /// Return `true` if the given string is member of the language represented
    /// by this object.
    fn accept(self, string: Vec<Self::Symbol>) -> bool;
}

/// Strings of symbols that can be tested against an acceptor.
pub trait IterExt: Sized {
    /// The type of symbols in the string.
    type Item;

    /// Return `true` if this string is a member of the language represented
    /// by the given object.
    fn is_accepted<M: Accept<Symbol = Self::Item>>(self, state_machine: M) -> bool;
}

impl<T> IterExt for Vec<T> {
    type Item = T;

    fn is_accepted<M: Accept<Symbol = T>>(self, state_machine: M) -> bool {
        state_machine.accept(self)
    }
}

impl<'a, A: Alphabet, S: DFAStorage<A>> Accept for &'a DFA<A, S> {
    type Symbol = A::Symbol;

    fn accept(self, string: Vec<A::Symbol>) -> bool {
        DFA::accept(self, string.as_slice())
    }
}

} // verus!
