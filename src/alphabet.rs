use crate::util::{Bounded, Range, Step};
use core::marker::PhantomData;
use vstd::prelude::*;

verus! {

/// A finite set of symbols.
///
/// Members are numbered densely: each member has an index below `spec_len()`,
/// and no two members share an index. Automata key their transitions by that
/// index.
pub trait Alphabet: Sized {
    /// The type of elements in this set.
    type Symbol;

    /// Membership of a symbol in the set.
    spec fn spec_contains(&self, sym: Self::Symbol) -> bool;

    /// Index of a member; meaningful for members only.
    spec fn spec_index(&self, sym: Self::Symbol) -> int;

    /// Number of members.
    spec fn spec_len(&self) -> nat;

    /// The index of a member lies below the number of members, and members
    /// with equal indices are equal.
    proof fn lemma_index(&self, a: Self::Symbol, b: Self::Symbol)
        requires
            self.spec_contains(a),
        ensures
            0 <= self.spec_index(a) < self.spec_len(),
            self.spec_contains(b) && self.spec_index(a) == self.spec_index(b) ==> a == b,
    ;

    /// Return all members, each exactly once, in the order of their indices.
    fn values(&self) -> (r: Vec<Self::Symbol>)
        requires
            self.spec_len() <= usize::MAX,
        ensures
            r@.len() == self.spec_len(),
            forall|i: int|
                0 <= i < r@.len() ==> self.spec_contains(#[trigger] r@[i]) && self.spec_index(r@[i])
                    == i,
    ;

    /// Return `true` if the given symbol is a member of this alphabet.
    fn contains(&self, sym: &Self::Symbol) -> (r: bool)
        ensures
            r == self.spec_contains(*sym),
    ;

    /// Return the index of a member, or `None` for a symbol that is not a
    /// member or whose index does not fit in a `usize`.
    fn index_of(&self, sym: &Self::Symbol) -> (r: Option<usize>)
        ensures
            r is Some <==> self.spec_contains(*sym) && self.spec_index(*sym) <= usize::MAX,
            r matches Some(i) ==> i == self.spec_index(*sym),
    ;

    /// Return the number of members, or `None` if it would overflow a `usize`.
    fn num_values(&self) -> (r: Option<usize>)
        ensures
            r == (if self.spec_len() <= usize::MAX {
                Some(self.spec_len() as usize)
            } else {
                None
            }),
    ;

    /// Return `true` if both alphabets are the same value.
    fn same_alphabet(&self, other: &Self) -> (r: bool)
        ensures
            r == (*self == *other),
    ;

    /// Return a copy of this alphabet.
    fn duplicate(&self) -> (r: Self)
        ensures
            r == *self,
    ;
}

impl<V: Step> Alphabet for Range<V> {
    type Symbol = V;

    open spec fn spec_contains(&self, sym: V) -> bool {
        self.has(sym)
    }

    open spec fn spec_index(&self, sym: V) -> int {
        match *self {
            Range::NonEmpty { start, end } => sym.ordinal() - start.ordinal(),
            Range::Empty => 0,
        }
    }

    open spec fn spec_len(&self) -> nat {
        self.count()
    }

    proof fn lemma_index(&self, a: V, b: V) {
        V::lemma_ordinal(a, b);
    }

    fn values(&self) -> (r: Vec<V>) {
        let mut out: Vec<V> = Vec::new();
        match *self {
            Range::NonEmpty { start, end } => {
                let n = match Alphabet::num_values(self) {
                    Some(n) => n,
                    None => 0,
                };
                let mut cur = start;
                let mut k: usize = 0;
                while k < n
                    invariant
                        n == self.spec_len(),
                        *self == (Range::NonEmpty { start, end }),
                        k <= n,
                        out@.len() == k,
                        k < n ==> cur.ordinal() == start.ordinal() + k,
                        forall|i: int|
                            0 <= i < k ==> (#[trigger] out@[i]).ordinal() == start.ordinal() + i,
                    decreases n - k,
                {
                    proof {
                        V::lemma_ordinal(end, end);
                    }
                    out.push(cur);
                    if k + 1 < n {
                        cur = cur.successor();
                    }
                    k = k + 1;
                }
            },
            Range::Empty => {},
        }
        out
    }

    fn contains(&self, sym: &V) -> (r: bool) {
        Range::<V>::contains(self, *sym)
    }

    fn index_of(&self, sym: &V) -> (r: Option<usize>) {
        match *self {
            Range::NonEmpty { start, end } => {
                if Range::<V>::contains(self, *sym) {
                    V::steps_between(&start, sym)
                } else {
                    None
                }
            },
            Range::Empty => None,
        }
    }

    fn num_values(&self) -> (r: Option<usize>) {
        match *self {
            Range::NonEmpty { start, end } => {
                if !start.at_most(&end) {
                    Some(0)
                } else {
                    match V::steps_between(&start, &end) {
                        Some(d) => d.checked_add(1),
                        None => None,
                    }
                }
            },
            Range::Empty => Some(0),
        }
    }

    fn same_alphabet(&self, other: &Self) -> (r: bool) {
        match (*self, *other) {
            (Range::NonEmpty { start: s1, end: e1 }, Range::NonEmpty { start: s2, end: e2 }) => {
                s1.same(&s2) && e1.same(&e2)
            },
            (Range::Empty, Range::Empty) => true,
            _ => false,
        }
    }

    fn duplicate(&self) -> (r: Self) {
        *self
    }
}

/// Conversion into an alphabet.
pub trait IntoAlphabet {
    /// The type of symbols in the alphabet.
    type Symbol;

    /// The type of alphabet we are turning this into.
    type IntoAlpha: Alphabet<Symbol = Self::Symbol>;

    /// The alphabet that this value stands for.
    spec fn spec_into_alphabet(self) -> Self::IntoAlpha;

    /// Create an alphabet from this value.
    fn into_alphabet(self) -> (r: Self::IntoAlpha)
        ensures
            r == self.spec_into_alphabet(),
    ;
}

impl<V: Step> IntoAlphabet for Range<V> {
    type Symbol = V;

    type IntoAlpha = Range<V>;

    open spec fn spec_into_alphabet(self) -> Range<V> {
        self
    }

    fn into_alphabet(self) -> (r: Range<V>) {
        self
    }
}

/// A value which can be turned into an alphabet which has all valid instances
/// of `Sym` as members.
pub struct Full<Sym: Step>(PhantomData<Sym>);

impl<Sym: Step> Full<Sym> {
    /// The marker for the alphabet of all values of `Sym`.
    pub fn new() -> (r: Self) {
        Full(PhantomData)
    }
}

impl<Sym: Step + Bounded> IntoAlphabet for Full<Sym> {
    type Symbol = Sym;

    type IntoAlpha = Range<Sym>;

    open spec fn spec_into_alphabet(self) -> Range<Sym> {
        Range::NonEmpty {
            start: choose|s: Sym| #[trigger] s.ordinal() == Sym::ordinal_min(),
            end: choose|s: Sym| #[trigger] s.ordinal() == Sym::ordinal_max(),
        }
    }

    fn into_alphabet(self) -> (r: Range<Sym>) {
        let start = Sym::min_value();
        let end = Sym::max_value();
        proof {
            let s0 = choose|s: Sym| #[trigger] s.ordinal() == Sym::ordinal_min();
            let e0 = choose|s: Sym| #[trigger] s.ordinal() == Sym::ordinal_max();
            Sym::lemma_ordinal(start, s0);
            Sym::lemma_ordinal(end, e0);
        }
        Range::NonEmpty { start, end }
    }
}

/// Gives `RangeInclusive::start` a contract: it returns the lower bound the
/// range was built with.
pub assume_specification<Idx>[ core::ops::RangeInclusive::<Idx>::start ](
    r: &core::ops::RangeInclusive<Idx>,
) -> (s: &Idx)
    ensures
        *s == r@.start,
;

/// Gives `RangeInclusive::end` a contract: it returns the upper bound the
/// range was built with.
pub assume_specification<Idx>[ core::ops::RangeInclusive::<Idx>::end ](
    r: &core::ops::RangeInclusive<Idx>,
) -> (e: &Idx)
    ensures
        *e == r@.end,
;

impl<Sym: Step> IntoAlphabet for core::ops::RangeInclusive<Sym> {
    type Symbol = Sym;

    type IntoAlpha = Range<Sym>;

    open spec fn spec_into_alphabet(self) -> Range<Sym> {
        Range::NonEmpty { start: self@.start, end: self@.end }
    }

    fn into_alphabet(self) -> (r: Range<Sym>) {
        Range::NonEmpty { start: *self.start(), end: *self.end() }
    }
}

impl<Sym: Step> IntoAlphabet for core::ops::Range<Sym> {
    type Symbol = Sym;

    type IntoAlpha = Range<Sym>;

    /// The members of `start..end`: empty where no value comes before `end`.
    open spec fn spec_into_alphabet(self) -> Range<Sym> {
        if self.end.ordinal() > Sym::ordinal_min() {
            Range::NonEmpty {
                start: self.start,
                end: choose|s: Sym| #[trigger] s.ordinal() == self.end.ordinal() - 1,
            }
        } else {
            Range::Empty
        }
    }

    fn into_alphabet(self) -> (r: Range<Sym>) {
        match self.end.backward(1) {
            Some(last) => {
                proof {
                    let e0 = choose|s: Sym| #[trigger] s.ordinal() == self.end.ordinal() - 1;
                    Sym::lemma_ordinal(last, e0);
                }
                Range::NonEmpty { start: self.start, end: last }
            },
            None => Range::Empty,
        }
    }
}

} // verus!
