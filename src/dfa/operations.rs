use crate::alphabet::Alphabet;
use crate::dfa::{storage_closed, DFAStorage, DFA};
use crate::error::Error;
use crate::util::VecSet;
use core::marker::PhantomData;
use vstd::prelude::*;

verus! {

/// The state of the product automaton that stands for the pair of state `i`
/// of the left automaton and state `j` of the right one, whose number of
/// states is `m`.
pub open spec fn pair_state(i: int, j: int, m: int) -> int {
    i * m + j
}

proof fn lemma_pair_bound(i: int, j: int, n: int, m: int)
    requires
        0 <= i < n,
        0 <= j < m,
    ensures
        0 <= pair_state(i, j, m) < n * m,
{
    assert(i * m + j < n * m) by (nonlinear_arith)
        requires
            0 <= i < n,
            0 <= j < m,
    ;
    assert(0 <= i * m) by (nonlinear_arith)
        requires
            0 <= i,
            0 <= m,
    ;
}

proof fn lemma_pair_injective(i: int, j: int, i2: int, j2: int, m: int)
    requires
        0 <= i,
        0 <= i2,
        0 <= j < m,
        0 <= j2 < m,
        pair_state(i, j, m) == pair_state(i2, j2, m),
    ensures
        i == i2,
        j == j2,
{
    if i < i2 {
        assert(i * m + m <= i2 * m) by (nonlinear_arith)
            requires
                i < i2,
                0 <= m,
        ;
    } else if i2 < i {
        assert(i2 * m + m <= i * m) by (nonlinear_arith)
            requires
                i2 < i,
                0 <= m,
        ;
    }
}

/// The transitions of `st` are those of the cross product of `l` and `r`:
/// its states are the pairs of their states, and a pair steps on a symbol
/// to the pair of the states each side steps to.
pub open spec fn product_storage<A: Alphabet, SL: DFAStorage<A>, SR: DFAStorage<A>, SN: DFAStorage<
    A,
>>(st: SN, l: DFA<A, SL>, r: DFA<A, SR>) -> bool {
    let m = r.num_states() as int;
    &&& storage_closed(st)
    &&& st.spec_alphabet() == l.spec_alphabet()
    &&& st.spec_num_states() == l.num_states() * r.num_states()
    &&& l.num_states() * r.num_states() <= usize::MAX
    &&& forall|i: int, j: int, s: A::Symbol|
        0 <= i < l.num_states() && 0 <= j < m && l.spec_alphabet().spec_contains(s) ==> #[trigger]
            st.spec_transition(pair_state(i, j, m) as usize, s) == Some(
            pair_state(
                l.spec_storage().spec_transition(i as usize, s).unwrap() as int,
                r.spec_storage().spec_transition(j as usize, s).unwrap() as int,
                m,
            ) as usize,
        )
}

/// The start and dead states of a product of `l` and `r`.
pub open spec fn product_start_dead<A: Alphabet, SL: DFAStorage<A>, SR: DFAStorage<A>>(
    l: DFA<A, SL>,
    r: DFA<A, SR>,
    start: usize,
    dead: Option<usize>,
) -> bool {
    let m = r.num_states() as int;
    &&& start == pair_state(l.spec_start() as int, r.spec_start() as int, m)
    &&& dead == match (l.spec_dead(), r.spec_dead()) {
        (Some(a), Some(b)) => Some(pair_state(a as int, b as int, m) as usize),
        _ => None,
    }
}

/// The boolean operations that a product automaton can carry out.
pub enum Combine {
    /// Accept where both accept.
    Intersection,
    /// Accept where either accepts.
    Union,
    /// Accept where the left accepts and the right does not.
    Difference,
}

impl Combine {
    /// The truth table of the operation.
    pub open spec fn apply(self, a: bool, b: bool) -> bool {
        match self {
            Combine::Intersection => a && b,
            Combine::Union => a || b,
            Combine::Difference => a && !b,
        }
    }
}

/// `p` is the product of `l` and `r` whose accepting pairs are chosen by `op`.
pub open spec fn is_product<A: Alphabet, SL: DFAStorage<A>, SR: DFAStorage<A>, SN: DFAStorage<A>>(
    p: DFA<A, SN>,
    l: DFA<A, SL>,
    r: DFA<A, SR>,
    op: Combine,
) -> bool {
    let m = r.num_states() as int;
    &&& p.wf()
    &&& product_storage(p.spec_storage(), l, r)
    &&& product_start_dead(l, r, p.spec_start(), p.spec_dead())
    &&& forall|i: int, j: int|
        0 <= i < l.num_states() && 0 <= j < m ==> (#[trigger] p.spec_accept().contains(
            pair_state(i, j, m) as usize,
        ) <==> op.apply(
            l.spec_accept().contains(i as usize),
            r.spec_accept().contains(j as usize),
        ))
}

/// The outcome of combining `l` and `r` by `op`: the alphabets must be equal
/// and both automata total.
pub open spec fn product_outcome<A: Alphabet, SL: DFAStorage<A>, SR: DFAStorage<A>, SN: DFAStorage<
    A,
>>(l: DFA<A, SL>, r: DFA<A, SR>, res: Result<DFA<A, SN>, Error>, op: Combine) -> bool {
    if l.spec_alphabet() != r.spec_alphabet() {
        res == Err::<DFA<A, SN>, Error>(Error::OperationWithNonEqualAlphabets)
    } else if !(l.is_total() && r.is_total()) {
        res == Err::<DFA<A, SN>, Error>(Error::StateNotFound)
    } else {
        res matches Ok(p) && is_product(p, l, r, op)
    }
}

/// Build the states and transitions of the cross product of the two given
/// DFAs, with its start and dead states, without accepting states.
fn cross_product_construction_without_accept_states<
    A: Alphabet,
    SL: DFAStorage<A>,
    SR: DFAStorage<A>,
    SN: DFAStorage<A>,
>(left: &DFA<A, SL>, right: &DFA<A, SR>) -> (res: Result<(usize, Option<usize>, SN), Error>)
    requires
        left.wf(),
        right.wf(),
        left.num_states() * right.num_states() <= usize::MAX,
        left.spec_alphabet().spec_len() <= usize::MAX,
    ensures
        left.spec_alphabet() != right.spec_alphabet() ==> res == Err::<
            (usize, Option<usize>, SN),
            Error,
        >(Error::OperationWithNonEqualAlphabets),
        left.spec_alphabet() == right.spec_alphabet() && !(left.is_total() && right.is_total())
            ==> res == Err::<(usize, Option<usize>, SN), Error>(Error::StateNotFound),
        left.spec_alphabet() == right.spec_alphabet() && left.is_total() && right.is_total()
            ==> res is Ok,
        res matches Ok((start, dead, st)) ==> {
            &&& product_storage(st, *left, *right)
            &&& product_start_dead(*left, *right, start, dead)
            &&& start < st.spec_num_states()
            &&& dead matches Some(d) ==> d < st.spec_num_states()
        },
{
    if !left.storage().alphabet().same_alphabet(right.storage().alphabet()) {
        return Err(Error::OperationWithNonEqualAlphabets);
    }
    let ghost alph = left.spec_alphabet();
    let alphabet = left.storage().alphabet().duplicate();
    let mut st = SN::from_alphabet(alphabet);
    let nl = left.storage().all_states().len();
    let m = right.storage().all_states().len();
    let ghost ll = *left;
    let ghost rr = *right;
    let total = nl * m;
    let mut q: usize = 0;
    while q < total
        invariant
            q <= total,
            total == nl * m,
            st.wf(),
            st.spec_num_states() == q,
            st.spec_alphabet() == alph,
            forall|q2: usize, s: A::Symbol| #[trigger] st.spec_transition(q2, s) is None,
        decreases total - q,
    {
        st.add_state();
        q = q + 1;
    }
    let mut i: usize = 0;
    while i < nl
        invariant
            left.wf(),
            right.wf(),
            *left == ll,
            *right == rr,
            alph == left.spec_alphabet(),
            alph == right.spec_alphabet(),
            alph.spec_len() <= usize::MAX,
            nl == left.num_states(),
            m == right.num_states(),
            total == nl * m,
            i <= nl,
            st.wf(),
            st.spec_num_states() == total,
            st.spec_alphabet() == alph,
            forall|q2: usize, s: A::Symbol| #[trigger]
                st.spec_transition(q2, s) is Some ==> {
                    &&& q2 < total
                    &&& alph.spec_contains(s)
                    &&& st.spec_transition(q2, s).unwrap() < total
                },
            forall|i2: int, j2: int, s: A::Symbol|
                0 <= i2 < nl && 0 <= j2 < m ==> #[trigger] st.spec_transition(
                    pair_state(i2, j2, m as int) as usize,
                    s,
                ) == if i2 < i && alph.spec_contains(s) {
                    Some(
                        pair_state(
                            left.spec_storage().spec_transition(i2 as usize, s).unwrap() as int,
                            right.spec_storage().spec_transition(j2 as usize, s).unwrap() as int,
                            m as int,
                        ) as usize,
                    )
                } else {
                    None
                },
            forall|i2: int, j2: int, s: A::Symbol|
                0 <= i2 < i && 0 <= j2 < m && alph.spec_contains(s) ==> (
                #[trigger] left.spec_storage().spec_transition(i2 as usize, s)) is Some && (
                #[trigger] right.spec_storage().spec_transition(j2 as usize, s)) is Some,
        decreases nl - i,
    {
        let mut j: usize = 0;
        while j < m
            invariant
                left.wf(),
                right.wf(),
                *left == ll,
                *right == rr,
                alph == left.spec_alphabet(),
                alph == right.spec_alphabet(),
                alph.spec_len() <= usize::MAX,
                nl == left.num_states(),
                m == right.num_states(),
                total == nl * m,
                i < nl,
                j <= m,
                st.wf(),
                st.spec_num_states() == total,
                st.spec_alphabet() == alph,
                forall|q2: usize, s: A::Symbol| #[trigger]
                    st.spec_transition(q2, s) is Some ==> {
                        &&& q2 < total
                        &&& alph.spec_contains(s)
                        &&& st.spec_transition(q2, s).unwrap() < total
                    },
                forall|i2: int, j2: int, s: A::Symbol|
                    0 <= i2 < nl && 0 <= j2 < m ==> #[trigger] st.spec_transition(
                        pair_state(i2, j2, m as int) as usize,
                        s,
                    ) == if (i2 < i || (i2 == i && j2 < j)) && alph.spec_contains(s) {
                        Some(
                            pair_state(
                                left.spec_storage().spec_transition(i2 as usize, s).unwrap() as int,
                                right.spec_storage().spec_transition(j2 as usize, s).unwrap() as int,
                                m as int,
                            ) as usize,
                        )
                    } else {
                        None
                    },
                forall|i2: int, j2: int, s: A::Symbol|
                    0 <= i2 < nl && 0 <= j2 < m && (i2 < i || (i2 == i && j2 < j))
                        && alph.spec_contains(s) ==> (#[trigger] left.spec_storage().spec_transition(
                        i2 as usize,
                        s,
                    )) is Some && (#[trigger] right.spec_storage().spec_transition(
                        j2 as usize,
                        s,
                    )) is Some,
            decreases m - j,
        {
            proof {
                lemma_pair_bound(i as int, j as int, nl as int, m as int);
            }
            let cur = i * m + j;
            let mut vals = st.alphabet().values();
            assert forall|s: A::Symbol| alph.spec_contains(s) implies #[trigger] alph.spec_index(s)
                < vals@.len() by {
                alph.lemma_index(s, s);
            };
            while vals.len() > 0
                invariant
                    left.wf(),
                    right.wf(),
                    *left == ll,
                    *right == rr,
                    alph == left.spec_alphabet(),
                    alph == right.spec_alphabet(),
                    nl == left.num_states(),
                    m == right.num_states(),
                    total == nl * m,
                    i < nl,
                    j < m,
                    cur == pair_state(i as int, j as int, m as int),
                    cur < total,
                    st.wf(),
                    st.spec_num_states() == total,
                    st.spec_alphabet() == alph,
                    vals@.len() <= alph.spec_len(),
                    forall|x: int|
                        0 <= x < vals@.len() ==> alph.spec_contains(#[trigger] vals@[x])
                            && alph.spec_index(vals@[x]) == x,
                    forall|q2: usize, s: A::Symbol| #[trigger]
                        st.spec_transition(q2, s) is Some ==> {
                            &&& q2 < total
                            &&& alph.spec_contains(s)
                            &&& st.spec_transition(q2, s).unwrap() < total
                        },
                    forall|i2: int, j2: int, s: A::Symbol|
                        0 <= i2 < nl && 0 <= j2 < m ==> #[trigger] st.spec_transition(
                            pair_state(i2, j2, m as int) as usize,
                            s,
                        ) == if ((i2 < i || (i2 == i && j2 < j)) || (i2 == i && j2 == j
                            && alph.spec_index(s) >= vals@.len())) && alph.spec_contains(s) {
                            Some(
                                pair_state(
                                    left.spec_storage().spec_transition(i2 as usize, s).unwrap() as int,
                                    right.spec_storage().spec_transition(j2 as usize, s).unwrap() as int,
                                    m as int,
                                ) as usize,
                            )
                        } else {
                            None
                        },
                    forall|i2: int, j2: int, s: A::Symbol|
                        0 <= i2 < nl && 0 <= j2 < m && ((i2 < i || (i2 == i && j2 < j)) || (i2
                            == i && j2 == j && alph.spec_index(s) >= vals@.len()))
                            && alph.spec_contains(s) ==> (
                        #[trigger] left.spec_storage().spec_transition(i2 as usize, s)) is Some && (
                        #[trigger] right.spec_storage().spec_transition(j2 as usize, s)) is Some,
                decreases vals@.len(),
            {
                let sym = vals.pop().unwrap();
                let ghost kx = vals@.len() as int;
                let tl = match left.storage().transition(i, &sym) {
                    Some(t) => t,
                    None => {
                        return Err(Error::StateNotFound);
                    },
                };
                let tr = match right.storage().transition(j, &sym) {
                    Some(t) => t,
                    None => {
                        return Err(Error::StateNotFound);
                    },
                };
                proof {
                    lemma_pair_bound(tl as int, tr as int, nl as int, m as int);
                }
                let target = tl * m + tr;
                let ghost before = st;
                st.add_transition(cur, sym, target);
                assert forall|i2: int, j2: int, s: A::Symbol|
                    0 <= i2 < nl && 0 <= j2 < m implies #[trigger] st.spec_transition(
                    pair_state(i2, j2, m as int) as usize,
                    s,
                ) == if ((i2 < i || (i2 == i && j2 < j)) || (i2 == i && j2 == j
                    && alph.spec_index(s) >= vals@.len())) && alph.spec_contains(s) {
                    Some(
                        pair_state(
                            left.spec_storage().spec_transition(i2 as usize, s).unwrap() as int,
                            right.spec_storage().spec_transition(j2 as usize, s).unwrap() as int,
                            m as int,
                        ) as usize,
                    )
                } else {
                    None
                } by {
                    lemma_pair_bound(i2, j2, nl as int, m as int);
                    if pair_state(i2, j2, m as int) == cur as int {
                        lemma_pair_injective(i2, j2, i as int, j as int, m as int);
                    }
                    if alph.spec_contains(s) {
                        alph.lemma_index(s, sym);
                    }
                };
                assert forall|i2: int, j2: int, s: A::Symbol|
                    0 <= i2 < nl && 0 <= j2 < m && ((i2 < i || (i2 == i && j2 < j)) || (i2 == i
                        && j2 == j && alph.spec_index(s) >= vals@.len())) && alph.spec_contains(
                        s,
                    ) implies (#[trigger] left.spec_storage().spec_transition(i2 as usize, s)) is Some
                    && (#[trigger] right.spec_storage().spec_transition(j2 as usize, s)) is Some by {
                    if i2 == i && j2 == j && alph.spec_index(s) == vals@.len() {
                        alph.lemma_index(s, sym);
                    }
                };
            }
            assert forall|s: A::Symbol| alph.spec_contains(s) implies #[trigger] alph.spec_index(s)
                >= vals@.len() by {
                alph.lemma_index(s, s);
            };
            j = j + 1;
        }
        i = i + 1;
    }
    proof {
        lemma_pair_bound(left.spec_start() as int, right.spec_start() as int, nl as int, m as int);
    }
    let start = *left.start_state() * m + *right.start_state();
    let dead = match (left.dead_state(), right.dead_state()) {
        (Some(a), Some(b)) => {
            proof {
                lemma_pair_bound(*a as int, *b as int, nl as int, m as int);
            }
            Some(*a * m + *b)
        },
        _ => None,
    };
    assert(left.spec_start() < nl && right.spec_start() < m);
    assert forall|i2: int, s: A::Symbol|
        0 <= i2 < nl && alph.spec_contains(s) implies (#[trigger] left.spec_storage().spec_transition(
        i2 as usize,
        s,
    )) is Some by {
        assert(right.spec_storage().spec_transition(0int as usize, s) is Some);
    };
    assert forall|j2: int, s: A::Symbol|
        0 <= j2 < m && alph.spec_contains(s) implies (#[trigger] right.spec_storage().spec_transition(
        j2 as usize,
        s,
    )) is Some by {
        assert(left.spec_storage().spec_transition(0int as usize, s) is Some);
    };
    assert(left.is_total()) by {
        assert forall|q2: usize, s: A::Symbol|
            q2 < nl && alph.spec_contains(s) implies (#[trigger] left.spec_storage().spec_transition(
            q2,
            s,
        )) is Some by {
            assert(left.spec_storage().spec_transition((q2 as int) as usize, s) is Some);
        };
    };
    assert(right.is_total()) by {
        assert forall|q2: usize, s: A::Symbol|
            q2 < m && alph.spec_contains(s) implies (#[trigger] right.spec_storage().spec_transition(
            q2,
            s,
        )) is Some by {
            assert(right.spec_storage().spec_transition((q2 as int) as usize, s) is Some);
        };
    };
    Ok((start, dead, st))
}


impl Combine {
    /// Evaluate the truth table of the operation.
    pub fn eval(&self, a: bool, b: bool) -> (r: bool)
        ensures
            r == self.apply(a, b),
    {
        match self {
            Combine::Intersection => a && b,
            Combine::Union => a || b,
            Combine::Difference => a && !b,
        }
    }
}

/// The accepting states of the product of the two given DFAs: the pairs
/// whose sides `op` combines to `true`.
fn product_accept<A: Alphabet, SL: DFAStorage<A>, SR: DFAStorage<A>>(
    left: &DFA<A, SL>,
    right: &DFA<A, SR>,
    op: &Combine,
) -> (r: VecSet)
    requires
        left.wf(),
        right.wf(),
        left.num_states() * right.num_states() <= usize::MAX,
    ensures
        r.wf(),
        forall|q: usize| #[trigger] r@.contains(q) ==> q < left.num_states() * right.num_states(),
        forall|i: int, j: int|
            0 <= i < left.num_states() && 0 <= j < right.num_states() ==> (#[trigger] r@.contains(
                pair_state(i, j, right.num_states() as int) as usize,
            ) <==> op.apply(
                left.spec_accept().contains(i as usize),
                right.spec_accept().contains(j as usize),
            )),
{
    let nl = left.storage().all_states().len();
    let m = right.storage().all_states().len();
    let la = left.accept_set();
    let ra = right.accept_set();
    let mut r = VecSet::new();
    let mut i: usize = 0;
    while i < nl
        invariant
            nl == left.num_states(),
            m == right.num_states(),
            nl * m <= usize::MAX,
            i <= nl,
            r.wf(),
            la.wf(),
            ra.wf(),
            la@ == left.spec_accept(),
            ra@ == right.spec_accept(),
            forall|q: usize| #[trigger] r@.contains(q) ==> q < nl * m,
            forall|i2: int, j2: int|
                0 <= i2 < nl && 0 <= j2 < m ==> (#[trigger] r@.contains(
                    pair_state(i2, j2, m as int) as usize,
                ) <==> i2 < i && op.apply(la@.contains(i2 as usize), ra@.contains(j2 as usize))),
        decreases nl - i,
    {
        let mut j: usize = 0;
        while j < m
            invariant
                nl == left.num_states(),
                m == right.num_states(),
                nl * m <= usize::MAX,
                i < nl,
                j <= m,
                r.wf(),
                la.wf(),
                ra.wf(),
                forall|q: usize| #[trigger] r@.contains(q) ==> q < nl * m,
                forall|i2: int, j2: int|
                    0 <= i2 < nl && 0 <= j2 < m ==> (#[trigger] r@.contains(
                        pair_state(i2, j2, m as int) as usize,
                    ) <==> (i2 < i || (i2 == i && j2 < j)) && op.apply(
                        la@.contains(i2 as usize),
                        ra@.contains(j2 as usize),
                    )),
            decreases m - j,
        {
            proof {
                lemma_pair_bound(i as int, j as int, nl as int, m as int);
            }
            if op.eval(la.contains(&i), ra.contains(&j)) {
                r.insert(i * m + j);
            }
            assert forall|i2: int, j2: int|
                0 <= i2 < nl && 0 <= j2 < m implies (#[trigger] r@.contains(
                pair_state(i2, j2, m as int) as usize,
            ) <==> (i2 < i || (i2 == i && j2 < j + 1)) && op.apply(
                la@.contains(i2 as usize),
                ra@.contains(j2 as usize),
            )) by {
                lemma_pair_bound(i2, j2, nl as int, m as int);
                if pair_state(i2, j2, m as int) == pair_state(i as int, j as int, m as int) {
                    lemma_pair_injective(i2, j2, i as int, j as int, m as int);
                }
            };
            j = j + 1;
        }
        i = i + 1;
    }
    r
}

/// Combine two DFAs by the product construction, accepting by `op`.
fn combine<A: Alphabet, SL: DFAStorage<A>, SR: DFAStorage<A>, SN: DFAStorage<A>>(
    left: &DFA<A, SL>,
    right: &DFA<A, SR>,
    op: Combine,
) -> (r: Result<DFA<A, SN>, Error>)
    requires
        left.wf(),
        right.wf(),
        left.num_states() * right.num_states() <= usize::MAX,
        left.spec_alphabet().spec_len() <= usize::MAX,
    ensures
        product_outcome(*left, *right, r, op),
{
    let (new_start, new_dead, new_storage) =
        cross_product_construction_without_accept_states::<A, SL, SR, SN>(left, right)?;
    let new_accept = product_accept(left, right, &op);
    Ok(DFA::from_parts(new_start, new_dead, new_accept, new_storage))
}

impl<A: Alphabet, S: DFAStorage<A>> DFA<A, S> {
    /// Construct a new DFA that accepts the intersection of the languages of
    /// this DFA and another DFA.
    ///
    /// Fails with `OperationWithNonEqualAlphabets` where the alphabets
    /// differ, and with `StateNotFound` where either DFA lacks a transition
    /// from some state on some symbol.
    pub fn intersection<S2: DFAStorage<A>, S3: DFAStorage<A>>(&self, other: &DFA<A, S2>) -> (r:
        Result<DFA<A, S3>, Error>)
        requires
            self.num_states() * other.num_states() <= usize::MAX,
            self.spec_alphabet().spec_len() <= usize::MAX,
        ensures
            self.wf(),
            other.wf(),
            product_outcome(*self, *other, r, Combine::Intersection),
    {
        proof {
            use_type_invariant(self);
            use_type_invariant(other);
        }
        combine(self, other, Combine::Intersection)
    }

    /// Construct a new DFA that accepts the union of the languages of this
    /// DFA and another DFA.
    ///
    /// Fails as `intersection` does.
    pub fn union<S2: DFAStorage<A>, S3: DFAStorage<A>>(&self, other: &DFA<A, S2>) -> (r: Result<
        DFA<A, S3>,
        Error,
    >)
        requires
            self.num_states() * other.num_states() <= usize::MAX,
            self.spec_alphabet().spec_len() <= usize::MAX,
        ensures
            self.wf(),
            other.wf(),
            product_outcome(*self, *other, r, Combine::Union),
    {
        proof {
            use_type_invariant(self);
            use_type_invariant(other);
        }
        combine(self, other, Combine::Union)
    }

    /// Construct a new DFA that accepts the strings of this DFA's language
    /// that are not in the language of another DFA.
    ///
    /// Fails as `intersection` does.
    pub fn difference<S2: DFAStorage<A>, S3: DFAStorage<A>>(&self, other: &DFA<A, S2>) -> (r:
        Result<DFA<A, S3>, Error>)
        requires
            self.num_states() * other.num_states() <= usize::MAX,
            self.spec_alphabet().spec_len() <= usize::MAX,
        ensures
            self.wf(),
            other.wf(),
            product_outcome(*self, *other, r, Combine::Difference),
    {
        proof {
            use_type_invariant(self);
            use_type_invariant(other);
        }
        combine(self, other, Combine::Difference)
    }

    /// Construct a new DFA with the same transitions whose accepting states
    /// are exactly the states that are not accepting here.
    ///
    /// On a total DFA this accepts the complement language among strings of
    /// the alphabet; a string that meets a missing transition is rejected by
    /// both.
    pub fn complement(&self) -> (r: Self)
        ensures
            self.wf(),
            is_complement(r, *self),
    {
        proof {
            use_type_invariant(self);
        }
        let states = self.storage().all_states();
        let acc = self.accept_set();
        let mut new_accept = VecSet::new();
        let mut k: usize = 0;
        while k < states.len()
            invariant
                self.wf(),
                acc@ == self.spec_accept(),
                acc.wf(),
                new_accept.wf(),
                k <= states@.len(),
                states@.len() == self.num_states(),
                forall|i: int| 0 <= i < states@.len() ==> #[trigger] states@[i] == i,
                forall|q: usize| #[trigger]
                    new_accept@.contains(q) <==> q < k && !self.spec_accept().contains(q),
            decreases states@.len() - k,
        {
            if !acc.contains(&states[k]) {
                new_accept.insert(states[k]);
            }
            k = k + 1;
        }
        let storage = self.storage().duplicate();
        let dead = match self.dead_state() {
            Some(d) => Some(*d),
            None => None,
        };
        DFA::from_parts(*self.start_state(), dead, new_accept, storage)
    }
}

/// `c` has the transitions, start state and dead state of `d`, and its
/// accepting states are the valid states of `d` that `d` does not accept.
pub open spec fn is_complement<A: Alphabet, S: DFAStorage<A>>(c: DFA<A, S>, d: DFA<A, S>) -> bool {
    &&& c.wf()
    &&& c.spec_start() == d.spec_start()
    &&& c.spec_dead() == d.spec_dead()
    &&& c.spec_alphabet() == d.spec_alphabet()
    &&& c.num_states() == d.num_states()
    &&& forall|q: usize, s: A::Symbol| #[trigger]
        c.spec_storage().spec_transition(q, s) == d.spec_storage().spec_transition(q, s)
    &&& forall|q: usize| #[trigger]
        c.spec_accept().contains(q) <==> q < d.num_states() && !d.spec_accept().contains(q)
}


/// Every symbol of `w` is a member of `alphabet`.
pub open spec fn over_alphabet<A: Alphabet>(alphabet: A, w: Seq<A::Symbol>) -> bool {
    forall|k: int| 0 <= k < w.len() ==> alphabet.spec_contains(#[trigger] w[k])
}

/// Reading from the dead state stays there.
pub proof fn lemma_run_from_dead<A: Alphabet, S: DFAStorage<A>>(
    d: DFA<A, S>,
    q: usize,
    w: Seq<A::Symbol>,
)
    requires
        d.spec_dead() == Some(q),
    ensures
        d.run(q, w) == Some(q),
{
}

/// Reading from a valid state ends, if anywhere, in a valid state.
pub proof fn lemma_run_valid<A: Alphabet, S: DFAStorage<A>>(
    d: DFA<A, S>,
    q: usize,
    w: Seq<A::Symbol>,
)
    requires
        d.wf(),
        q < d.num_states(),
    ensures
        d.run(q, w) matches Some(t) ==> t < d.num_states(),
    decreases w.len(),
{
    if w.len() > 0 && d.spec_dead() != Some(q) {
        if let Some(t) = d.spec_storage().spec_transition(q, w[0]) {
            lemma_run_valid(d, t, w.drop_first());
        }
    }
}

/// In a total DFA, reading symbols of the alphabet from a valid state always
/// ends in a valid state.
pub proof fn lemma_run_total<A: Alphabet, S: DFAStorage<A>>(
    d: DFA<A, S>,
    q: usize,
    w: Seq<A::Symbol>,
)
    requires
        d.wf(),
        d.is_total(),
        q < d.num_states(),
        over_alphabet(d.spec_alphabet(), w),
    ensures
        d.run(q, w) is Some,
        d.run(q, w).unwrap() < d.num_states(),
    decreases w.len(),
{
    if w.len() > 0 && d.spec_dead() != Some(q) {
        assert(d.spec_alphabet().spec_contains(w[0]));
        let t = d.spec_storage().spec_transition(q, w[0]).unwrap();
        lemma_run_total(d, t, w.drop_first());
    }
}

/// Automata with the same transitions and dead state read alike.
pub proof fn lemma_run_same<A: Alphabet, S: DFAStorage<A>>(
    c: DFA<A, S>,
    d: DFA<A, S>,
    q: usize,
    w: Seq<A::Symbol>,
)
    requires
        c.spec_dead() == d.spec_dead(),
        forall|q2: usize, s: A::Symbol| #[trigger]
            c.spec_storage().spec_transition(q2, s) == d.spec_storage().spec_transition(q2, s),
    ensures
        c.run(q, w) == d.run(q, w),
    decreases w.len(),
{
    if w.len() > 0 && d.spec_dead() != Some(q) {
        if let Some(t) = d.spec_storage().spec_transition(q, w[0]) {
            lemma_run_same(c, d, t, w.drop_first());
        }
    }
}

/// Complementing twice gives back the language of the automaton itself,
/// on every string.
pub proof fn lemma_complement_involution<A: Alphabet, S: DFAStorage<A>>(
    d: DFA<A, S>,
    c1: DFA<A, S>,
    c2: DFA<A, S>,
    w: Seq<A::Symbol>,
)
    requires
        d.wf(),
        is_complement(c1, d),
        is_complement(c2, c1),
    ensures
        c2.accepts(w) == d.accepts(w),
{
    lemma_run_same(c2, d, d.spec_start(), w);
    lemma_run_valid(d, d.spec_start(), w);
}

/// On a total DFA, the complement accepts a string of alphabet symbols
/// exactly when the DFA rejects it.
pub proof fn lemma_complement_flips<A: Alphabet, S: DFAStorage<A>>(
    d: DFA<A, S>,
    c: DFA<A, S>,
    w: Seq<A::Symbol>,
)
    requires
        d.wf(),
        d.is_total(),
        is_complement(c, d),
        over_alphabet(d.spec_alphabet(), w),
    ensures
        d.accepts(w) != c.accepts(w),
{
    lemma_run_same(c, d, d.spec_start(), w);
    lemma_run_total(d, d.spec_start(), w);
}

/// Reading a string of alphabet symbols in the product from a pair of states
/// ends in the pair of the states that each side ends in.
proof fn lemma_product_run<A: Alphabet, SL: DFAStorage<A>, SR: DFAStorage<A>, SN: DFAStorage<A>>(
    p: DFA<A, SN>,
    l: DFA<A, SL>,
    r: DFA<A, SR>,
    op: Combine,
    i: usize,
    j: usize,
    w: Seq<A::Symbol>,
)
    requires
        l.wf(),
        r.wf(),
        l.is_total(),
        r.is_total(),
        l.dead_absorbing(),
        r.dead_absorbing(),
        l.spec_alphabet() == r.spec_alphabet(),
        is_product(p, l, r, op),
        i < l.num_states(),
        j < r.num_states(),
        over_alphabet(l.spec_alphabet(), w),
    ensures
        l.run(i, w) is Some,
        r.run(j, w) is Some,
        l.run(i, w).unwrap() < l.num_states(),
        r.run(j, w).unwrap() < r.num_states(),
        p.run(pair_state(i as int, j as int, r.num_states() as int) as usize, w) == Some(
            pair_state(
                l.run(i, w).unwrap() as int,
                r.run(j, w).unwrap() as int,
                r.num_states() as int,
            ) as usize,
        ),
    decreases w.len(),
{
    let m = r.num_states() as int;
    let nl = l.num_states() as int;
    lemma_run_total(l, i, w);
    lemma_run_total(r, j, w);
    lemma_pair_bound(i as int, j as int, nl, m);
    let q = pair_state(i as int, j as int, m) as usize;
    if w.len() > 0 {
        let s = w[0];
        let rest = w.drop_first();
        assert(l.spec_alphabet().spec_contains(s));
        assert(over_alphabet(l.spec_alphabet(), rest)) by {
            assert forall|k: int| 0 <= k < rest.len() implies l.spec_alphabet().spec_contains(
                #[trigger] rest[k],
            ) by {
                assert(rest[k] == w[k + 1]);
            };
        };
        if p.spec_dead() == Some(q) {
            let ld = l.spec_dead().unwrap();
            let rd = r.spec_dead().unwrap();
            lemma_pair_bound(ld as int, rd as int, nl, m);
            lemma_pair_injective(i as int, j as int, ld as int, rd as int, m);
        } else {
            let ti = l.spec_storage().spec_transition(i, s).unwrap();
            let tj = r.spec_storage().spec_transition(j, s).unwrap();
            assert(p.spec_storage().spec_transition(
                pair_state(i as int, j as int, m) as usize,
                s,
            ) == Some(pair_state(ti as int, tj as int, m) as usize));
            lemma_product_run(p, l, r, op, ti, tj, rest);
            if l.spec_dead() == Some(i) {
                lemma_run_from_dead(l, i, rest);
            }
            if r.spec_dead() == Some(j) {
                lemma_run_from_dead(r, j, rest);
            }
        }
    }
}

/// On total DFAs over one alphabet whose dead states, if any, are absorbing,
/// the product built for `op` accepts a string of alphabet symbols exactly
/// when `op` combines the verdicts of the two DFAs on it to `true`.
pub proof fn lemma_product_accepts<
    A: Alphabet,
    SL: DFAStorage<A>,
    SR: DFAStorage<A>,
    SN: DFAStorage<A>,
>(p: DFA<A, SN>, l: DFA<A, SL>, r: DFA<A, SR>, op: Combine, w: Seq<A::Symbol>)
    requires
        l.wf(),
        r.wf(),
        l.is_total(),
        r.is_total(),
        l.dead_absorbing(),
        r.dead_absorbing(),
        l.spec_alphabet() == r.spec_alphabet(),
        is_product(p, l, r, op),
        over_alphabet(l.spec_alphabet(), w),
    ensures
        p.accepts(w) == op.apply(l.accepts(w), r.accepts(w)),
{
    lemma_product_run(p, l, r, op, l.spec_start(), r.spec_start(), w);
}

/// Combining DFAs over different alphabets always fails with
/// `OperationWithNonEqualAlphabets`.
pub proof fn lemma_alphabet_mismatch<
    A: Alphabet,
    SL: DFAStorage<A>,
    SR: DFAStorage<A>,
    SN: DFAStorage<A>,
>(l: DFA<A, SL>, r: DFA<A, SR>, res: Result<DFA<A, SN>, Error>, op: Combine)
    requires
        product_outcome(l, r, res, op),
        l.spec_alphabet() != r.spec_alphabet(),
    ensures
        res == Err::<DFA<A, SN>, Error>(Error::OperationWithNonEqualAlphabets),
{
}

} // verus!
