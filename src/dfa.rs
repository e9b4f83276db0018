use crate::alphabet::{Alphabet, IntoAlphabet};
use crate::error::Error;
use crate::util::VecSet;
use core::marker::PhantomData;
use std::collections::HashMap;
use vstd::prelude::*;

pub mod operations;

verus! {

broadcast use vstd::std_specs::hash::group_hash_axioms;

/// Backend for the DFA struct: the states and the transition function.
///
/// States are the integers `0 .. spec_num_states()`, handed out in order by
/// `add_state`. The transition function may be partial: a pair of a state and
/// a symbol without an entry has no transition.
pub trait DFAStorage<A: Alphabet>: Sized {
    /// The internal invariant of the backend.
    spec fn wf(&self) -> bool;

    /// The alphabet used by this DFA.
    spec fn spec_alphabet(&self) -> A;

    /// The number of states handed out so far.
    spec fn spec_num_states(&self) -> nat;

    /// The recorded transition from `from` on `sym`, if any.
    spec fn spec_transition(&self, from: usize, sym: A::Symbol) -> Option<usize>;

    /// Construct a new instance of this storage from the provided alphabet.
    fn from_alphabet(alphabet: A) -> (r: Self)
        requires
            alphabet.spec_len() <= usize::MAX as int + 1,
        ensures
            r.wf(),
            r.spec_alphabet() == alphabet,
            r.spec_num_states() == 0,
            forall|q: usize, s: A::Symbol| #[trigger] r.spec_transition(q, s) is None,
    ;

    /// Return a reference to the alphabet used by this DFA.
    fn alphabet(&self) -> (r: &A)
        requires
            self.wf(),
        ensures
            *r == self.spec_alphabet(),
    ;

    /// Return a list of all the valid states of this DFA.
    fn all_states(&self) -> (r: Vec<usize>)
        requires
            self.wf(),
        ensures
            r@.len() == self.spec_num_states(),
            forall|i: int| 0 <= i < r@.len() ==> #[trigger] r@[i] == i,
    ;

    /// Return a list of all recorded transitions, each once.
    fn all_transitions(&self) -> (r: Vec<(usize, A::Symbol, usize)>)
        requires
            self.wf(),
            self.spec_alphabet().spec_len() <= usize::MAX,
        ensures
            forall|k: int|
                0 <= k < r@.len() ==> self.spec_transition(#[trigger] r@[k].0, r@[k].1) == Some(
                    r@[k].2,
                ),
            forall|q: usize, s: A::Symbol| #[trigger]
                self.spec_transition(q, s) is Some ==> listed(r@, q, s),
    ;

    /// Return `true` if the given state is valid in this DFA.
    fn contains_state(&self, state: &usize) -> (r: bool)
        requires
            self.wf(),
        ensures
            r == (*state < self.spec_num_states()),
    ;

    /// Return `Some(end)` if there exists a transition from `current` to `end`
    /// via the given symbol.
    fn transition(&self, current: usize, sym: &A::Symbol) -> (r: Option<usize>)
        requires
            self.wf(),
        ensures
            r == self.spec_transition(current, *sym),
    ;

    /// Return the resulting state from transitioning from the `current` state
    /// given the `sym` symbol, where the caller knows that the transition
    /// exists.
    fn transition_unchecked(&self, current: usize, sym: &A::Symbol) -> (r: usize)
        requires
            self.wf(),
            self.spec_transition(current, *sym) is Some,
        ensures
            self.spec_transition(current, *sym) == Some(r),
    ;

    /// Return a new unique state.
    fn add_state(&mut self) -> (r: usize)
        requires
            old(self).wf(),
            old(self).spec_num_states() < usize::MAX,
        ensures
            final(self).wf(),
            r == old(self).spec_num_states(),
            final(self).spec_num_states() == old(self).spec_num_states() + 1,
            final(self).spec_alphabet() == old(self).spec_alphabet(),
            forall|q: usize, s: A::Symbol| #[trigger]
                final(self).spec_transition(q, s) == old(self).spec_transition(q, s),
    ;

    /// Record the given transition, replacing any earlier one from the same
    /// state on the same symbol.
    fn add_transition(&mut self, from: usize, sym: A::Symbol, to: usize)
        requires
            old(self).wf(),
            from < old(self).spec_num_states(),
            old(self).spec_alphabet().spec_contains(sym),
        ensures
            final(self).wf(),
            final(self).spec_num_states() == old(self).spec_num_states(),
            final(self).spec_alphabet() == old(self).spec_alphabet(),
            forall|q: usize, s: A::Symbol| #[trigger]
                final(self).spec_transition(q, s) == if q == from && s == sym {
                    Some(to)
                } else {
                    old(self).spec_transition(q, s)
                },
    ;

    /// Return a copy of this storage with the same alphabet, states and
    /// transitions.
    fn duplicate(&self) -> (r: Self)
        requires
            self.wf(),
        ensures
            r.wf(),
            r.spec_alphabet() == self.spec_alphabet(),
            r.spec_num_states() == self.spec_num_states(),
            forall|q: usize, s: A::Symbol| #[trigger]
                r.spec_transition(q, s) == self.spec_transition(q, s),
    ;
}

/// Some entry of `ts` starts from `q` on `s`.
pub open spec fn listed<Sym>(ts: Seq<(usize, Sym, usize)>, q: usize, s: Sym) -> bool {
    exists|k: int| 0 <= k < ts.len() && ts[k].0 == q && ts[k].1 == s
}

proof fn lemma_listed_push<Sym>(ts: Seq<(usize, Sym, usize)>, t: (usize, Sym, usize), q: usize, s: Sym)
    requires
        listed(ts, q, s) || (t.0 == q && t.1 == s),
    ensures
        listed(ts.push(t), q, s),
{
    if listed(ts, q, s) {
        let k = choose|k: int| 0 <= k < ts.len() && ts[k].0 == q && ts[k].1 == s;
        assert(ts.push(t)[k] == ts[k]);
    } else {
        assert(ts.push(t)[ts.len() as int] == t);
    }
}

/// Every recorded transition leads from a valid state, on a member of the
/// alphabet, to a valid state; and the alphabet can be indexed by `usize`.
pub open spec fn storage_closed<A: Alphabet, S: DFAStorage<A>>(st: S) -> bool {
    &&& st.wf()
    &&& st.spec_alphabet().spec_len() <= usize::MAX as int + 1
    &&& forall|q: usize, s: A::Symbol| #[trigger]
        st.spec_transition(q, s) is Some ==> {
            &&& q < st.spec_num_states()
            &&& st.spec_alphabet().spec_contains(s)
            &&& st.spec_transition(q, s).unwrap() < st.spec_num_states()
        }
}

/// Default storage for a DFA.
///
/// The states are a linear range, and the transitions of each state are a
/// hash map keyed by the index of the symbol in the alphabet.
#[derive(Debug)]
pub struct DefaultDFAStorage<A: Alphabet> {
    alphabet: A,
    next_state: usize,
    transition: Vec<HashMap<usize, usize>>,
}

impl<A: Alphabet> DefaultDFAStorage<A> {
    /// Construct a new default storage with the given alphabet.
    pub fn new(alphabet: A) -> (r: Self)
        requires
            alphabet.spec_len() <= usize::MAX as int + 1,
        ensures
            r.wf(),
            r.spec_alphabet() == alphabet,
            r.spec_num_states() == 0,
            forall|q: usize, s: A::Symbol| #[trigger] r.spec_transition(q, s) is None,
    {
        DefaultDFAStorage { alphabet, next_state: 0, transition: Vec::new() }
    }
}

impl<A: Alphabet> DFAStorage<A> for DefaultDFAStorage<A> {
    closed spec fn wf(&self) -> bool {
        &&& self.transition@.len() == self.next_state
        &&& self.alphabet.spec_len() <= usize::MAX as int + 1
    }

    closed spec fn spec_alphabet(&self) -> A {
        self.alphabet
    }

    closed spec fn spec_num_states(&self) -> nat {
        self.next_state as nat
    }

    closed spec fn spec_transition(&self, from: usize, sym: A::Symbol) -> Option<usize> {
        let k = self.alphabet.spec_index(sym) as usize;
        if from < self.next_state && from < self.transition@.len() && self.alphabet.spec_contains(
            sym,
        ) && self.transition@[from as int]@.contains_key(k) {
            Some(self.transition@[from as int]@[k])
        } else {
            None
        }
    }

    fn from_alphabet(alphabet: A) -> (r: Self) {
        Self::new(alphabet)
    }

    fn alphabet(&self) -> (r: &A) {
        &self.alphabet
    }

    fn all_states(&self) -> (r: Vec<usize>) {
        let mut out: Vec<usize> = Vec::new();
        let mut q: usize = 0;
        while q < self.next_state
            invariant
                q <= self.next_state,
                out@.len() == q,
                forall|i: int| 0 <= i < q ==> #[trigger] out@[i] == i,
            decreases self.next_state - q,
        {
            out.push(q);
            q = q + 1;
        }
        out
    }

    fn contains_state(&self, state: &usize) -> (r: bool) {
        *state < self.next_state
    }

    fn all_transitions(&self) -> (r: Vec<(usize, A::Symbol, usize)>) {
        let mut out: Vec<(usize, A::Symbol, usize)> = Vec::new();
        let mut q: usize = 0;
        while q < self.next_state
            invariant
                self.wf(),
                self.alphabet.spec_len() <= usize::MAX,
                q <= self.next_state,
                forall|k: int|
                    0 <= k < out@.len() ==> self.spec_transition(#[trigger] out@[k].0, out@[k].1)
                        == Some(out@[k].2),
                forall|q2: usize, s: A::Symbol|
                    q2 < q && #[trigger] self.spec_transition(q2, s) is Some ==> listed(
                        out@,
                        q2,
                        s,
                    ),
            decreases self.next_state - q,
        {
            let mut vals = self.alphabet.values();
            assert forall|s: A::Symbol| self.alphabet.spec_contains(s) implies #[trigger]
                self.alphabet.spec_index(s) < vals@.len() by {
                self.alphabet.lemma_index(s, s);
            };
            while vals.len() > 0
                invariant
                    self.wf(),
                    q < self.next_state,
                    vals@.len() <= self.alphabet.spec_len(),
                    forall|x: int|
                        0 <= x < vals@.len() ==> self.alphabet.spec_contains(#[trigger] vals@[x])
                            && self.alphabet.spec_index(vals@[x]) == x,
                    forall|k: int|
                        0 <= k < out@.len() ==> self.spec_transition(#[trigger] out@[k].0, out@[k].1)
                            == Some(out@[k].2),
                    forall|q2: usize, s: A::Symbol|
                        q2 < q && #[trigger] self.spec_transition(q2, s) is Some ==> listed(
                            out@,
                            q2,
                            s,
                        ),
                    forall|s: A::Symbol|
                        #[trigger] self.spec_transition(q, s) is Some && self.alphabet.spec_index(s)
                            >= vals@.len() ==> listed(out@, q, s),
                decreases vals@.len(),
            {
                let sym = vals.pop().unwrap();
                match self.transition(q, &sym) {
                    Some(t) => {
                        let ghost before = out@;
                        out.push((q, sym, t));
                        proof {
                            assert forall|q2: usize, s: A::Symbol|
                                q2 < q && #[trigger] self.spec_transition(q2, s) is Some implies listed(
                                out@,
                                q2,
                                s,
                            ) by {
                                lemma_listed_push(before, (q, sym, t), q2, s);
                            };
                            assert forall|s: A::Symbol|
                                #[trigger] self.spec_transition(q, s) is Some
                                    && self.alphabet.spec_index(s) >= vals@.len() implies listed(
                                out@,
                                q,
                                s,
                            ) by {
                                if self.alphabet.spec_index(s) == vals@.len() {
                                    self.alphabet.lemma_index(s, sym);
                                }
                                lemma_listed_push(before, (q, sym, t), q, s);
                            };
                        }
                    },
                    None => {
                        proof {
                            assert forall|s: A::Symbol|
                                #[trigger] self.spec_transition(q, s) is Some
                                    && self.alphabet.spec_index(s) >= vals@.len() implies listed(
                                out@,
                                q,
                                s,
                            ) by {
                                if self.alphabet.spec_index(s) == vals@.len() {
                                    self.alphabet.lemma_index(s, sym);
                                }
                            };
                        }
                    },
                }
            }
            assert forall|s: A::Symbol| #[trigger] self.spec_transition(q, s) is Some implies listed(
                out@,
                q,
                s,
            ) by {
                self.alphabet.lemma_index(s, s);
            };
            q = q + 1;
        }
        out
    }

    fn transition(&self, current: usize, sym: &A::Symbol) -> (r: Option<usize>) {
        if current >= self.next_state {
            return None;
        }
        match self.alphabet.index_of(sym) {
            Some(k) => match self.transition[current].get(&k) {
                Some(to) => Some(*to),
                None => None,
            },
            None => {
                proof {
                    if self.alphabet.spec_contains(*sym) {
                        self.alphabet.lemma_index(*sym, *sym);
                    }
                }
                None
            },
        }
    }

    fn transition_unchecked(&self, current: usize, sym: &A::Symbol) -> (r: usize) {
        match self.transition(current, sym) {
            Some(to) => to,
            None => 0,
        }
    }

    fn add_state(&mut self) -> (r: usize) {
        let new_state = self.next_state;
        self.transition.push(HashMap::new());
        self.next_state = self.next_state + 1;
        new_state
    }

    fn add_transition(&mut self, from: usize, sym: A::Symbol, to: usize) {
        proof {
            self.alphabet.lemma_index(sym, sym);
        }
        let k = match self.alphabet.index_of(&sym) {
            Some(k) => k,
            None => 0,
        };
        let ghost before = *self;
        self.transition[from].insert(k, to);
        assert forall|q: usize, s: A::Symbol| #[trigger]
            self.spec_transition(q, s) == if q == from && s == sym {
                Some(to)
            } else {
                before.spec_transition(q, s)
            } by {
            if self.alphabet.spec_contains(s) {
                self.alphabet.lemma_index(s, sym);
            }
        };
    }

    fn duplicate(&self) -> (r: Self) {
        let mut rows: Vec<HashMap<usize, usize>> = Vec::new();
        let mut q: usize = 0;
        while q < self.next_state
            invariant
                self.wf(),
                q <= self.next_state,
                rows@.len() == q,
                forall|i: int| 0 <= i < q ==> (#[trigger] rows@[i])@ == self.transition@[i]@,
            decreases self.next_state - q,
        {
            rows.push(self.transition[q].clone());
            q = q + 1;
        }
        DefaultDFAStorage {
            alphabet: self.alphabet.duplicate(),
            next_state: self.next_state,
            transition: rows,
        }
    }
}


/// A deterministic finite automaton.
pub struct DFA<A: Alphabet, S: DFAStorage<A> = DefaultDFAStorage<A>> {
    accept: VecSet,
    dead: Option<usize>,
    start: usize,
    storage: S,
    alphabet: PhantomData<A>,
}

impl<A: Alphabet, S: DFAStorage<A>> DFA<A, S> {
    /// The starting state.
    pub closed spec fn spec_start(&self) -> usize {
        self.start
    }

    /// The dead state, if one is configured.
    pub closed spec fn spec_dead(&self) -> Option<usize> {
        self.dead
    }

    /// The set of accepting states.
    pub closed spec fn spec_accept(&self) -> Set<usize> {
        self.accept@
    }

    /// The states and transitions.
    pub closed spec fn spec_storage(&self) -> S {
        self.storage
    }

    /// The accepting states are kept ascending without repeats.
    pub closed spec fn accept_wf(&self) -> bool {
        self.accept.wf()
    }

    /// Number of states.
    pub open spec fn num_states(&self) -> nat {
        self.spec_storage().spec_num_states()
    }

    /// The alphabet of the automaton.
    pub open spec fn spec_alphabet(&self) -> A {
        self.spec_storage().spec_alphabet()
    }

    /// The start state, the dead state and every accepting state are valid
    /// states, and every transition joins valid states.
    pub open spec fn wf(&self) -> bool {
        &&& storage_closed(self.spec_storage())
        &&& self.accept_wf()
        &&& self.spec_start() < self.num_states()
        &&& self.spec_dead() matches Some(d) ==> d < self.num_states()
        &&& forall|q: usize| #[trigger] self.spec_accept().contains(q) ==> q < self.num_states()
    }

    /// Every valid state has a transition on every symbol of the alphabet.
    pub open spec fn is_total(&self) -> bool {
        forall|q: usize, s: A::Symbol|
            q < self.num_states() && self.spec_alphabet().spec_contains(s) ==> (
            #[trigger] self.spec_storage().spec_transition(q, s)) is Some
    }

    /// The dead state, if any, has a transition to itself on every symbol.
    pub open spec fn dead_absorbing(&self) -> bool {
        self.spec_dead() matches Some(d) ==> forall|s: A::Symbol|
            self.spec_alphabet().spec_contains(s) ==> #[trigger]
                self.spec_storage().spec_transition(d, s) == Some(d)
    }

    /// The state reached by reading `w` from `q`, stopping at the dead state;
    /// `None` where a symbol has no transition.
    pub open spec fn run(&self, q: usize, w: Seq<A::Symbol>) -> Option<usize>
        decreases w.len(),
    {
        if w.len() == 0 {
            Some(q)
        } else if self.spec_dead() == Some(q) {
            Some(q)
        } else {
            match self.spec_storage().spec_transition(q, w[0]) {
                Some(t) => self.run(t, w.drop_first()),
                None => None,
            }
        }
    }

    /// The language of the automaton: `w` leads from the start state to an
    /// accepting state.
    pub open spec fn accepts(&self, w: Seq<A::Symbol>) -> bool {
        match self.run(self.spec_start(), w) {
            Some(q) => self.spec_accept().contains(q),
            None => false,
        }
    }

    /// The invariant that every DFA value keeps.
    #[verifier::type_invariant]
    closed spec fn inv(&self) -> bool {
        self.wf()
    }

    /// Assemble a DFA from its parts.
    pub(crate) fn from_parts(start: usize, dead: Option<usize>, accept: VecSet, storage: S) -> (r: Self)
        requires
            storage_closed(storage),
            accept.wf(),
            start < storage.spec_num_states(),
            dead matches Some(d) ==> d < storage.spec_num_states(),
            forall|q: usize| #[trigger] accept@.contains(q) ==> q < storage.spec_num_states(),
        ensures
            r.wf(),
            r.spec_start() == start,
            r.spec_dead() == dead,
            r.spec_accept() == accept@,
            r.accept_wf() == accept.wf(),
            r.spec_storage() == storage,
    {
        DFA { start, dead, accept, storage, alphabet: PhantomData }
    }

    /// The set of accepting states.
    pub(crate) fn accept_set(&self) -> (r: &VecSet)
        ensures
            r@ == self.spec_accept(),
            r.wf() == self.accept_wf(),
    {
        &self.accept
    }

    /// The states of DFA that will cause it to accept a string, ascending.
    pub fn accept_states(&self) -> (r: &[usize])
        ensures
            self.wf(),
            r@.to_set() == self.spec_accept(),
            crate::util::vec_set::strictly_ascending(r@),
    {
        proof {
            use_type_invariant(self);
            self.accept.lemma_view();
        }
        self.accept.as_slice()
    }

    /// An optional state that signals early termination of the DFA, used to
    /// represent an error condition.
    pub fn dead_state(&self) -> (r: Option<&usize>)
        ensures
            match r {
                Some(d) => self.spec_dead() == Some(*d),
                None => self.spec_dead() is None,
            },
    {
        self.dead.as_ref()
    }

    /// The starting state of the DFA.
    pub fn start_state(&self) -> (r: &usize)
        ensures
            *r == self.spec_start(),
    {
        &self.start
    }

    /// The states and transitions of the DFA.
    pub fn storage(&self) -> (r: &S)
        ensures
            *r == self.spec_storage(),
    {
        &self.storage
    }

    /// Convert this DFA back into the DFABuilder form.
    pub fn into_builder(self) -> (r: DFABuilder<A, S>)
        ensures
            r.wf(),
            r.spec_start() == Some(self.spec_start()),
            r.spec_dead() == self.spec_dead(),
            r.spec_accept() == self.spec_accept(),
            r.spec_storage() == self.spec_storage(),
    {
        proof {
            use_type_invariant(&self);
        }
        DFABuilder {
            storage: self.storage,
            dead: self.dead,
            accept: self.accept,
            start: Some(self.start),
            alphabet: PhantomData,
        }
    }

    /// Accept or reject a string based on the content of this DFA.
    ///
    /// Reading stops at the dead state; a symbol without a transition, such
    /// as one outside the alphabet, rejects the string.
    pub fn accept(&self, string: &[A::Symbol]) -> (r: bool)
        ensures
            self.wf(),
            r == self.accepts(string@),
    {
        proof {
            use_type_invariant(self);
        }
        let mut current = self.start;
        let mut i: usize = 0;
        let mut stopped = false;
        assert(string@.subrange(0, string@.len() as int) =~= string@);
        while i < string.len() && !stopped
            invariant
                self.wf(),
                i <= string@.len(),
                self.run(self.spec_start(), string@) == self.run(
                    current,
                    string@.subrange(i as int, string@.len() as int),
                ),
                stopped ==> self.spec_dead() == Some(current),
            decreases string@.len() - i + (if stopped { 0int } else { 1int }),
        {
            let at_dead = match self.dead {
                Some(d) => d == current,
                None => false,
            };
            if at_dead {
                stopped = true;
            } else {
                let ghost rest = string@.subrange(i as int, string@.len() as int);
                assert(rest.drop_first() =~= string@.subrange(i + 1, string@.len() as int));
                match self.storage.transition(current, &string[i]) {
                    Some(next) => {
                        current = next;
                    },
                    None => {
                        return false;
                    },
                }
                i = i + 1;
            }
        }
        self.accept.contains(&current)
    }

    /// Accept or reject a string of alphabet symbols, using the transition
    /// lookup that skips validation.
    ///
    /// The caller guarantees that every symbol is in the alphabet and that
    /// the walk of this string never meets a missing transition before it
    /// stops, so that every lookup finds one.
    pub fn accept_unchecked(&self, string: &[A::Symbol]) -> (r: bool)
        requires
            self.run(self.spec_start(), string@) is Some,
            forall|k: int| 0 <= k < string@.len() ==> self.spec_alphabet().spec_contains(#[trigger] string@[k]),
        ensures
            self.wf(),
            r == self.accepts(string@),
    {
        proof {
            use_type_invariant(self);
        }
        let mut current = self.start;
        let mut i: usize = 0;
        let mut stopped = false;
        assert(string@.subrange(0, string@.len() as int) =~= string@);
        while i < string.len() && !stopped
            invariant
                self.wf(),
                self.run(self.spec_start(), string@) is Some,
                i <= string@.len(),
                self.run(self.spec_start(), string@) == self.run(
                    current,
                    string@.subrange(i as int, string@.len() as int),
                ),
                stopped ==> self.spec_dead() == Some(current),
            decreases string@.len() - i + (if stopped { 0int } else { 1int }),
        {
            let at_dead = match self.dead {
                Some(d) => d == current,
                None => false,
            };
            if at_dead {
                stopped = true;
            } else {
                let ghost rest = string@.subrange(i as int, string@.len() as int);
                assert(rest.drop_first() =~= string@.subrange(i + 1, string@.len() as int));
                current = self.storage.transition_unchecked(current, &string[i]);
                i = i + 1;
            }
        }
        self.accept.contains(&current)
    }
}

/// Builder for a DFA.
pub struct DFABuilder<A: Alphabet, S: DFAStorage<A> = DefaultDFAStorage<A>> {
    accept: VecSet,
    dead: Option<usize>,
    start: Option<usize>,
    storage: S,
    alphabet: PhantomData<A>,
}

impl<A: Alphabet> DFABuilder<A, DefaultDFAStorage<A>> {
    /// Create a new DFABuilder with the given alphabet.
    pub fn new<I: IntoAlphabet<IntoAlpha = A, Symbol = A::Symbol>>(alphabet: I) -> (r: Self)
        requires
            alphabet.spec_into_alphabet().spec_len() <= usize::MAX as int + 1,
        ensures
            r.wf(),
            r.spec_storage().spec_alphabet() == alphabet.spec_into_alphabet(),
            r.spec_storage().spec_num_states() == 0,
            r.spec_start() is None,
            r.spec_dead() is None,
            r.spec_accept() == Set::<usize>::empty(),
    {
        DFABuilder {
            accept: VecSet::new(),
            dead: None,
            start: None,
            storage: DefaultDFAStorage::new(alphabet.into_alphabet()),
            alphabet: PhantomData,
        }
    }
}

impl<A: Alphabet, S: DFAStorage<A>> DFABuilder<A, S> {
    /// The start state, once set.
    pub closed spec fn spec_start(&self) -> Option<usize> {
        self.start
    }

    /// The dead state, if one is configured.
    pub closed spec fn spec_dead(&self) -> Option<usize> {
        self.dead
    }

    /// The accepting states recorded so far.
    pub closed spec fn spec_accept(&self) -> Set<usize> {
        self.accept@
    }

    /// The states and transitions recorded so far.
    pub closed spec fn spec_storage(&self) -> S {
        self.storage
    }

    /// The accepting states are kept ascending without repeats.
    pub closed spec fn accept_wf(&self) -> bool {
        self.accept.wf()
    }

    /// The storage holds only transitions between valid states.
    pub open spec fn wf(&self) -> bool {
        &&& storage_closed(self.spec_storage())
        &&& self.accept_wf()
    }

    /// Create a new DFABuilder with a custom storage backend.
    pub fn new_with_storage(storage: S) -> (r: Self)
        requires
            storage_closed(storage),
        ensures
            r.wf(),
            r.spec_storage() == storage,
            r.spec_start() is None,
            r.spec_dead() is None,
            r.spec_accept() == Set::<usize>::empty(),
    {
        DFABuilder { storage, accept: VecSet::new(), dead: None, start: None, alphabet: PhantomData }
    }

    /// Record and return a new state.
    pub fn new_state(&mut self) -> (r: usize)
        requires
            old(self).wf(),
            old(self).spec_storage().spec_num_states() < usize::MAX,
        ensures
            final(self).wf(),
            r == old(self).spec_storage().spec_num_states(),
            final(self).spec_storage().spec_num_states() == r + 1,
            final(self).spec_storage().spec_alphabet() == old(self).spec_storage().spec_alphabet(),
            forall|q: usize, s: A::Symbol| #[trigger]
                final(self).spec_storage().spec_transition(q, s) == old(
                    self,
                ).spec_storage().spec_transition(q, s),
            final(self).spec_start() == old(self).spec_start(),
            final(self).spec_dead() == old(self).spec_dead(),
            final(self).spec_accept() == old(self).spec_accept(),
    {
        self.storage.add_state()
    }

    /// Record and validate a new transition.
    ///
    /// Fails with `InvalidState` if `from` or `to` is not a valid state, and
    /// otherwise with `SymbolNotInAlphabet` if `sym` is not in the alphabet.
    pub fn transition(&mut self, from: usize, sym: A::Symbol, to: usize) -> (r: Result<(), Error>)
        requires
            old(self).wf(),
        ensures
            final(self).wf(),
            r == transition_outcome(old(self).spec_storage(), from, sym, to),
            final(self).spec_storage().spec_num_states() == old(
                self,
            ).spec_storage().spec_num_states(),
            final(self).spec_storage().spec_alphabet() == old(self).spec_storage().spec_alphabet(),
            forall|q: usize, s: A::Symbol| #[trigger]
                final(self).spec_storage().spec_transition(q, s) == if r is Ok && q == from && s
                    == sym {
                    Some(to)
                } else {
                    old(self).spec_storage().spec_transition(q, s)
                },
            final(self).spec_start() == old(self).spec_start(),
            final(self).spec_dead() == old(self).spec_dead(),
            final(self).spec_accept() == old(self).spec_accept(),
    {
        if !self.storage.contains_state(&from) || !self.storage.contains_state(&to) {
            Err(Error::InvalidState)
        } else if !self.storage.alphabet().contains(&sym) {
            Err(Error::SymbolNotInAlphabet)
        } else {
            self.storage.add_transition(from, sym, to);
            Ok(())
        }
    }

    /// Set the starting state.
    pub fn start_state(&mut self, start: usize) -> (r: &mut Self)
        ensures
            r.spec_start() == Some(start),
            r.spec_dead() == old(self).spec_dead(),
            r.spec_accept() == old(self).spec_accept(),
            r.spec_storage() == old(self).spec_storage(),
            r.accept_wf() == old(self).accept_wf(),
            *final(self) == *final(r),
    {
        self.start = Some(start);
        self
    }

    /// Set the dead/error state.
    pub fn dead_state(&mut self, dead: Option<usize>) -> (r: &mut Self)
        ensures
            r.spec_start() == old(self).spec_start(),
            r.spec_dead() == dead,
            r.spec_accept() == old(self).spec_accept(),
            r.spec_storage() == old(self).spec_storage(),
            r.accept_wf() == old(self).accept_wf(),
            *final(self) == *final(r),
    {
        self.dead = dead;
        self
    }

    /// Add to the set of accept states.
    pub fn accept_states(&mut self, accept_states: Vec<usize>) -> (r: &mut Self)
        requires
            old(self).accept_wf(),
        ensures
            r.spec_start() == old(self).spec_start(),
            r.spec_dead() == old(self).spec_dead(),
            r.spec_accept() == old(self).spec_accept() + accept_states@.to_set(),
            r.spec_storage() == old(self).spec_storage(),
            r.accept_wf(),
            *final(self) == *final(r),
    {
        let mut k: usize = 0;
        while k < accept_states.len()
            invariant
                k <= accept_states@.len(),
                self.accept.wf(),
                self.start == old(self).start,
                self.dead == old(self).dead,
                self.storage == old(self).storage,
                self.accept@ == old(self).accept@ + accept_states@.subrange(0, k as int).to_set(),
            decreases accept_states@.len() - k,
        {
            self.accept.insert(accept_states[k]);
            assert(accept_states@.subrange(0, k + 1) =~= accept_states@.subrange(0, k as int).push(
                accept_states@[k as int],
            ));
            proof {
                accept_states@.subrange(0, k as int).lemma_push_to_set_commute(
                    accept_states@[k as int],
                );
            }
            assert(self.accept@ =~= old(self).accept@ + accept_states@.subrange(
                0,
                k + 1,
            ).to_set());
            k = k + 1;
        }
        assert(accept_states@.subrange(0, accept_states@.len() as int) =~= accept_states@);
        self
    }

    /// Record and validate multiple transitions, in order, up to the first
    /// one that `transition` refuses; return that refusal.
    pub fn transitions(&mut self, transitions: Vec<(usize, A::Symbol, usize)>) -> (r: Result<
        (),
        Error,
    >)
        requires
            old(self).wf(),
        ensures
            final(self).wf(),
            ({
                let k = first_refused(old(self).spec_storage(), transitions@);
                &&& r == (if k < transitions@.len() {
                    Err(
                        transition_outcome(
                            old(self).spec_storage(),
                            transitions@[k].0,
                            transitions@[k].1,
                            transitions@[k].2,
                        )->Err_0,
                    )
                } else {
                    Ok(())
                })
                &&& forall|q: usize, s: A::Symbol| #[trigger]
                    final(self).spec_storage().spec_transition(q, s) == match last_write(
                        transitions@.subrange(0, k),
                        q,
                        s,
                    ) {
                        Some(t) => Some(t),
                        None => old(self).spec_storage().spec_transition(q, s),
                    }
            }),
            final(self).spec_storage().spec_num_states() == old(
                self,
            ).spec_storage().spec_num_states(),
            final(self).spec_storage().spec_alphabet() == old(self).spec_storage().spec_alphabet(),
            final(self).spec_start() == old(self).spec_start(),
            final(self).spec_dead() == old(self).spec_dead(),
            final(self).spec_accept() == old(self).spec_accept(),
    {
        let ghost all = transitions@;
        let ghost st0 = self.storage;
        let mut rest = transitions;
        let mut k: usize = 0;
        proof {
            lemma_first_refused_bound(st0, all);
        }
        assert(all.len() == rest.len());
        assert(all.subrange(0, 0) =~= Seq::<(usize, A::Symbol, usize)>::empty());
        assert(all.subrange(0, all.len() as int) =~= all);
        while rest.len() > 0
            invariant
                self.wf(),
                st0 == old(self).storage,
                all == transitions@,
                k <= all.len(),
                rest@ == all.subrange(k as int, all.len() as int),
                k <= first_refused(st0, all),
                first_refused(st0, all) <= all.len(),
                all.len() <= usize::MAX,
                self.storage.spec_num_states() == st0.spec_num_states(),
                self.storage.spec_alphabet() == st0.spec_alphabet(),
                self.start == old(self).start,
                self.dead == old(self).dead,
                self.accept@ == old(self).accept@,
                self.accept.wf() == old(self).accept.wf(),
                forall|q: usize, s: A::Symbol| #[trigger]
                    self.storage.spec_transition(q, s) == match last_write(
                        all.subrange(0, k as int),
                        q,
                        s,
                    ) {
                        Some(t) => Some(t),
                        None => st0.spec_transition(q, s),
                    },
            decreases rest@.len(),
        {
            let (from, sym, to) = rest.remove(0);
            assert(all[k as int] == (from, sym, to));
            proof {
                lemma_first_refused_step(st0, all, k as int);
            }
            let ghost before = self.storage;
            match self.transition(from, sym, to) {
                Ok(()) => {},
                Err(e) => {
                    return Err(e);
                },
            }
            assert(all.subrange(0, k + 1) =~= all.subrange(0, k as int).push((from, sym, to)));
            assert forall|q: usize, s: A::Symbol| #[trigger]
                self.storage.spec_transition(q, s) == match last_write(
                    all.subrange(0, k + 1),
                    q,
                    s,
                ) {
                    Some(t) => Some(t),
                    None => st0.spec_transition(q, s),
                } by {
                assert(all.subrange(0, k + 1).drop_last() =~= all.subrange(0, k as int));
                assert(all.subrange(0, k + 1).last() == (from, sym, to));
                assert(before.spec_transition(q, s) == match last_write(
                    all.subrange(0, k as int),
                    q,
                    s,
                ) {
                    Some(t) => Some(t),
                    None => st0.spec_transition(q, s),
                });
            };
            k = k + 1;
        }
        assert(k == all.len());
        Ok(())
    }

    /// Build the DFA.
    ///
    /// Fails with `MissingStartState` without a start state, and otherwise
    /// with `InvalidState` where the start state, the dead state or an
    /// accepting state is not a valid state.
    pub fn build(self) -> (r: Result<DFA<A, S>, Error>)
        requires
            self.wf(),
        ensures
            build_error(self) matches Some(e) ==> r == Err::<DFA<A, S>, Error>(e),
            build_error(self) is None ==> r is Ok,
            r matches Ok(dfa) ==> {
                &&& dfa.wf()
                &&& Some(dfa.spec_start()) == self.spec_start()
                &&& dfa.spec_dead() == self.spec_dead()
                &&& dfa.spec_accept() == self.spec_accept()
                &&& dfa.spec_storage() == self.spec_storage()
                &&& dfa.spec_start() < dfa.num_states()
                &&& forall|q: usize| #[trigger]
                    dfa.spec_accept().contains(q) ==> q < dfa.num_states()
                &&& dfa.spec_dead() matches Some(d) ==> d < dfa.num_states()
            },
    {
        let DFABuilder { start, storage, dead, accept, alphabet } = self;
        let start = match start {
            Some(s) => s,
            None => {
                return Err(Error::MissingStartState);
            },
        };
        if !storage.contains_state(&start) {
            return Err(Error::InvalidState);
        }
        match dead {
            Some(d) => {
                if !storage.contains_state(&d) {
                    return Err(Error::InvalidState);
                }
            },
            None => {},
        }
        proof {
            accept.lemma_view();
        }
        let states = accept.as_slice();
        let mut k: usize = 0;
        while k < states.len()
            invariant
                storage.wf(),
                self.spec_storage() == storage,
                self.spec_accept() == accept@,
                self.spec_start() == Some(start),
                self.spec_dead() == dead,
                start < storage.spec_num_states(),
                dead matches Some(d) ==> d < storage.spec_num_states(),
                k <= states@.len(),
                states@ == accept.elements(),
                accept@ == accept.elements().to_set(),
                forall|i: int| 0 <= i < k ==> #[trigger] states@[i] < storage.spec_num_states(),
            decreases states@.len() - k,
        {
            if !storage.contains_state(&states[k]) {
                proof {
                    assert(accept.elements().contains(states@[k as int]));
                    assert(accept@.contains(states@[k as int]));
                }
                return Err(Error::InvalidState);
            }
            k = k + 1;
        }
        assert forall|q: usize| #[trigger] accept@.contains(q) implies q
            < storage.spec_num_states() by {
            let i = choose|i: int| 0 <= i < states@.len() && states@[i] == q;
        };
        Ok(DFA { start, dead, accept, storage, alphabet })
    }
}


/// The position of the first transition of `ts` that `transition` refuses
/// on `st`, or the length of `ts` if it refuses none.
pub open spec fn first_refused<A: Alphabet, S: DFAStorage<A>>(
    st: S,
    ts: Seq<(usize, A::Symbol, usize)>,
) -> int
    decreases ts.len(),
{
    if ts.len() == 0 {
        0
    } else if transition_outcome(st, ts[0].0, ts[0].1, ts[0].2) is Err {
        0
    } else {
        1 + first_refused(st, ts.drop_first())
    }
}

/// The target of the last transition in `ts` from `q` on `s`, if any.
pub open spec fn last_write<Sym>(ts: Seq<(usize, Sym, usize)>, q: usize, s: Sym) -> Option<usize>
    decreases ts.len(),
{
    if ts.len() == 0 {
        None
    } else if ts.last().0 == q && ts.last().1 == s {
        Some(ts.last().2)
    } else {
        last_write(ts.drop_last(), q, s)
    }
}

proof fn lemma_first_refused_bound<A: Alphabet, S: DFAStorage<A>>(
    st: S,
    ts: Seq<(usize, A::Symbol, usize)>,
)
    ensures
        0 <= first_refused(st, ts) <= ts.len(),
    decreases ts.len(),
{
    if ts.len() > 0 {
        lemma_first_refused_bound(st, ts.drop_first());
    }
}

/// Before the first refused transition, every transition is accepted; the
/// first refused one is refused.
proof fn lemma_first_refused_step<A: Alphabet, S: DFAStorage<A>>(
    st: S,
    ts: Seq<(usize, A::Symbol, usize)>,
    k: int,
)
    requires
        0 <= k < ts.len(),
        k <= first_refused(st, ts),
    ensures
        k < first_refused(st, ts) <==> transition_outcome(st, ts[k].0, ts[k].1, ts[k].2) is Ok,
    decreases k,
{
    lemma_first_refused_bound(st, ts.drop_first());
    if k > 0 {
        assert(ts.drop_first()[k - 1] == ts[k]);
        lemma_first_refused_step(st, ts.drop_first(), k - 1);
    }
}

/// The error that building the DFA from `b` yields, if any.
pub open spec fn build_error<A: Alphabet, S: DFAStorage<A>>(b: DFABuilder<A, S>) -> Option<Error> {
    let n = b.spec_storage().spec_num_states();
    match b.spec_start() {
        None => Some(Error::MissingStartState),
        Some(s) => if s >= n || (b.spec_dead() matches Some(d) && d >= n) || exists|q: usize|
            #[trigger] b.spec_accept().contains(q) && q >= n {
            Some(Error::InvalidState)
        } else {
            None
        },
    }
}

/// What recording the transition `(from, sym, to)` into `st` yields.
pub open spec fn transition_outcome<A: Alphabet, S: DFAStorage<A>>(
    st: S,
    from: usize,
    sym: A::Symbol,
    to: usize,
) -> Result<(), Error> {
    if !(from < st.spec_num_states() && to < st.spec_num_states()) {
        Err(Error::InvalidState)
    } else if !st.spec_alphabet().spec_contains(sym) {
        Err(Error::SymbolNotInAlphabet)
    } else {
        Ok(())
    }
}

} // verus!
