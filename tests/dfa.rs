use regular::alphabet::{Alphabet, Full};
use regular::accept::IterExt;
use regular::{DFABuilder, DFAStorage, DefaultDFAStorage, Error, DFA};
use regular::Range;

type CharDfa = DFA<Range<char>, DefaultDFAStorage<Range<char>>>;

fn chars(s: &str) -> Vec<char> {
    s.chars().collect()
}

// Accept: a*b*c*
// 0 -a- 0, 0 -b- 1, 0 -c- 2, 1 -a- dead, 1 -b- 1, 1 -c- 2,
// 2 -a- dead, 2 -b- dead, 2 -c- 2; 0 is start, {0, 1, 2} accept.
fn simple_dfa() -> CharDfa {
    let mut builder = DFABuilder::new('a'..='c');
    let s0 = builder.new_state();
    let s1 = builder.new_state();
    let s2 = builder.new_state();
    let sdead = builder.new_state();

    builder
        .transitions(vec![
            (s0, 'a', s0),
            (s0, 'b', s1),
            (s0, 'c', s2),
            (s1, 'a', sdead),
            (s1, 'b', s1),
            (s1, 'c', s2),
            (s2, 'a', sdead),
            (s2, 'b', sdead),
            (s2, 'c', s2),
        ])
        .unwrap();

    builder
        .start_state(s0)
        .dead_state(Some(sdead))
        .accept_states(vec![s0, s1, s2]);
    builder.build().expect("DFA construction failed!")
}

// The simple DFA made total: the dead state loops on every symbol.
fn total_simple_dfa() -> CharDfa {
    let mut builder = simple_dfa().into_builder();
    let sdead = 3;
    builder
        .transitions(vec![(sdead, 'a', sdead), (sdead, 'b', sdead), (sdead, 'c', sdead)])
        .unwrap();
    builder.build().unwrap()
}

// Strings over a..c with an even number of 'a'.
fn even_a_dfa() -> CharDfa {
    let mut builder = DFABuilder::new('a'..='c');
    let q0 = builder.new_state();
    let q1 = builder.new_state();
    builder
        .transitions(vec![
            (q0, 'a', q1),
            (q0, 'b', q0),
            (q0, 'c', q0),
            (q1, 'a', q0),
            (q1, 'b', q1),
            (q1, 'c', q1),
        ])
        .unwrap();
    builder.start_state(q0).accept_states(vec![q0]);
    builder.build().unwrap()
}

#[test]
fn accept_by_simple_dfa() {
    let dfa = simple_dfa();

    assert!(dfa.accept(&chars("aaaabbbbcccc")));
    assert!(dfa.accept(&chars("abc")));
    assert!(dfa.accept(&chars("bbcc")));
    assert!(dfa.accept(&chars("cc")));
    assert!(dfa.accept(&chars("aacc")));
    assert!(dfa.accept(&chars("")));
    assert!(dfa.accept(&chars("aabb")));
    assert!(dfa.accept(&chars("bb")));
    assert!(dfa.accept(&chars("aa")));
    assert!(chars("aaaabbbbcccc").is_accepted(&dfa));

    assert!(!dfa.accept(&chars("cbbbbcccc")));
    assert!(!dfa.accept(&chars("z")));
    assert!(!dfa.accept(&chars("ccbbaa")));
    assert!(!dfa.accept(&chars("abbaa")));
    assert!(!dfa.accept(&chars("abcbaa")));
}

#[test]
fn accept_by_complement_simple_dfa() {
    let dfa = simple_dfa().complement();

    assert!(!dfa.accept(&chars("aaaabbbbcccc")));
    assert!(!dfa.accept(&chars("abc")));
    assert!(!dfa.accept(&chars("bbcc")));
    assert!(!dfa.accept(&chars("cc")));
    assert!(!dfa.accept(&chars("aacc")));
    assert!(!dfa.accept(&chars("")));
    assert!(!dfa.accept(&chars("aabb")));
    assert!(!dfa.accept(&chars("bb")));
    assert!(!dfa.accept(&chars("aa")));
    assert!(!chars("aaaabbbbcccc").is_accepted(&dfa));

    // Still don't accept string with non-alphabet symbols
    assert!(!dfa.accept(&chars("z")));

    assert!(dfa.accept(&chars("cbbbbcccc")));
    assert!(dfa.accept(&chars("ccbbaa")));
    assert!(dfa.accept(&chars("abbaa")));
    assert!(dfa.accept(&chars("abcbaa")));
}

#[test]
fn complement_twice_accepts_as_before() {
    let dfa = simple_dfa();
    let twice = dfa.complement().complement();
    for s in ["", "abc", "cbbbbcccc", "z", "ccbbaa", "aabb", "ba"] {
        assert_eq!(dfa.accept(&chars(s)), twice.accept(&chars(s)));
    }
}

#[test]
fn complement_flips_on_alphabet_strings() {
    let dfa = total_simple_dfa();
    let comp = dfa.complement();
    for s in ["", "a", "abc", "cba", "cbbbbcccc", "ccbbaa", "aabbcc", "bab"] {
        assert_ne!(dfa.accept(&chars(s)), comp.accept(&chars(s)));
    }
}

#[test]
fn complement_accept_states_are_the_rest() {
    let dfa = simple_dfa();
    assert_eq!(dfa.accept_states(), &[0, 1, 2]);
    assert_eq!(dfa.complement().accept_states(), &[3]);
    assert_eq!(*dfa.start_state(), 0);
    assert_eq!(dfa.dead_state(), Some(&3));
}

#[test]
fn intersection_union_difference_scenarios() {
    let l = total_simple_dfa();
    let r = even_a_dfa();
    let inter: CharDfa = l.intersection(&r).unwrap();
    let uni: CharDfa = l.union(&r).unwrap();
    let diff: CharDfa = l.difference(&r).unwrap();
    for s in ["", "a", "aa", "aab", "abc", "ba", "aba", "cbbbbcccc", "ccbbaa", "aabbcc", "cab"] {
        let (a, b) = (l.accept(&chars(s)), r.accept(&chars(s)));
        assert_eq!(inter.accept(&chars(s)), a && b, "{}", s);
        assert_eq!(uni.accept(&chars(s)), a || b, "{}", s);
        assert_eq!(diff.accept(&chars(s)), a && !b, "{}", s);
    }
    assert!(inter.accept(&chars("aabbcc")));
    assert!(!inter.accept(&chars("abc")));
    assert!(uni.accept(&chars("aba")));
    assert!(!uni.accept(&chars("cab")));
    assert!(diff.accept(&chars("abc")));
    assert!(!diff.accept(&chars("aabbcc")));
}

#[test]
fn product_states_and_dead_state() {
    let l = total_simple_dfa();
    let r = even_a_dfa();
    let inter: CharDfa = l.intersection(&r).unwrap();
    // 4 * 2 states; start is the pair (0, 0); only one side has a dead state.
    assert_eq!(inter.storage().all_states().len(), 8);
    assert_eq!(*inter.start_state(), 0);
    assert_eq!(inter.dead_state(), None);
    assert_eq!(inter.accept_states(), &[0, 2, 4]);
    let both: CharDfa = l.intersection(&l).unwrap();
    assert_eq!(both.dead_state(), Some(&15));
}

#[test]
fn combining_different_alphabets_fails() {
    let l = total_simple_dfa();
    let mut builder = DFABuilder::new('a'..='d');
    let q = builder.new_state();
    builder
        .transitions(vec![(q, 'a', q), (q, 'b', q), (q, 'c', q), (q, 'd', q)])
        .unwrap();
    builder.start_state(q).accept_states(vec![q]);
    let other = builder.build().unwrap();
    let r1: Result<CharDfa, Error> = l.intersection(&other);
    let r2: Result<CharDfa, Error> = l.union(&other);
    let r3: Result<CharDfa, Error> = l.difference(&other);
    assert!(matches!(r1, Err(Error::OperationWithNonEqualAlphabets)));
    assert!(matches!(r2, Err(Error::OperationWithNonEqualAlphabets)));
    assert!(matches!(r3, Err(Error::OperationWithNonEqualAlphabets)));
}

#[test]
fn combining_partial_dfa_fails_with_state_not_found() {
    let partial = simple_dfa();
    let r = even_a_dfa();
    let res: Result<CharDfa, Error> = partial.union(&r);
    assert!(matches!(res, Err(Error::StateNotFound)));
}

#[test]
fn builder_errors() {
    let mut builder = DFABuilder::new('a'..='c');
    let q = builder.new_state();
    assert_eq!(builder.transition(q, 'a', 7), Err(Error::InvalidState));
    assert_eq!(builder.transition(5, 'a', q), Err(Error::InvalidState));
    assert_eq!(builder.transition(q, 'z', q), Err(Error::SymbolNotInAlphabet));
    assert_eq!(builder.transition(q, 'b', q), Ok(()));
    assert_eq!(
        builder.transitions(vec![(q, 'a', q), (q, 'x', q), (q, 'c', q)]),
        Err(Error::SymbolNotInAlphabet)
    );
    // The first transition was recorded, the one after the refusal was not.
    assert_eq!(builder.build().err(), Some(Error::MissingStartState));

    let mut builder = DFABuilder::new('a'..='c');
    let q = builder.new_state();
    builder.start_state(q).dead_state(Some(4));
    assert_eq!(builder.build().err(), Some(Error::InvalidState));

    let mut builder = DFABuilder::new('a'..='c');
    let q = builder.new_state();
    builder.start_state(q).accept_states(vec![q, 9]);
    assert_eq!(builder.build().err(), Some(Error::InvalidState));

    let mut builder = DFABuilder::new('a'..='c');
    builder.new_state();
    builder.start_state(2);
    assert_eq!(builder.build().err(), Some(Error::InvalidState));
}

#[test]
fn transitions_last_write_wins() {
    let mut builder = DFABuilder::new('a'..='b');
    let q0 = builder.new_state();
    let q1 = builder.new_state();
    builder
        .transitions(vec![(q0, 'a', q0), (q0, 'a', q1)])
        .unwrap();
    builder.start_state(q0).accept_states(vec![q1]);
    let dfa = builder.build().unwrap();
    assert!(dfa.accept(&chars("a")));
    assert!(!dfa.accept(&chars("b")));
    assert_eq!(dfa.storage().transition(q0, &'a'), Some(q1));
    assert_eq!(dfa.storage().transition(q0, &'b'), None);
}

#[test]
fn build_keeps_states_valid() {
    let dfa = simple_dfa();
    let storage = dfa.storage();
    assert!(storage.contains_state(dfa.start_state()));
    for q in dfa.accept_states() {
        assert!(storage.contains_state(q));
    }
    assert!(storage.contains_state(dfa.dead_state().unwrap()));
    assert!(!storage.contains_state(&4));
}

#[test]
fn storage_lists_states_and_alphabet() {
    let dfa = simple_dfa();
    assert_eq!(dfa.storage().all_states(), vec![0, 1, 2, 3]);
    assert_eq!(dfa.storage().alphabet().values(), vec!['a', 'b', 'c']);
    assert_eq!(dfa.storage().transition_unchecked(0, &'b'), 1);
}

#[test]
fn into_builder_round_trip() {
    let dfa = simple_dfa();
    let again = dfa.into_builder().build().unwrap();
    assert!(again.accept(&chars("abc")));
    assert!(!again.accept(&chars("cba")));
}

#[test]
fn error_messages() {
    assert_eq!(Error::MissingStartState.message(), "Start state was not specified.");
    assert_eq!(
        Error::OperationWithNonEqualAlphabets.message(),
        "Attempted to perform operation with two different alphabets."
    );
}

#[test]
fn accept_unchecked_agrees_on_total_dfa() {
    let dfa = total_simple_dfa();
    for s in ["", "abc", "cba", "aabbcc", "ccbbaa"] {
        assert_eq!(dfa.accept_unchecked(&chars(s)), dfa.accept(&chars(s)));
    }
    assert!(dfa.accept_unchecked(&chars("abbc")));
    assert!(!dfa.accept_unchecked(&chars("cab")));
}

#[test]
fn accept_unchecked_on_partial_dfa_with_defined_walks() {
    let dfa = simple_dfa();
    for s in ["", "abc", "aabb", "cbbbbcccc", "ccbbaa", "abcbaa"] {
        assert_eq!(dfa.accept_unchecked(&chars(s)), dfa.accept(&chars(s)), "{}", s);
    }
    assert!(dfa.accept_unchecked(&chars("abc")));
    assert!(!dfa.accept_unchecked(&chars("cbbbbcccc")));
}

#[test]
fn dfa_over_all_u64_values() {
    let mut builder = DFABuilder::new(Full::<u64>::new());
    let q0 = builder.new_state();
    let q1 = builder.new_state();
    builder
        .transitions(vec![(q0, 0, q1), (q0, u64::MAX, q0), (q1, 7, q0)])
        .unwrap();
    builder.start_state(q0).accept_states(vec![q1]);
    let dfa: DFA<Range<u64>, DefaultDFAStorage<Range<u64>>> = builder.build().unwrap();
    assert!(dfa.accept(&[u64::MAX, 0]));
    assert!(!dfa.accept(&[0, 7]));
    assert!(!dfa.accept(&[5]));
    assert_eq!(dfa.storage().alphabet().num_values(), None);
}
