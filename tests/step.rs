use regular::alphabet::{Alphabet, Full, IntoAlphabet};
use regular::util::{Bounded, Range, Step};

#[test]
fn char_steps_between_sanity() {
    assert_eq!(Step::steps_between(&'a', &'z'), Some(25));
    assert_eq!(Step::steps_between(&'\u{D7FF}', &'\u{E000}'), Some(1));
    assert_eq!(Step::steps_between(&'z', &'a'), None);
}

#[test]
fn char_successor_and_predecessor() {
    assert_eq!(Step::predecessor(&Step::successor(&'\u{D7FF}')), '\u{D7FF}');
    assert_eq!(Step::successor(&'a'), 'b');
    assert_eq!(Step::predecessor(&'b'), 'a');

    assert_eq!(Step::successor(&'\u{D7FF}'), '\u{E000}');
    assert_eq!(Step::predecessor(&'\u{E000}'), '\u{D7FF}');

    assert_eq!(Step::successor_saturating(&'a'), 'b');
    assert_eq!(Step::successor_saturating(&core::char::MAX), core::char::MAX);
    assert_eq!(Step::predecessor_saturating(&'z'), 'y');
    assert_eq!(Step::predecessor_saturating(&(0 as char)), (0 as char));
}

#[test]
fn char_forward_backward_and_steps_between_agree() {
    let num_valid_chars = core::iter::successors(Some(0 as char), |n| Step::forward(n, 1)).count();
    let num_valid_chars_back =
        core::iter::successors(Some(core::char::MAX), |n| Step::backward(n, 1)).count();

    assert_eq!(num_valid_chars, 1112063 + 1);
    assert_eq!(num_valid_chars_back, 1112063 + 1);
    assert_eq!(Step::steps_between(&'\u{0}', &core::char::MAX), Some(1112063));
}

#[test]
fn char_multi_step_jumps_skip_the_surrogates_once() {
    assert_eq!(Step::forward(&'\u{0}', 0xD800), Some('\u{E000}'));
    assert_eq!(Step::forward(&'\u{0}', 0xE000), Some('\u{E800}'));
    assert_eq!(Step::forward(&'\u{D7F0}', 0x20), Some('\u{E010}'));
    assert_eq!(Step::backward(&'\u{E800}', 0xE000), Some('\u{0}'));
    assert_eq!(Step::backward(&'\u{E010}', 0x20), Some('\u{D7F0}'));
    assert_eq!(Step::forward(&core::char::MAX, 1), None);
    assert_eq!(Step::backward(&'\u{5}', 6), None);
    assert_eq!(Step::forward(&'a', 0), Some('a'));
}

#[test]
fn integer_steps() {
    assert_eq!(Step::steps_between(&3u8, &250u8), Some(247));
    assert_eq!(Step::forward(&250u8, 5), Some(255));
    assert_eq!(Step::forward(&250u8, 6), None);
    assert_eq!(Step::backward(&5u8, 6), None);
    assert_eq!(Step::forward(&-120i8, 200), Some(80));
    assert_eq!(Step::backward(&100i8, 228), Some(-128));
    assert_eq!(Step::steps_between(&i64::MIN, &i64::MAX), Some(u64::MAX as usize));
    assert_eq!(Step::steps_between(&5i32, &-5i32), None);
    assert_eq!(Step::successor_saturating(&u32::MAX), u32::MAX);
    assert_eq!(Step::predecessor_saturating(&i16::MIN), i16::MIN);
    assert_eq!(Step::successor(&41u64), 42);
    assert_eq!(Step::predecessor(&0i32), -1);
    assert_eq!(<u16 as Bounded>::max_value(), u16::MAX);
    assert_eq!(<char as Bounded>::min_value(), '\0');
}

#[test]
fn range_contains_and_iterates() {
    let r = Range::NonEmpty { start: 'x', end: 'z' };
    assert!(r.contains('y'));
    assert!(!r.contains('a'));
    assert!(!Range::<char>::Empty.contains('a'));
    let mut it = r;
    assert_eq!(it.next(), Some('x'));
    assert_eq!(it.next(), Some('y'));
    assert_eq!(it.next(), Some('z'));
    assert_eq!(it.next(), None);
    let mut top = Range::NonEmpty { start: 254u8, end: 255u8 };
    assert_eq!(top.next(), Some(254));
    assert_eq!(top.next(), Some(255));
    assert_eq!(top.next(), None);
}

#[test]
fn range_alphabet() {
    let r = Range::NonEmpty { start: 'a', end: 'c' };
    assert_eq!(r.values(), vec!['a', 'b', 'c']);
    assert_eq!(r.num_values(), Some(3));
    assert_eq!(r.index_of(&'c'), Some(2));
    assert_eq!(r.index_of(&'d'), None);
    assert!(Alphabet::contains(&r, &'b'));
    assert_eq!(Range::<char>::Empty.num_values(), Some(0));
    assert_eq!(Range::<char>::Empty.values(), Vec::<char>::new());
    assert!(r.same_alphabet(&('a'..='c').into_alphabet()));
    assert!(!r.same_alphabet(&('a'..'c').into_alphabet()));
    let full = Full::<u8>::new().into_alphabet();
    assert_eq!(full.num_values(), Some(256));
    let all_chars = Full::<char>::new().into_alphabet();
    assert_eq!(all_chars.num_values(), Some(1112064));
    assert!(matches!((5u8..5u8).into_alphabet().num_values(), Some(0)));
    assert!(matches!((0u8..0u8).into_alphabet(), Range::Empty));
}
