use core::cell::Cell;
use core::cmp::Ordering;
use regular::util::bit_set::{bit_width, blocks_for_bits};
use regular::util::set_partition::copy_within;
use regular::util::vec_set::{cmp_opt, difference_logic, intersection_logic, is_deduped, is_sorted};
use regular::util::{
    BlockIter, CartesianProductIter, Either, FixedBitSet, Join, SetPartitions, VecSet,
};
use regular::{DFABuilder, DFAStorage};

#[test]
fn flip_flop_join_iter() {
    let toggle = Cell::new(true);

    let lhs: Vec<i32> = (0..10).collect();
    let rhs: Vec<i32> = (10..20).collect();

    let mut join = Join::new(lhs, rhs, |left: &Vec<i32>, li: usize, right: &Vec<i32>, ri: usize| {
        let next = if toggle.get() {
            if li < left.len() { (Some(left[li]), li + 1, ri) } else { (None, li, ri) }
        } else if ri < right.len() {
            (Some(right[ri]), li, ri + 1)
        } else {
            (None, li, ri)
        };

        toggle.set(!toggle.get());

        next
    });
    let mut toggled: Vec<i32> = Vec::new();
    for _ in 0..9 {
        match join.next() {
            Some(x) => toggled.push(x),
            None => break,
        }
    }

    assert_eq!(toggled, &[0, 10, 1, 11, 2, 12, 3, 13, 4]);
}

fn set_of(items: &[usize]) -> VecSet {
    VecSet::from_slice(items)
}

#[test]
fn vec_set_keeps_ascending_without_repeats() {
    let mut s = set_of(&[5, 1, 3, 1, 9]);
    assert_eq!(s.as_slice(), &[1, 3, 5, 9]);
    assert!(s.insert(4));
    assert!(!s.insert(4));
    assert_eq!(s.as_slice(), &[1, 3, 4, 5, 9]);
    assert!(s.remove(&3));
    assert!(!s.remove(&3));
    assert!(s.contains(&9));
    assert!(!s.contains(&3));
    s.extend(vec![2, 9, 0]);
    assert_eq!(s.iter(), &[0, 1, 2, 4, 5, 9]);
    s.retain(|x| x % 2 == 0);
    assert_eq!(s.as_slice(), &[0, 2, 4]);
    s.clear();
    assert_eq!(s.as_slice(), &[] as &[usize]);
    assert_eq!(VecSet::default().as_slice(), VecSet::new().as_slice());
}

#[test]
fn vec_set_algebra() {
    let a = set_of(&[1, 2, 3, 5, 8]);
    let b = set_of(&[2, 3, 4, 8, 9]);
    assert_eq!(a.intersection(&b), vec![2, 3, 8]);
    assert_eq!(a.difference(&b), vec![1, 5]);
    assert_eq!(b.difference(&a), vec![4, 9]);
    assert_eq!(a.union(&b), vec![1, 2, 3, 4, 5, 8, 9]);
    assert_eq!(a.symmetric_difference(&b), vec![1, 4, 5, 9]);
    let empty = VecSet::new();
    assert_eq!(a.intersection(&empty), Vec::<usize>::new());
    assert_eq!(a.union(&empty), vec![1, 2, 3, 5, 8]);
    assert_eq!(empty.difference(&a), Vec::<usize>::new());
}

#[test]
fn join_logic_steps() {
    let l = [1usize, 4, 6, 9];
    let r = [2usize, 4, 9, 10];
    let (mut li, mut ri) = (0usize, 0usize);
    assert_eq!(intersection_logic(&l, &mut li, &r, &mut ri), Some(4));
    assert_eq!((li, ri), (2, 2));
    assert_eq!(intersection_logic(&l, &mut li, &r, &mut ri), Some(9));
    assert_eq!(intersection_logic(&l, &mut li, &r, &mut ri), None);
    let (mut li, mut ri) = (0usize, 0usize);
    assert_eq!(difference_logic(&l, &mut li, &r, &mut ri), Some(1));
    assert_eq!(difference_logic(&l, &mut li, &r, &mut ri), Some(6));
    assert_eq!(difference_logic(&l, &mut li, &r, &mut ri), None);
    assert_eq!(cmp_opt(None, Some(1), Ordering::Greater, Ordering::Less), Ordering::Greater);
    assert_eq!(cmp_opt(Some(1), None, Ordering::Greater, Ordering::Less), Ordering::Less);
    assert_eq!(cmp_opt(Some(3), Some(1), Ordering::Greater, Ordering::Less), Ordering::Greater);
    assert_eq!(cmp_opt(Some(1), Some(1), Ordering::Greater, Ordering::Less), Ordering::Equal);
}

#[test]
fn sorted_and_deduped_checks() {
    assert!(is_sorted(&[1, 1, 2, 5]));
    assert!(!is_sorted(&[1, 3, 2]));
    assert!(is_sorted(&[]));
    assert!(is_deduped(&[1, 2, 1]));
    assert!(!is_deduped(&[1, 2, 2, 3]));
}

#[test]
fn fixed_bit_set() {
    assert_eq!(bit_width::<u32>(), 32);
    assert_eq!(bit_width::<u8>(), 8);
    assert_eq!(blocks_for_bits::<u32>(0), 0);
    assert_eq!(blocks_for_bits::<u32>(32), 1);
    assert_eq!(blocks_for_bits::<u32>(33), 2);
    assert_eq!(blocks_for_bits::<u64>(65), 2);
    let mut bits = FixedBitSet::<u32>::new(40);
    assert_eq!(bits.len(), 40);
    assert_eq!(bits.block_len(), 2);
    assert!(!bits.is_empty());
    assert!(FixedBitSet::<u32>::new(0).is_empty());
    assert_eq!(bits.get(3), Some(false));
    assert!(bits.set(3));
    assert!(bits.set(35));
    assert!(!bits.set(40));
    assert_eq!(bits.get(3), Some(true));
    assert_eq!(bits.get(40), None);
    assert!(bits.contains(&35));
    assert!(!bits.contains(&36));
    assert_eq!(bits.iter(), vec![3, 35]);
    assert!(bits.clear(3));
    assert!(!bits.clear(41));
    assert_eq!(bits.iter(), vec![35]);
    let mut more = FixedBitSet::<u32>::new(40);
    more.set(35);
    more.set(1);
    assert!(bits.is_subset(&more));
    assert!(!more.is_subset(&bits));
    let mut zero = FixedBitSet::<u32>::new(2);
    let mut one = FixedBitSet::<u32>::new(2);
    zero.set(0);
    one.set(1);
    assert!(!zero.is_subset(&one));
    assert!(!one.is_subset(&zero));
    assert!(zero.is_subset(&zero));
    assert!(FixedBitSet::<u32>::new(2).is_subset(&one));
}

#[test]
fn block_iter_takes_lowest_bit_first() {
    let mut it = BlockIter(0b1010_0100u32);
    assert_eq!(it.next(), Some(2));
    assert_eq!(it.next(), Some(5));
    assert_eq!(it.next(), Some(7));
    assert_eq!(it.next(), None);
    let mut top = BlockIter(1u32 << 31);
    assert_eq!(top.next(), Some(31));
    assert_eq!(top.next(), None);
}

#[test]
fn cartesian_product_pairs_in_order() {
    let mut it = CartesianProductIter::new(vec![1, 2], vec!['x', 'y', 'z']);
    let mut out = Vec::new();
    while let Some(p) = it.next() {
        out.push(p);
    }
    assert_eq!(out, vec![(1, 'x'), (1, 'y'), (1, 'z'), (2, 'x'), (2, 'y'), (2, 'z')]);
    let mut none = CartesianProductIter::new(vec![1, 2], Vec::<char>::new());
    assert_eq!(none.next(), None);
}

#[test]
fn set_iter_walks_block_ascending() {
    let (set, mut partitions) = SetPartitions::new(6);
    partitions.mark(5);
    partitions.mark(2);
    let mut it = partitions.set_iter(set);
    let mut out = Vec::new();
    while let Some(x) = it.next() {
        out.push(x);
    }
    assert_eq!(out, vec![0, 1, 2, 3, 4, 5, 6]);
}

#[test]
fn copy_within_moves_like_memmove() {
    let mut v = vec![0, 1, 2, 3, 4, 5];
    copy_within(&mut v, 1, 4, 2);
    assert_eq!(v, vec![0, 1, 1, 2, 3, 5]);
    let mut w = vec![0, 1, 2, 3, 4, 5];
    copy_within(&mut w, 3, 6, 0);
    assert_eq!(w, vec![3, 4, 5, 3, 4, 5]);
}

#[test]
fn either_holds_one_side() {
    let l: Either<u8, char> = Either::Left(3);
    let r: Either<u8, char> = Either::Right('a');
    assert_ne!(l, r);
    assert!(l < r);
}

#[test]
fn storage_lists_all_transitions() {
    let mut builder = DFABuilder::new('a'..='b');
    let q0 = builder.new_state();
    let q1 = builder.new_state();
    builder.transitions(vec![(q0, 'a', q1), (q1, 'b', q0)]).unwrap();
    builder.start_state(q0);
    let dfa = builder.build().unwrap();
    let mut ts = dfa.storage().all_transitions();
    ts.sort();
    assert_eq!(ts, vec![(0, 'a', 1), (1, 'b', 0)]);
}

#[test]
fn vec_set_from_sorted_slice() {
    let s = VecSet::from_slice_unchecked(&[1, 4, 7]);
    assert_eq!(s.as_slice(), &[1, 4, 7]);
    assert!(s.contains(&4));
    assert!(!s.contains(&5));
}

#[test]
fn fixed_bit_set_with_byte_blocks() {
    let mut bits = FixedBitSet::<u8>::new(20);
    assert_eq!(bits.block_len(), 3);
    assert!(bits.set(0));
    assert!(bits.set(9));
    assert!(bits.set(19));
    assert!(!bits.set(20));
    assert_eq!(bits.iter(), vec![0, 9, 19]);
    assert!(bits.clear(9));
    assert_eq!(bits.get(9), Some(false));
    let mut all = FixedBitSet::<u8>::new(20);
    for i in 0..20 {
        all.set(i);
    }
    assert!(bits.is_subset(&all));
    assert!(!all.is_subset(&bits));
    let mut it = BlockIter(0b1000_0001u8);
    assert_eq!(it.next(), Some(0));
    assert_eq!(it.next(), Some(7));
    assert_eq!(it.next(), None);
}
