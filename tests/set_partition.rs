use regular::util::SetPartitions;

#[test]
fn create_set_partition() {
    let (default_set, partitions): (usize, SetPartitions) = SetPartitions::new(7);

    assert_eq!(partitions.size(default_set), 8);
    assert_eq!(partitions.set(0), default_set);
}

#[test]
fn create_single_unit_partition() {
    let (default_set, mut partitions): (usize, SetPartitions) = SetPartitions::new(7);

    assert!(partitions.no_marks(default_set));
    partitions.mark(3);
    assert!(!partitions.no_marks(default_set));
    assert_eq!(partitions.set(3), default_set);

    let new_set = partitions.split(default_set).unwrap();
    assert!(partitions.no_marks(new_set));
    assert_eq!(partitions.set(3), new_set);
    assert_eq!(partitions.size(new_set), 1);
    assert_eq!(partitions.size(default_set), 7);
}

#[test]
fn create_single_large_partition() {
    let (default_set, mut partitions): (usize, SetPartitions) = SetPartitions::new(7);

    partitions.mark(3);
    partitions.mark(7);
    partitions.mark(2);
    partitions.mark(0);

    assert_eq!(partitions.size(default_set), 8);
    let new_set = partitions.split(default_set).unwrap();
    assert!(partitions.no_marks(new_set));
    assert!(partitions.no_marks(default_set));
    assert_eq!(partitions.size(default_set), 4);
    assert_eq!(partitions.size(new_set), 4);
}

#[test]
fn create_multiple_large_partitions() {
    let (set_a, mut partitions): (usize, SetPartitions) = SetPartitions::new(8);

    partitions.mark(3);
    partitions.mark(7);
    partitions.mark(2);

    assert!(!partitions.no_marks(set_a));
    assert_eq!(partitions.size(set_a), 9);

    let set_b = partitions.split(set_a).unwrap();

    assert!(partitions.no_marks(set_b));
    assert!(partitions.no_marks(set_a));
    assert_eq!(partitions.size(set_a), 6);
    assert_eq!(partitions.size(set_b), 3);

    partitions.mark(1);
    partitions.mark(4);
    partitions.mark(8);

    let set_c = partitions.split(set_a).unwrap();

    assert!(partitions.no_marks(set_c));
    assert!(partitions.no_marks(set_a));
    assert_eq!(partitions.size(set_a), 3);
    assert_eq!(partitions.size(set_c), 3);
}

#[test]
fn create_nested_partitions() {
    let (set_a, mut partitions): (usize, SetPartitions) = SetPartitions::new(9);

    partitions.mark(3);
    partitions.mark(7);
    partitions.mark(1);
    partitions.mark(5);
    partitions.mark(9);

    assert!(!partitions.no_marks(set_a));
    assert_eq!(partitions.size(set_a), 10);
    let set_b = partitions.split(set_a).unwrap();
    assert_eq!(partitions.size(set_a), 5);
    assert_eq!(partitions.size(set_b), 5);

    partitions.mark(1);
    partitions.mark(9);

    let set_c = partitions.split(set_b).unwrap();
    assert_eq!(partitions.size(set_a), 5);
    assert_eq!(partitions.size(set_b), 3);
    assert_eq!(partitions.size(set_c), 2);
}

#[test]
fn marked_part_is_kept_ascending() {
    let (set, mut partitions) = SetPartitions::new(7);
    partitions.mark(7);
    partitions.mark(3);
    partitions.mark(5);
    assert_eq!(partitions.marked_slice(set), &[3, 5, 7]);
    assert_eq!(partitions.unmarked_slice(set), &[0, 1, 2, 4, 6]);
    partitions.mark(3);
    assert_eq!(partitions.marked_slice(set), &[3, 5, 7]);
    let new_set = partitions.split(set).unwrap();
    assert_eq!(partitions.unmarked_slice(new_set), &[3, 5, 7]);
    assert_eq!(partitions.unmarked_slice(set), &[0, 1, 2, 4, 6]);
    assert_eq!(partitions.num_partitions(), 2);
}

#[test]
fn split_without_marks_or_with_all_marked_keeps_block() {
    let (set, mut partitions) = SetPartitions::new(2);
    assert_eq!(partitions.split(set), None);
    partitions.mark(0);
    partitions.mark(1);
    partitions.mark(2);
    assert_eq!(partitions.split(set), None);
    assert!(partitions.no_marks(set));
    assert_eq!(partitions.size(set), 3);
    assert_eq!(partitions.num_partitions(), 1);
    // The block can be marked and split again afterwards.
    partitions.mark(1);
    let other = partitions.split(set).unwrap();
    assert_eq!(partitions.size(other), 1);
    assert_eq!(partitions.set(1), other);
}

#[test]
fn mark_moves_item_into_marked_part() {
    let (set, mut partitions) = SetPartitions::new(5);
    partitions.mark(4);
    partitions.mark(1);
    assert_eq!(partitions.marked_slice(set), &[1, 4]);
    assert_eq!(partitions.unmarked_slice(set), &[0, 2, 3, 5]);
    partitions.mark(4);
    assert_eq!(partitions.marked_slice(set), &[1, 4]);
    assert_eq!(partitions.unmarked_slice(set), &[0, 2, 3, 5]);
    let new_set = partitions.split(set).unwrap();
    assert_eq!(partitions.set(1), new_set);
    assert_eq!(partitions.set(4), new_set);
    assert_eq!(partitions.set(0), set);
    assert_eq!(partitions.unmarked_slice(new_set), &[1, 4]);
    assert!(partitions.no_marks(new_set));
}
