use luther_redfa::partition_set::{ElementStatus, PartitionSet};
use luther_redfa::range::Range;

#[test]
fn partition_set_into_map_gets_expected_values() {
    let sut = PartitionSet::from_iter(vec![Range::new('B', 'C')]);
    let map = sut.into_map(0, 1);

    assert_eq!(*map.get(&'A'), 1);
    assert_eq!(*map.get(&'B'), 0);
    assert_eq!(*map.get(&'C'), 0);
    assert_eq!(*map.get(&'D'), 1);
    assert_eq!(*map.get(&'E'), 1);
}

#[test]
fn partition_set_contains_expected_values() {
    let range = vec![Range::new('B', 'C')];

    let sut = PartitionSet::from_iter(range);

    assert!(!sut.contains(&'A'));
    assert!(sut.contains(&'B'));
    assert!(sut.contains(&'C'));
    assert!(!sut.contains(&'D'));
    assert!(!sut.contains(&'E'));
}

#[test]
fn partition_set_from_empty_ranges_is_empty() {
    let range: Vec<Range<u8>> = Vec::new();

    let sut: PartitionSet<u8> = PartitionSet::from_iter(range);

    assert_eq!(sut.ranges().len(), 0);
}

#[test]
fn partition_set_full_singleton_contains_all_values() {
    let sut = PartitionSet::full_singleton();

    assert!(sut.contains(&'A'));
    assert!(sut.contains(&'B'));
    assert!(sut.contains(&'C'));
    assert!(sut.contains(&'D'));
    assert!(sut.contains(&'E'));
}

#[test]
fn partition_set_complement_of_empty_is_complement_empty() {
    let range: Vec<Range<char>> = Vec::new();

    let sut: PartitionSet<char> = PartitionSet::from_iter(range);
    let complement = sut.complement();

    assert!(complement.is_complement_empty());
}

#[test]
fn partition_set_union_iterates_expected_values() {
    let set1 = PartitionSet::from_iter(vec![Range::new('B', 'C')]);
    let set2 = PartitionSet::from_iter(vec![Range::new('C', 'D')]);

    let sut = set1.union(&set2);
    let results: Vec<_> = sut.ranges();

    assert_eq!(results.len(), 1);
    assert_eq!(results[0], Range::new('B', 'D'));
}

#[test]
fn empty_input_is_not_complement_empty() {
    let sut: PartitionSet<char> = PartitionSet::from_iter(Vec::new());
    assert_eq!(sut.ranges().len(), 0);
    assert!(!sut.is_complement_empty());
    assert!(sut.is_empty());
    assert_eq!(sut, PartitionSet::empty());
}

#[test]
fn full_singleton_holds_alphabet_edges() {
    let sut: PartitionSet<u8> = PartitionSet::full_singleton();
    assert!(sut.contains(&0));
    assert!(sut.contains(&255));
    assert!(sut.is_complement_empty());
    assert_eq!(sut.ranges(), vec![Range::new(0u8, 255u8)]);
    let c: PartitionSet<char> = PartitionSet::full_singleton();
    assert!(c.contains(&'\0'));
    assert!(c.contains(&'\u{10FFFF}'));
    assert_eq!(c.ranges(), vec![Range::new('\0', '\u{10FFFF}')]);
}

#[test]
fn union_is_commutative() {
    let s = PartitionSet::from_iter(vec![Range::new(3u8, 9u8), Range::new(40u8, 50u8)]);
    let t = PartitionSet::from_iter(vec![Range::new(7u8, 20u8), Range::new(0u8, 1u8)]);
    assert_eq!(s.union(&t), t.union(&s));
    assert_eq!(
        s.union(&t).ranges(),
        vec![Range::new(0u8, 1u8), Range::new(3u8, 20u8), Range::new(40u8, 50u8)]
    );
}

#[test]
fn double_complement_is_identity() {
    let s = PartitionSet::from_iter(vec![Range::new('b', 'f'), Range::new('x', 'z')]);
    assert_eq!(s.complement().complement(), s);
    assert_eq!(
        s.complement().ranges(),
        vec![
            Range::new('\0', 'a'),
            Range::new('g', 'w'),
            Range::new('{', '\u{10FFFF}')
        ]
    );
}

#[test]
fn union_with_complement_is_full() {
    let s = PartitionSet::from_iter(vec![Range::new(10u8, 20u8)]);
    let u = s.union(&s.complement());
    assert!(u.is_complement_empty());
    assert_eq!(u, PartitionSet::full_singleton());
}

#[test]
fn construction_order_does_not_matter() {
    let r1 = Range::new('k', 'm');
    let r2 = Range::new('a', 'c');
    let a = PartitionSet::from_iter(vec![r1, r2]);
    let b = PartitionSet::from_iter(vec![r2, r1]);
    assert_eq!(a, b);
    assert_eq!(a.ranges(), vec![r2, r1]);
}

#[test]
fn adjacent_ranges_merge_on_construction() {
    let a = PartitionSet::from_iter(vec![Range::new(5u8, 9u8), Range::new(10u8, 12u8)]);
    assert_eq!(a.ranges(), vec![Range::new(5u8, 12u8)]);
    let b = PartitionSet::from_iter(vec![Range::new(5u8, 9u8), Range::new(11u8, 12u8)]);
    assert_eq!(b.ranges(), vec![Range::new(5u8, 9u8), Range::new(11u8, 12u8)]);
}

#[test]
fn surrogate_gap_is_adjacent() {
    let a = PartitionSet::from_iter(vec![
        Range::new('a', '\u{D7FF}'),
        Range::new('\u{E000}', '\u{E010}'),
    ]);
    assert_eq!(a.ranges(), vec![Range::new('a', '\u{E010}')]);
}

#[test]
fn intersection_keeps_common_members() {
    let s = PartitionSet::from_iter(vec![Range::new(3u8, 9u8)]);
    let t = PartitionSet::from_iter(vec![Range::new(7u8, 20u8)]);
    assert_eq!(s.intersection(&t).ranges(), vec![Range::new(7u8, 9u8)]);
    let u = PartitionSet::from_iter(vec![Range::new(30u8, 40u8)]);
    assert!(s.intersection(&u).is_empty());
}

#[test]
fn into_map_with_equal_values_is_constant() {
    let s = PartitionSet::from_iter(vec![Range::new(3u8, 9u8)]);
    let m = s.into_map(7u32, 7u32);
    assert_eq!(*m.get(&0), 7);
    assert_eq!(*m.get(&5), 7);
    assert_eq!(*m.get(&255), 7);
}

#[test]
fn lower_bounds_carry_status() {
    let s = PartitionSet::from_iter(vec![Range::new(3u8, 9u8)]);
    let b = s.lower_bound_iter();
    assert_eq!(b.len(), 3);
    assert_eq!(b[0], (0u8, ElementStatus::Excluded));
    assert_eq!(b[1], (3u8, ElementStatus::Included));
    assert_eq!(b[2], (10u8, ElementStatus::Excluded));
    let f: PartitionSet<u8> = PartitionSet::from_iter(vec![Range::new(0u8, 255u8)]);
    assert_eq!(f.lower_bound_iter(), vec![(0u8, ElementStatus::Included)]);
}
