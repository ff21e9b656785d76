use luther_redfa::partition_map::PartitionMap;
use luther_redfa::range::Range;

#[test]
fn map_new_gives_inside_and_outside() {
    let m = PartitionMap::new(Range::new(10u8, 20u8), 'i', 'o');
    assert_eq!(*m.get(&0), 'o');
    assert_eq!(*m.get(&9), 'o');
    assert_eq!(*m.get(&10), 'i');
    assert_eq!(*m.get(&20), 'i');
    assert_eq!(*m.get(&21), 'o');
    assert_eq!(*m.get(&255), 'o');
    assert_eq!(m.lower_bounds(), vec![(0u8, 'o'), (10u8, 'i'), (21u8, 'o')]);
}

#[test]
fn map_new_at_alphabet_edges() {
    let m = PartitionMap::new(Range::new(0u8, 255u8), 1u32, 2u32);
    assert_eq!(m.lower_bounds(), vec![(0u8, 1u32)]);
    let n = PartitionMap::new(Range::new(200u8, 255u8), 1u32, 2u32);
    assert_eq!(n.lower_bounds(), vec![(0u8, 2u32), (200u8, 1u32)]);
}

#[test]
fn map_new_with_equal_values_is_one_segment() {
    let m = PartitionMap::new(Range::new(10u8, 20u8), 5u32, 5u32);
    assert_eq!(m.lower_bounds(), vec![(0u8, 5u32)]);
}

#[test]
fn map_union_and_complement() {
    let a = PartitionMap::new(Range::new(10u8, 20u8), true, false);
    let b = PartitionMap::new(Range::new(21u8, 30u8), true, false);
    let u = a.union(&b);
    assert_eq!(u.lower_bounds(), vec![(0u8, false), (10u8, true), (31u8, false)]);
    let c = u.complement();
    assert_eq!(c.lower_bounds(), vec![(0u8, true), (10u8, false), (31u8, true)]);
    assert!(!c.is_complement_empty());
    assert!(c.union(&u).is_complement_empty());
    assert_eq!(u.true_ranges(), vec![Range::new(10u8, 30u8)]);
}

#[test]
fn map_constant_holds_everywhere() {
    let m: PartitionMap<char, u8> = PartitionMap::constant(9);
    assert_eq!(*m.get(&'\0'), 9);
    assert_eq!(*m.get(&'z'), 9);
    assert_eq!(*m.get(&'\u{10FFFF}'), 9);
}

#[test]
fn map_from_lower_bounds_merges_equal_neighbours() {
    let m = PartitionMap::from_lower_bounds(vec![(0u8, 1u32), (10u8, 1u32), (20u8, 2u32), (30u8, 1u32)]);
    assert_eq!(m.lower_bounds(), vec![(0u8, 1u32), (20u8, 2u32), (30u8, 1u32)]);
    assert_eq!(*m.get(&15), 1);
    assert_eq!(*m.get(&25), 2);
    assert_eq!(*m.get(&255), 1);
}
