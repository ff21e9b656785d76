use luther_redfa::range::Range;

#[test]
fn new_orders_bounds() {
    let r = Range::new('d', 'a');
    assert_eq!(r.start(), 'a');
    assert_eq!(r.end(), 'd');
    let s = Range::new(4u8, 9u8);
    assert_eq!(s.start(), 4);
    assert_eq!(s.end(), 9);
    let t = Range::new(7u8, 7u8);
    assert_eq!((t.start(), t.end()), (7, 7));
}

#[test]
fn coalesce_overlapping_and_adjacent() {
    let a = Range::new(1u8, 5u8);
    assert_eq!(a.coalesce(&Range::new(4u8, 9u8)), Ok(Range::new(1u8, 9u8)));
    assert_eq!(a.coalesce(&Range::new(6u8, 9u8)), Ok(Range::new(1u8, 9u8)));
    assert_eq!(Range::new(6u8, 9u8).coalesce(&a), Ok(Range::new(1u8, 9u8)));
}

#[test]
fn coalesce_nested_keeps_outer_end() {
    let a = Range::new(1u8, 20u8);
    assert_eq!(a.coalesce(&Range::new(4u8, 9u8)), Ok(Range::new(1u8, 20u8)));
    assert_eq!(Range::new(0u8, 3u8).coalesce(&Range::new(0u8, 1u8)), Ok(Range::new(0u8, 3u8)));
}

#[test]
fn coalesce_with_gap_fails() {
    let a = Range::new(1u8, 5u8);
    let b = Range::new(7u8, 9u8);
    assert_eq!(a.coalesce(&b), Err((a, b)));
    assert_eq!(b.coalesce(&a), Err((b, a)));
}
