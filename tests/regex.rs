use luther_redfa::range::Range;
use luther_redfa::regex::{RegexContext, RegexKind};

#[test]
fn empty_regex_has_kind_empty() {
    let ctx = RegexContext::<char>::new();

    let sut = ctx.empty();

    assert_eq!(sut.kind(), &RegexKind::Empty);
}

#[test]
fn class_regex_has_kind_class() {
    let ctx = RegexContext::new();
    let ranges = vec![Range::new('a', 'c'), Range::new('g', 'h')];

    let sut = ctx.class(ranges);

    assert!(matches!(sut.kind(), &RegexKind::Class(_)));
}

#[test]
fn class_regex_round_trips_simple_ranges() {
    let ctx = RegexContext::new();
    let expected = vec![Range::new('a', 'c'), Range::new('g', 'h')];

    let sut = ctx.class(expected.clone());

    match sut.kind() {
        RegexKind::Class(class) => {
            let ranges: Vec<Range<_>> = class.ranges();
            assert_eq!(ranges, expected);
        }
        _ => panic!("expected a class"),
    }
}

#[test]
fn class_round_trip_and_membership() {
    let ctx = RegexContext::new();
    let sut = ctx.class(vec![Range::new('B', 'C')]);
    match sut.kind() {
        RegexKind::Class(class) => {
            assert_eq!(class.ranges(), vec![Range::new('B', 'C')]);
            assert!(!class.contains(&'A'));
            assert!(class.contains(&'B'));
            assert!(class.contains(&'C'));
            assert!(!class.contains(&'D'));
            assert!(!class.contains(&'E'));
        }
        _ => panic!("expected a class"),
    }
}

#[test]
fn alteration_of_equal_classes_is_the_class() {
    let ctx = RegexContext::new();
    let a = ctx.class(vec![Range::new('a', 'c')]);
    let b = ctx.class(vec![Range::new('a', 'c')]);
    let alt = ctx.alteration(a.clone(), b);
    let single = ctx.class(vec![Range::new('a', 'c')]);
    assert_eq!(alt, single);
    assert_eq!(alt.kind(), single.kind());
}

#[test]
fn alteration_of_classes_merges() {
    let ctx = RegexContext::new();
    let a = ctx.class(vec![Range::new('a', 'c')]);
    let b = ctx.class(vec![Range::new('d', 'f')]);
    let alt = ctx.alteration(a, b);
    assert_eq!(alt, ctx.class(vec![Range::new('a', 'f')]));
}

#[test]
fn alteration_drops_nothing() {
    let ctx = RegexContext::<char>::new();
    let nothing = ctx.class(Vec::new());
    let e = ctx.empty();
    let alt = ctx.alteration(nothing, e);
    assert_eq!(alt.kind(), &RegexKind::Empty);
    let rep = ctx.repetition(ctx.class(vec![Range::new('x', 'y')]));
    let alt2 = ctx.alteration(rep.clone(), ctx.class(Vec::new()));
    assert_eq!(alt2, rep);
}

#[test]
fn and_of_classes_intersects() {
    let ctx = RegexContext::new();
    let a = ctx.class(vec![Range::new('a', 'm')]);
    let b = ctx.class(vec![Range::new('k', 'z')]);
    assert_eq!(ctx.and(a, b), ctx.class(vec![Range::new('k', 'm')]));
    let e = ctx.empty();
    let nothing = ctx.class(Vec::new());
    assert_eq!(ctx.and(nothing.clone(), e), nothing);
}

#[test]
fn concat_drops_empty_and_absorbs_nothing() {
    let ctx = RegexContext::new();
    let a = ctx.class(vec![Range::new('a', 'b')]);
    let e = ctx.empty();
    assert_eq!(ctx.concat(e.clone(), a.clone()), a);
    assert_eq!(ctx.concat(a.clone(), e), a);
    let nothing = ctx.class(Vec::new());
    assert_eq!(ctx.concat(a.clone(), nothing.clone()), nothing);
    let b = ctx.class(vec![Range::new('c', 'd')]);
    let ab = ctx.concat(a.clone(), b.clone());
    assert_eq!(ab.kind(), &RegexKind::Concat(a, b));
}

#[test]
fn repetition_is_idempotent() {
    let ctx = RegexContext::new();
    let a = ctx.class(vec![Range::new('a', 'b')]);
    let r = ctx.repetition(a.clone());
    assert_eq!(r.kind(), &RegexKind::Repetition(a));
    assert_eq!(ctx.repetition(r.clone()), r);
    assert_eq!(ctx.repetition(ctx.empty()).kind(), &RegexKind::Empty);
    assert_eq!(ctx.repetition(ctx.class(Vec::new())).kind(), &RegexKind::Empty);
}

#[test]
fn complement_of_complement_is_operand() {
    let ctx = RegexContext::new();
    let a = ctx.class(vec![Range::new('a', 'b')]);
    let c = ctx.complement(a.clone());
    assert_eq!(c.kind(), &RegexKind::Complement(a.clone()));
    assert_eq!(ctx.complement(c), a);
}

#[test]
fn alteration_is_order_independent() {
    let ctx = RegexContext::<char>::new();
    let e = ctx.empty();
    let c = ctx.complement(ctx.empty());
    assert_eq!(ctx.alteration(e.clone(), c.clone()), ctx.alteration(c.clone(), e.clone()));
    assert_eq!(ctx.alteration(e.clone(), c.clone()).kind(), &RegexKind::Alteration(e.clone(), c.clone()));
    assert_eq!(ctx.alteration(c.clone(), c.clone()), c);
}

#[test]
fn and_is_order_independent_and_idempotent() {
    let ctx = RegexContext::<char>::new();
    let e = ctx.empty();
    let r = ctx.repetition(ctx.class(vec![Range::new('a', 'b')]));
    assert_eq!(ctx.and(e.clone(), e.clone()), e);
    assert_eq!(ctx.and(r.clone(), e.clone()), ctx.and(e.clone(), r.clone()));
    assert_eq!(ctx.and(r.clone(), e.clone()).kind(), &RegexKind::And(e, r));
}

#[test]
fn double_complement_of_complement_node() {
    let ctx = RegexContext::<char>::new();
    let c = ctx.complement(ctx.empty());
    let cc = ctx.complement(c.clone());
    assert_eq!(cc.kind(), &RegexKind::Empty);
    assert_eq!(ctx.complement(cc), c);
}
