use vstd::prelude::*;

use crate::alphabet::Alphabet;
use crate::partition_map::{PartitionMap, seg_cmp, eq_is_structural, lemma_canonical, value_at, ranges_cover, ranges_separated};
use crate::range::Range;

verus! {

/// The positions of every element of the alphabet `U`.
pub open spec fn universe<U: Alphabet>() -> Set<int> {
    Set::new(|p: int| U::min_pos() <= p <= U::max_pos())
}

/// The positions that some range of `rs` holds.
pub open spec fn ranges_union<U: Alphabet>(rs: Seq<Range<U>>) -> Set<int> {
    Set::new(|p: int| U::min_pos() <= p <= U::max_pos() && ranges_cover(rs, p))
}

/// Whether a segment's elements are in the set or not.
#[derive(Clone, Copy, Debug, PartialEq, Eq)]
pub enum ElementStatus {
    Included,
    Excluded,
}

/// A set of elements of the alphabet `U`, kept as a minimal partition of
/// the alphabet into members and non-members.
#[derive(Clone, Debug, PartialEq, Eq)]
pub struct PartitionSet<U: Alphabet> {
    map: PartitionMap<U, bool>,
}

impl<U: Alphabet> PartitionSet<U> {
    /// The underlying membership map.
    pub closed spec fn spec_map(&self) -> PartitionMap<U, bool> {
        self.map
    }

    /// The membership map is well formed and minimal.
    pub open spec fn wf(&self) -> bool {
        self.spec_map().wf() && self.spec_map().is_minimal()
    }

    /// The positions of the members.
    pub open spec fn view(&self) -> Set<int> {
        Set::new(|p: int| U::min_pos() <= p <= U::max_pos() && self.spec_map().value_of(p))
    }

    /// The two sets have identical representations, so that they compare
    /// equal.
    pub open spec fn same_as(&self, other: &Self) -> bool {
        self.spec_map().segments() == other.spec_map().segments()
    }

    /// The set of every element.
    pub fn full_singleton() -> (r: Self)
        ensures
            r.wf(),
            r@ == universe::<U>(),
    {
        let r = PartitionSet { map: PartitionMap::constant(true) };
        assert(r@ =~= universe::<U>());
        r
    }

    /// The set of no element.
    pub fn empty() -> (r: Self)
        ensures
            r.wf(),
            r@ == Set::<int>::empty(),
    {
        let r = PartitionSet { map: PartitionMap::constant(false) };
        assert(r@ =~= Set::<int>::empty());
        r
    }

    /// The set of the elements of one range.
    pub fn from_range(range: Range<U>) -> (r: Self)
        requires
            range.wf(),
        ensures
            r.wf(),
            r@ == Set::new(|p: int| U::min_pos() <= p <= U::max_pos() && range.covers(p)),
    {
        let r = PartitionSet { map: PartitionMap::new(range, true, false) };
        assert(r@ =~= Set::new(|p: int| U::min_pos() <= p <= U::max_pos() && range.covers(p)));
        r
    }

    /// Whether `u` is a member.
    pub fn contains(&self, u: &U) -> (r: bool)
        requires
            self.wf(),
        ensures
            r == self@.contains(u.pos()),
    {
        proof {
            U::lemma_pos_bounds(*u);
        }
        *self.map.get(u)
    }

    /// Whether every element is a member, so that the complement is empty.
    pub fn is_complement_empty(&self) -> (r: bool)
        requires
            self.wf(),
        ensures
            r == (self@ == universe::<U>()),
    {
        let r = self.map.is_complement_empty();
        proof {
            if r {
                assert(self@ =~= universe::<U>());
            } else if self@ == universe::<U>() {
                assert forall|p: int| U::min_pos() <= p <= U::max_pos() implies #[trigger] self.spec_map().value_of(p) by {
                    assert(universe::<U>().contains(p));
                }
            }
        }
        r
    }

    /// Whether the set has no member.
    pub fn is_empty(&self) -> (r: bool)
        requires
            self.wf(),
        ensures
            r == (self@ == Set::<int>::empty()),
    {
        let r = self.complement().is_complement_empty();
        proof {
            if r {
                assert forall|p: int| !self@.contains(p) by {
                    assert(universe::<U>().contains(p) ==> universe::<U>().difference(self@).contains(p));
                }
                assert(self@ =~= Set::<int>::empty());
            } else if self@ == Set::<int>::empty() {
                assert(universe::<U>().difference(self@) =~= universe::<U>());
            }
        }
        r
    }

    /// The members of both sets.
    pub fn intersection(&self, other: &PartitionSet<U>) -> (r: PartitionSet<U>)
        requires
            self.wf(),
            other.wf(),
        ensures
            r.wf(),
            r@ == self@.intersect(other@),
    {
        let r = self.complement().union(&other.complement()).complement();
        assert(r@ =~= self@.intersect(other@));
        r
    }

    /// Compares the representations of two sets as `seg_cmp` does.
    pub fn compare(&self, other: &PartitionSet<U>) -> (r: i8)
        ensures
            r as int == seg_cmp(self.spec_map().segments(), other.spec_map().segments()),
    {
        self.map.compare(&other.map)
    }

    /// The members of either set.
    pub fn union(&self, other: &PartitionSet<U>) -> (r: PartitionSet<U>)
        requires
            self.wf(),
            other.wf(),
        ensures
            r.wf(),
            r@ == self@.union(other@),
    {
        let r = PartitionSet { map: self.map.union(&other.map) };
        assert(r@ =~= self@.union(other@));
        r
    }

    /// The elements that are not members.
    pub fn complement(&self) -> (r: PartitionSet<U>)
        requires
            self.wf(),
        ensures
            r.wf(),
            r@ == universe::<U>().difference(self@),
    {
        let r = PartitionSet { map: self.map.complement() };
        assert(r@ =~= universe::<U>().difference(self@));
        r
    }

    /// A map with the set's bounds that gives `in_value` to members and
    /// `out_value` to the rest.
    pub fn into_map<V: Copy + PartialEq>(&self, in_value: V, out_value: V) -> (r: PartitionMap<U, V>)
        requires
            self.wf(),
            eq_is_structural::<V>(),
        ensures
            r.wf(),
            r.is_minimal(),
            forall|p: int|
                U::min_pos() <= p <= U::max_pos() ==> r.value_of(p) == if self@.contains(p) {
                    in_value
                } else {
                    out_value
                },
    {
        if in_value == out_value {
            let r = PartitionMap::constant(in_value);
            return r;
        }
        self.map.relabel(in_value, out_value)
    }

    /// Each lower bound of the partition with the status of its segment.
    pub fn lower_bound_iter(&self) -> (r: Vec<(U, ElementStatus)>)
        requires
            self.wf(),
        ensures
            r@.len() == self.spec_map().segments().len(),
            forall|k: int|
                0 <= k < r@.len() ==> (#[trigger] r@[k]).0 == self.spec_map().segments()[k].0 && (
                r@[k].1 is Included <==> self.spec_map().segments()[k].1),
    {
        let m = self.map.relabel(ElementStatus::Included, ElementStatus::Excluded);
        m.lower_bounds()
    }

    /// The maximal runs of members, ascending, neither overlapping nor
    /// touching.
    pub fn ranges(&self) -> (r: Vec<Range<U>>)
        requires
            self.wf(),
        ensures
            ranges_separated(r@),
            self@ == ranges_union(r@),
    {
        let r = self.map.true_ranges();
        assert(self@ =~= ranges_union(r@));
        r
    }

    /// The set of the elements that some range of `ranges` holds; the order
    /// of the ranges does not matter.
    pub fn from_iter(ranges: Vec<Range<U>>) -> (r: PartitionSet<U>)
        requires
            forall|k: int| 0 <= k < ranges@.len() ==> (#[trigger] ranges@[k]).wf(),
        ensures
            r.wf(),
            r@ == ranges_union(ranges@),
    {
        let mut acc = PartitionSet::empty();
        let mut k: usize = 0;
        while k < ranges.len()
            invariant
                0 <= k <= ranges@.len(),
                forall|m: int| 0 <= m < ranges@.len() ==> (#[trigger] ranges@[m]).wf(),
                acc.wf(),
                acc@ == ranges_union(ranges@.take(k as int)),
            decreases ranges@.len() - k,
        {
            let one = PartitionSet::from_range(ranges[k]);
            acc = acc.union(&one);
            proof {
                let t = ranges@.take(k + 1);
                assert forall|p: int| ranges_cover(t, p) <==> ranges_cover(ranges@.take(k as int), p) || ranges@[k as int].covers(p) by {
                    if ranges_cover(t, p) {
                        let m = choose|m: int| 0 <= m < t.len() && #[trigger] t[m].covers(p);
                        if m < k {
                            assert(ranges@.take(k as int)[m] == t[m]);
                        }
                    }
                    if ranges_cover(ranges@.take(k as int), p) {
                        let m = choose|m: int| 0 <= m < k && #[trigger] ranges@.take(k as int)[m].covers(p);
                        assert(t[m] == ranges@.take(k as int)[m]);
                    }
                    if ranges@[k as int].covers(p) {
                        assert(t[k as int] == ranges@[k as int]);
                    }
                }
                assert(acc@ =~= ranges_union(t));
            }
            k = k + 1;
        }
        assert(ranges@.take(ranges@.len() as int) =~= ranges@);
        acc
    }
}

/// Well-formed sets with the same members have identical representations,
/// so that equal sets compare equal.
pub proof fn lemma_set_canonical<U: Alphabet>(a: PartitionSet<U>, b: PartitionSet<U>)
    requires
        a.wf(),
        b.wf(),
        a@ == b@,
    ensures
        a.same_as(&b),
{
    assert forall|p: int| U::min_pos() <= p <= U::max_pos() implies value_at(a.spec_map().segments(), p)
        == value_at(b.spec_map().segments(), p) by {
        assert(a@.contains(p) == b@.contains(p));
        assert(a@.contains(p) == a.spec_map().value_of(p));
        assert(b@.contains(p) == b.spec_map().value_of(p));
    }
    lemma_canonical(a.spec_map().segments(), b.spec_map().segments());
}

/// Union is commutative: the union of `s` with `t` and that of `t` with `s`
/// are the same set, with the same representation.
pub proof fn law_union_commutative<U: Alphabet>(
    s: PartitionSet<U>,
    t: PartitionSet<U>,
    st: PartitionSet<U>,
    ts: PartitionSet<U>,
)
    requires
        s.wf(),
        t.wf(),
        st.wf(),
        ts.wf(),
        st@ == s@.union(t@),
        ts@ == t@.union(s@),
    ensures
        st.same_as(&ts),
{
    assert(st@ =~= ts@);
    lemma_set_canonical(st, ts);
}

/// Complementing twice gives back the set, with the same representation.
pub proof fn law_double_complement<U: Alphabet>(
    s: PartitionSet<U>,
    c: PartitionSet<U>,
    cc: PartitionSet<U>,
)
    requires
        s.wf(),
        c.wf(),
        cc.wf(),
        c@ == universe::<U>().difference(s@),
        cc@ == universe::<U>().difference(c@),
    ensures
        cc.same_as(&s),
{
    assert(cc@ =~= s@);
    lemma_set_canonical(cc, s);
}

/// A set united with its complement holds every element.
pub proof fn law_union_with_complement_is_full<U: Alphabet>(
    s: PartitionSet<U>,
    c: PartitionSet<U>,
    u: PartitionSet<U>,
)
    requires
        s.wf(),
        c.wf(),
        u.wf(),
        c@ == universe::<U>().difference(s@),
        u@ == s@.union(c@),
    ensures
        u@ == universe::<U>(),
{
    assert(u@ =~= universe::<U>());
}

/// The complement of the empty set holds every element.
pub proof fn law_complement_of_empty_is_full<U: Alphabet>(e: PartitionSet<U>, c: PartitionSet<U>)
    requires
        e.wf(),
        c.wf(),
        e@ == Set::<int>::empty(),
        c@ == universe::<U>().difference(e@),
    ensures
        c@ == universe::<U>(),
{
    assert(c@ =~= universe::<U>());
}

/// The order of two ranges does not change the set built from them.
pub proof fn law_from_ranges_order_independent<U: Alphabet>(
    r1: Range<U>,
    r2: Range<U>,
    a: PartitionSet<U>,
    b: PartitionSet<U>,
)
    requires
        a.wf(),
        b.wf(),
        a@ == ranges_union(seq![r1, r2]),
        b@ == ranges_union(seq![r2, r1]),
    ensures
        a.same_as(&b),
{
    assert forall|p: int| ranges_cover(seq![r1, r2], p) <==> ranges_cover(seq![r2, r1], p) by {
        let (x, y) = (seq![r1, r2], seq![r2, r1]);
        if ranges_cover(x, p) {
            let m = choose|m: int| 0 <= m < x.len() && #[trigger] x[m].covers(p);
            assert(y[1 - m] == x[m]);
        }
        if ranges_cover(y, p) {
            let m = choose|m: int| 0 <= m < y.len() && #[trigger] y[m].covers(p);
            assert(x[1 - m] == y[m]);
        }
    }
    assert(a@ =~= b@);
    lemma_set_canonical(a, b);
}

} // verus!
