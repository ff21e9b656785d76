use vstd::prelude::*;
use vstd::std_specs::cmp::PartialEqSpec;

use crate::alphabet::Alphabet;
use crate::range::Range;

verus! {

/// The value that a sequence of segments gives to position `p`: that of the
/// last segment whose lower bound is at or before `p`.
pub open spec fn value_at<U: Alphabet, V>(s: Seq<(U, V)>, p: int) -> V
    decreases s.len(),
{
    if s.len() <= 1 {
        s[0].1
    } else if s.last().0.pos() <= p {
        s.last().1
    } else {
        value_at(s.drop_last(), p)
    }
}

/// Lower bounds strictly ascend and the first one is the least element.
pub open spec fn bounds_ok<U: Alphabet, V>(s: Seq<(U, V)>) -> bool {
    &&& s.len() > 0
    &&& s[0].0.pos() == U::min_pos()
    &&& forall|i: int, j: int|
        0 <= i < j < s.len() ==> #[trigger] s[i].0.pos() < #[trigger] s[j].0.pos()
}

/// No two consecutive segments carry the same value.
pub open spec fn minimal<U: Alphabet, V>(s: Seq<(U, V)>) -> bool {
    forall|i: int| 0 < i < s.len() ==> #[trigger] s[i].1 != s[i - 1].1
}

/// `==` on `V` is the equality of values.
pub open spec fn eq_is_structural<V: PartialEqSpec>() -> bool {
    &&& V::obeys_eq_spec()
    &&& forall|a: V, b: V| (#[trigger] a.eq_spec(&b)) == (a == b)
}

/// Segment `k` is the one that holds position `p`.
pub open spec fn holds_at<U: Alphabet, V>(s: Seq<(U, V)>, k: int, p: int) -> bool {
    &&& 0 <= k < s.len()
    &&& s[k].0.pos() <= p
    &&& (k + 1 < s.len() ==> p < s[k + 1].0.pos())
}

/// The segment that holds `p` gives `p` its value.
pub proof fn lemma_value_at_segment<U: Alphabet, V>(s: Seq<(U, V)>, k: int, p: int)
    requires
        bounds_ok(s),
        holds_at(s, k, p),
    ensures
        value_at(s, p) == s[k].1,
    decreases s.len(),
{
    if s.len() > 1 && k < s.len() - 1 {
        assert(s[k + 1].0.pos() <= s.last().0.pos());
        let t = s.drop_last();
        assert(bounds_ok(t)) by {
            assert forall|i: int, j: int| 0 <= i < j < t.len() implies #[trigger] t[i].0.pos()
                < #[trigger] t[j].0.pos() by {
                assert(t[i] == s[i] && t[j] == s[j]);
            }
        }
        lemma_value_at_segment(t, k, p);
    }
}

/// Every position at or after the least one is held by exactly one segment.
pub proof fn lemma_segment_exists<U: Alphabet, V>(s: Seq<(U, V)>, p: int) -> (k: int)
    requires
        bounds_ok(s),
        U::min_pos() <= p,
    ensures
        holds_at(s, k, p),
        value_at(s, p) == s[k].1,
    decreases s.len(),
{
    if s.len() == 1 || s.last().0.pos() <= p {
        lemma_value_at_segment(s, s.len() - 1, p);
        s.len() - 1
    } else {
        let t = s.drop_last();
        assert(bounds_ok(t)) by {
            assert forall|i: int, j: int| 0 <= i < j < t.len() implies #[trigger] t[i].0.pos()
                < #[trigger] t[j].0.pos() by {
                assert(t[i] == s[i] && t[j] == s[j]);
            }
        }
        let k = lemma_segment_exists(t, p);
        assert(t[k] == s[k]);
        if k + 1 < t.len() {
            assert(t[k + 1] == s[k + 1]);
        }
        lemma_value_at_segment(s, k, p);
        k
    }
}

/// Pushing a segment changes the value only from its bound on.
pub proof fn lemma_value_at_push<U: Alphabet, V>(s: Seq<(U, V)>, x: (U, V), p: int)
    requires
        s.len() > 0,
    ensures
        value_at(s.push(x), p) == if x.0.pos() <= p {
            x.1
        } else {
            value_at(s, p)
        },
{
    assert(s.push(x).drop_last() =~= s);
}

/// From the last bound on, the last segment's value holds.
pub proof fn lemma_value_at_last<U: Alphabet, V>(s: Seq<(U, V)>, p: int)
    requires
        s.len() > 0,
        s.last().0.pos() <= p,
    ensures
        value_at(s, p) == s.last().1,
{
}

} // verus!

verus! {

/// A total function from the alphabet `U` to values `V`.
///
/// It is stored as strictly ascending lower bounds, the first of them the
/// least element, each paired with the value that holds from it up to the
/// next bound.
#[derive(Clone, Debug, PartialEq, Eq)]
pub struct PartitionMap<U: Alphabet, V: Copy> {
    segs: Vec<(U, V)>,
}

impl<U: Alphabet, V: Copy> PartitionMap<U, V> {
    /// The segments: each lower bound with its value.
    pub closed spec fn segments(&self) -> Seq<(U, V)> {
        self.segs@
    }

    /// The bounds ascend from the least element.
    pub open spec fn wf(&self) -> bool {
        bounds_ok(self.segments())
    }

    /// No two consecutive segments carry the same value.
    pub open spec fn is_minimal(&self) -> bool {
        minimal(self.segments())
    }

    /// The value of the element at position `p`.
    pub open spec fn value_of(&self, p: int) -> V {
        value_at(self.segments(), p)
    }

    /// The value of `u`.
    pub fn get(&self, u: &U) -> (r: &V)
        requires
            self.wf(),
        ensures
            *r == self.value_of(u.pos()),
    {
        proof {
            U::lemma_pos_bounds(*u);
        }
        let mut k: usize = self.segs.len() - 1;
        while !self.segs[k].0.less_eq(u)
            invariant
                self.wf(),
                0 <= k < self.segs@.len(),
                U::min_pos() <= u.pos(),
                forall|m: int| k < m < self.segs@.len() ==> u.pos() < #[trigger] self.segs@[m].0.pos(),
            decreases k,
        {
            k = k - 1;
        }
        proof {
            if k + 1 < self.segs@.len() {
                assert(u.pos() < self.segs@[k + 1].0.pos());
            }
            lemma_value_at_segment(self.segs@, k as int, u.pos());
        }
        &self.segs[k].1
    }

    /// The map that gives every element the value `v`.
    pub fn constant(v: V) -> (r: Self)
        ensures
            r.wf(),
            r.is_minimal(),
            forall|p: int| r.value_of(p) == v,
    {
        let mut segs: Vec<(U, V)> = Vec::new();
        segs.push((U::min_value(), v));
        PartitionMap { segs }
    }

    /// The map that gives `inside` to the elements of `range` and `outside`
    /// to all others.
    pub fn new(range: Range<U>, inside: V, outside: V) -> (r: Self) where V: PartialEq
        requires
            range.wf(),
            eq_is_structural::<V>(),
        ensures
            r.wf(),
            r.is_minimal(),
            forall|p: int|
                U::min_pos() <= p <= U::max_pos() ==> r.value_of(p) == if range.covers(p) {
                    inside
                } else {
                    outside
                },
    {
        if inside == outside {
            return Self::constant(inside);
        }
        let s = range.start();
        let e = range.end();
        proof {
            U::lemma_pos_bounds(s);
            U::lemma_pos_bounds(e);
        }
        let mut segs: Vec<(U, V)> = Vec::new();
        match s.decrement() {
            None => {
                segs.push((s, inside));
            },
            Some(_) => {
                segs.push((U::min_value(), outside));
                segs.push((s, inside));
            },
        }
        let ghost mid = segs@;
        assert forall|p: int| U::min_pos() <= p && p <= e.pos() implies value_at(mid, p) == if range.covers(p) {
            inside
        } else {
            outside
        } by {
            if mid.len() == 2 {
                lemma_value_at_push(mid.drop_last(), mid[1], p);
                assert(mid.drop_last().push(mid[1]) =~= mid);
            }
        }
        match e.increment() {
            Some(n) => {
                proof {
                    assert forall|p: int| U::min_pos() <= p implies value_at(segs@.push((n, outside)), p) == if p <= e.pos() {
                        value_at(mid, p)
                    } else {
                        outside
                    } by {
                        lemma_value_at_push(mid, (n, outside), p);
                    }
                }
                segs.push((n, outside));
            },
            None => {},
        }
        PartitionMap { segs }
    }
}

} // verus!

verus! {

/// Relabelling each segment's value relabels every position's value.
pub proof fn lemma_value_at_relabel<U: Alphabet, V>(
    s: Seq<(U, bool)>,
    r: Seq<(U, V)>,
    a: V,
    b: V,
    p: int,
)
    requires
        s.len() > 0,
        r.len() == s.len(),
        forall|k: int|
            0 <= k < s.len() ==> (#[trigger] r[k]).0 == s[k].0 && r[k].1 == if s[k].1 {
                a
            } else {
                b
            },
    ensures
        value_at(r, p) == if value_at(s, p) {
            a
        } else {
            b
        },
    decreases s.len(),
{
    if s.len() > 1 {
        assert(r.last() == r[r.len() - 1]);
        let (s2, r2) = (s.drop_last(), r.drop_last());
        assert forall|k: int| 0 <= k < s2.len() implies (#[trigger] r2[k]).0 == s2[k].0 && r2[k].1
            == if s2[k].1 {
            a
        } else {
            b
        } by {
            assert(r2[k] == r[k] && s2[k] == s[k]);
        }
        lemma_value_at_relabel(s2, r2, a, b, p);
    } else {
        assert(r[0] == r[0]);
    }
}

impl<U: Alphabet> PartitionMap<U, bool> {
    /// The pointwise logical or of two maps, kept minimal.
    pub fn union(&self, other: &Self) -> (r: Self)
        requires
            self.wf(),
            other.wf(),
        ensures
            r.wf(),
            r.is_minimal(),
            forall|p: int|
                U::min_pos() <= p ==> r.value_of(p) == (self.value_of(p) || other.value_of(p)),
    {
        let a = &self.segs;
        let b = &other.segs;
        let mut res: Vec<(U, bool)> = Vec::new();
        res.push((a[0].0, a[0].1 || b[0].1));
        let mut i: usize = 1;
        let mut j: usize = 1;
        let ghost mut cur: int = U::min_pos();
        proof {
            assert forall|p: int|
                U::min_pos() <= p && (i < a@.len() ==> p < a@[i as int].0.pos()) && (j < b@.len()
                    ==> p < b@[j as int].0.pos()) implies value_at(res@, p) == (value_at(a@, p)
                || value_at(b@, p)) by {
                lemma_value_at_segment(a@, 0, p);
                lemma_value_at_segment(b@, 0, p);
            }
        }
        while i < a.len() || j < b.len()
            invariant
                bounds_ok(a@),
                bounds_ok(b@),
                1 <= i <= a@.len(),
                1 <= j <= b@.len(),
                bounds_ok(res@),
                minimal(res@),
                U::min_pos() <= cur,
                a@[i - 1].0.pos() <= cur,
                b@[j - 1].0.pos() <= cur,
                res@.last().0.pos() <= cur,
                res@.last().1 == (a@[i - 1].1 || b@[j - 1].1),
                i < a@.len() ==> cur < a@[i as int].0.pos(),
                j < b@.len() ==> cur < b@[j as int].0.pos(),
                forall|p: int|
                    U::min_pos() <= p && (i < a@.len() ==> p < a@[i as int].0.pos()) && (j
                        < b@.len() ==> p < b@[j as int].0.pos()) ==> value_at(res@, p) == (
                    value_at(a@, p) || value_at(b@, p)),
            decreases a@.len() - i + b@.len() - j,
        {
            let ghost old_res = res@;
            let ghost (oi, oj) = (i as int, j as int);
            let x: U;
            if i < a.len() && (j == b.len() || a[i].0.less_eq(&b[j].0)) {
                x = a[i].0;
                if j < b.len() && b[j].0.less_eq(&a[i].0) {
                    j = j + 1;
                }
                i = i + 1;
            } else {
                x = b[j].0;
                j = j + 1;
            }
            let v = a[i - 1].1 || b[j - 1].1;
            let last = res[res.len() - 1].1;
            if v != last {
                proof {
                    assert forall|m: int| 0 <= m < res@.len() implies #[trigger] res@[m].0.pos()
                        < x.pos() by {
                        if m < res@.len() - 1 {
                            assert(res@[m].0.pos() < res@[res@.len() - 1].0.pos());
                        }
                    }
                }
                res.push((x, v));
            }
            proof {
                assert(i < a@.len() ==> a@[i - 1].0.pos() < a@[i as int].0.pos());
                assert(j < b@.len() ==> b@[j - 1].0.pos() < b@[j as int].0.pos());
                assert forall|p: int|
                    U::min_pos() <= p && (i < a@.len() ==> p < a@[i as int].0.pos()) && (j
                        < b@.len() ==> p < b@[j as int].0.pos()) implies value_at(res@, p) == (
                    value_at(a@, p) || value_at(b@, p)) by {
                    if p < x.pos() {
                        if oi < a@.len() {
                            assert(p < a@[oi].0.pos());
                        }
                        if oj < b@.len() {
                            assert(p < b@[oj].0.pos());
                        }
                        if v != last {
                            lemma_value_at_push(old_res, (x, v), p);
                        }
                    } else {
                        lemma_value_at_segment(a@, i - 1, p);
                        lemma_value_at_segment(b@, j - 1, p);
                        if v != last {
                            lemma_value_at_push(old_res, (x, v), p);
                        } else {
                            lemma_value_at_last(res@, p);
                        }
                    }
                }
                cur = x.pos();
            }
        }
        PartitionMap { segs: res }
    }

    /// Relabels the map: `in_value` where it is true, `out_value` where it
    /// is false; the bounds stay as they are.
    pub(crate) fn relabel<V: Copy>(&self, in_value: V, out_value: V) -> (r: PartitionMap<U, V>)
        requires
            self.wf(),
        ensures
            r.wf(),
            self.is_minimal() && in_value != out_value ==> r.is_minimal(),
            r.segments().len() == self.segments().len(),
            forall|k: int|
                0 <= k < r.segments().len() ==> (#[trigger] r.segments()[k]).0
                    == self.segments()[k].0 && r.segments()[k].1 == if self.segments()[k].1 {
                    in_value
                } else {
                    out_value
                },
            forall|p: int|
                r.value_of(p) == if self.value_of(p) {
                    in_value
                } else {
                    out_value
                },
    {
        let mut res: Vec<(U, V)> = Vec::new();
        let mut k: usize = 0;
        while k < self.segs.len()
            invariant
                0 <= k <= self.segs@.len(),
                res@.len() == k,
                forall|m: int|
                    0 <= m < k ==> (#[trigger] res@[m]).0 == self.segs@[m].0 && res@[m].1 == if self.segs@[m].1 {
                        in_value
                    } else {
                        out_value
                    },
            decreases self.segs@.len() - k,
        {
            let (u, t) = self.segs[k];
            res.push((u, if t { in_value } else { out_value }));
            k = k + 1;
        }
        proof {
            assert forall|p: int|
                value_at(res@, p) == if value_at(self.segs@, p) {
                    in_value
                } else {
                    out_value
                } by {
                lemma_value_at_relabel(self.segs@, res@, in_value, out_value, p);
            }
            assert forall|i: int, j: int| 0 <= i < j < res@.len() implies #[trigger] res@[i].0.pos()
                < #[trigger] res@[j].0.pos() by {
                assert(self.segs@[i].0.pos() < self.segs@[j].0.pos());
            }
            if self.is_minimal() && in_value != out_value {
                assert forall|m: int| 0 < m < res@.len() implies #[trigger] res@[m].1 != res@[m
                    - 1].1 by {
                    assert(self.segs@[m].1 != self.segs@[m - 1].1);
                }
            }
        }
        PartitionMap { segs: res }
    }
}

} // verus!

verus! {

/// Some range of `rs` holds position `p`.
pub open spec fn ranges_cover<U: Alphabet>(rs: Seq<Range<U>>, p: int) -> bool {
    exists|m: int| 0 <= m < rs.len() && #[trigger] rs[m].covers(p)
}

/// Every range is well formed, and each one starts more than one position
/// after the previous one ends: ascending, disjoint and not touching.
pub open spec fn ranges_separated<U: Alphabet>(rs: Seq<Range<U>>) -> bool {
    &&& forall|m: int| 0 <= m < rs.len() ==> (#[trigger] rs[m]).wf()
    &&& forall|m: int|
        0 < m < rs.len() ==> rs[m - 1].hi().pos() + 1 < (#[trigger] rs[m]).lo().pos()
}

impl<U: Alphabet> PartitionMap<U, bool> {
    /// The map with every value flipped.
    pub fn complement(&self) -> (r: Self)
        requires
            self.wf(),
        ensures
            r.wf(),
            self.is_minimal() ==> r.is_minimal(),
            forall|p: int| r.value_of(p) == !self.value_of(p),
    {
        self.relabel(false, true)
    }

    /// Whether no element maps to false.
    pub fn is_complement_empty(&self) -> (r: bool)
        requires
            self.wf(),
        ensures
            r == forall|p: int| U::min_pos() <= p <= U::max_pos() ==> #[trigger] self.value_of(p),
    {
        let mut k: usize = 0;
        while k < self.segs.len()
            invariant
                self.wf(),
                0 <= k <= self.segs@.len(),
                forall|m: int| 0 <= m < k ==> #[trigger] self.segs@[m].1,
            decreases self.segs@.len() - k,
        {
            if !self.segs[k].1 {
                proof {
                    let p = self.segs@[k as int].0.pos();
                    U::lemma_pos_bounds(self.segs@[k as int].0);
                    if k + 1 < self.segs@.len() {
                        assert(p < self.segs@[k + 1].0.pos());
                    }
                    lemma_value_at_segment(self.segs@, k as int, p);
                    assert(!self.value_of(p));
                }
                return false;
            }
            k = k + 1;
        }
        proof {
            assert forall|p: int| U::min_pos() <= p <= U::max_pos() implies #[trigger] self.value_of(
                p,
            ) by {
                let m = lemma_segment_exists(self.segs@, p);
            }
        }
        true
    }

    /// The maximal runs of elements that map to true, in ascending order.
    pub fn true_ranges(&self) -> (r: Vec<Range<U>>)
        requires
            self.wf(),
            self.is_minimal(),
        ensures
            ranges_separated(r@),
            forall|p: int|
                U::min_pos() <= p <= U::max_pos() ==> (self.value_of(p) <==> ranges_cover(r@, p)),
    {
        let s = &self.segs;
        let mut res: Vec<Range<U>> = Vec::new();
        let mut k: usize = 0;
        while k < s.len()
            invariant
                bounds_ok(s@),
                minimal(s@),
                0 <= k <= s@.len(),
                ranges_separated(res@),
                forall|m: int|
                    0 <= m < res@.len() ==> (#[trigger] res@[m]).hi().pos() <= U::max_pos() && (k
                        < s@.len() ==> res@[m].hi().pos() < s@[k as int].0.pos()),
                res@.len() > 0 && k < s@.len() ==> res@.last().hi().pos() + 1 < s@[k as int].0.pos()
                    || (k > 0 && s@[k - 1].1 && res@.last().hi().pos() + 1 == s@[k as int].0.pos()),
                forall|p: int|
                    U::min_pos() <= p <= U::max_pos() && (k < s@.len() ==> p < s@[k as int].0.pos())
                        ==> (value_at(s@, p) <==> ranges_cover(res@, p)),
            decreases s@.len() - k,
        {
            let ghost old_res = res@;
            let (lo, t) = s[k];
            proof {
                U::lemma_pos_bounds(lo);
            }
            if t {
                let hi: U;
                if k + 1 < s.len() {
                    assert(s@[k as int].0.pos() < s@[k + 1].0.pos());
                    proof {
                        U::lemma_pos_bounds(s@[k + 1].0);
                    }
                    match s[k + 1].0.decrement() {
                        Some(d) => {
                            hi = d;
                        },
                        None => {
                            hi = lo;
                        },
                    }
                } else {
                    hi = U::max_value();
                }
                proof {
                    if res@.len() > 0 {
                        assert(k > 0 ==> s@[k as int].1 != s@[k - 1].1);
                    }
                }
                res.push(Range::new(lo, hi));
                proof {
                    assert(res@.last() == res@[res@.len() - 1]);
                    assert forall|m: int| 0 < m < res@.len() implies res@[m - 1].hi().pos() + 1 < (
                    #[trigger] res@[m]).lo().pos() by {
                        if m < res@.len() - 1 {
                            assert(old_res[m] == res@[m] && old_res[m - 1] == res@[m - 1]);
                        }
                    }
                    assert forall|m: int| 0 <= m < res@.len() implies (#[trigger] res@[m]).wf() by {
                        if m < res@.len() - 1 {
                            assert(old_res[m] == res@[m]);
                        }
                    }
                }
            }
            k = k + 1;
            proof {
                if k < s@.len() {
                    assert(s@[k - 1].0.pos() < s@[k as int].0.pos());
                }
                assert forall|m: int|
                    0 <= m < res@.len() implies (#[trigger] res@[m]).hi().pos() <= U::max_pos() && (k
                        < s@.len() ==> res@[m].hi().pos() < s@[k as int].0.pos()) by {
                    if m < old_res.len() {
                        assert(old_res[m] == res@[m]);
                    }
                }
                assert forall|p: int|
                    U::min_pos() <= p <= U::max_pos() && (k < s@.len() ==> p < s@[k as int].0.pos())
                        implies (value_at(s@, p) <==> ranges_cover(res@, p)) by {
                    if p < s@[k - 1].0.pos() {
                        if ranges_cover(old_res, p) {
                            let m = choose|m: int| 0 <= m < old_res.len() && #[trigger] old_res[m].covers(p);
                            assert(res@[m] == old_res[m]);
                        }
                        if ranges_cover(res@, p) {
                            let m = choose|m: int| 0 <= m < res@.len() && #[trigger] res@[m].covers(p);
                            if m < old_res.len() {
                                assert(res@[m] == old_res[m]);
                            }
                        }
                    } else {
                        lemma_value_at_segment(s@, k - 1, p);
                        if t {
                            assert(res@[res@.len() - 1].covers(p));
                        } else {
                            if ranges_cover(res@, p) {
                                let m = choose|m: int| 0 <= m < res@.len() && #[trigger] res@[m].covers(p);
                                assert(res@[m] == old_res[m]);
                            }
                        }
                    }
                }
            }
        }
        res
    }
}

} // verus!

verus! {

impl<U: Alphabet, V: Copy> PartitionMap<U, V> {
    /// The segments, each lower bound with its value.
    pub fn lower_bounds(&self) -> (r: Vec<(U, V)>)
        ensures
            r@ == self.segments(),
    {
        let mut r: Vec<(U, V)> = Vec::new();
        let mut k: usize = 0;
        while k < self.segs.len()
            invariant
                0 <= k <= self.segs@.len(),
                r@ == self.segs@.take(k as int),
            decreases self.segs@.len() - k,
        {
            r.push(self.segs[k]);
            k = k + 1;
            assert(r@ =~= self.segs@.take(k as int));
        }
        assert(self.segs@.take(k as int) =~= self.segs@);
        r
    }
}

} // verus!

verus! {

/// Two well-formed, minimal Boolean partitions that give every element the
/// same value are the same sequence of segments.
pub proof fn lemma_canonical<U: Alphabet>(s: Seq<(U, bool)>, t: Seq<(U, bool)>)
    requires
        bounds_ok(s),
        bounds_ok(t),
        minimal(s),
        minimal(t),
        forall|p: int| U::min_pos() <= p <= U::max_pos() ==> value_at(s, p) == value_at(t, p),
    ensures
        s == t,
    decreases s.len(),
{
    lemma_last_bound_agrees(s, t);
    lemma_last_bound_agrees(t, s);
    let x = s.last().0.pos();
    U::lemma_pos_bounds(s.last().0);
    U::lemma_pos_injective(s.last().0, t.last().0);
    assert(value_at(s, x) == value_at(t, x));
    if s.len() == 1 || t.len() == 1 {
        if s.len() > 1 {
            assert(s[0].0.pos() < s[s.len() - 1].0.pos());
        }
        if t.len() > 1 {
            assert(t[0].0.pos() < t[t.len() - 1].0.pos());
        }
        assert(s =~= t);
    } else {
        let (s2, t2) = (s.drop_last(), t.drop_last());
        assert(bounds_ok(s2)) by {
            assert forall|i: int, j: int| 0 <= i < j < s2.len() implies #[trigger] s2[i].0.pos()
                < #[trigger] s2[j].0.pos() by {
                assert(s2[i] == s[i] && s2[j] == s[j]);
            }
        }
        assert(bounds_ok(t2)) by {
            assert forall|i: int, j: int| 0 <= i < j < t2.len() implies #[trigger] t2[i].0.pos()
                < #[trigger] t2[j].0.pos() by {
                assert(t2[i] == t[i] && t2[j] == t[j]);
            }
        }
        assert(minimal(s2)) by {
            assert forall|i: int| 0 < i < s2.len() implies #[trigger] s2[i].1 != s2[i - 1].1 by {
                assert(s2[i] == s[i] && s2[i - 1] == s[i - 1]);
            }
        }
        assert(minimal(t2)) by {
            assert forall|i: int| 0 < i < t2.len() implies #[trigger] t2[i].1 != t2[i - 1].1 by {
                assert(t2[i] == t[i] && t2[i - 1] == t[i - 1]);
            }
        }
        assert(s[s.len() - 1].1 != s[s.len() - 2].1);
        assert(t[t.len() - 1].1 != t[t.len() - 2].1);
        assert forall|p: int| U::min_pos() <= p <= U::max_pos() implies value_at(s2, p)
            == value_at(t2, p) by {
            assert(s2.push(s.last()) =~= s);
            assert(t2.push(t.last()) =~= t);
            lemma_value_at_push(s2, s.last(), p);
            lemma_value_at_push(t2, t.last(), p);
            if x <= p {
                assert(s[s.len() - 2].0.pos() < s[s.len() - 1].0.pos());
                assert(t[t.len() - 2].0.pos() < t[t.len() - 1].0.pos());
                lemma_value_at_last(s2, p);
                lemma_value_at_last(t2, p);
            }
        }
        lemma_canonical(s2, t2);
        assert(s =~= s2.push(s.last()));
        assert(t =~= t2.push(t.last()));
    }
}

/// For partitions that agree everywhere, the last bound of `t` is not
/// after the last bound of `s`.
proof fn lemma_last_bound_agrees<U: Alphabet>(s: Seq<(U, bool)>, t: Seq<(U, bool)>)
    requires
        bounds_ok(s),
        bounds_ok(t),
        minimal(t),
        forall|p: int| U::min_pos() <= p <= U::max_pos() ==> value_at(s, p) == value_at(t, p),
    ensures
        t.last().0.pos() <= s.last().0.pos(),
{
    let x = s.last().0.pos();
    let y = t.last().0.pos();
    U::lemma_pos_bounds(s.last().0);
    U::lemma_pos_bounds(t.last().0);
    if x < y {
        let n = t.len() as int;
        if n == 1 {
            assert(s[0].0.pos() <= s[s.len() - 1].0.pos()) by {
                if s.len() > 1 {
                    assert(s[0].0.pos() < s[s.len() - 1].0.pos());
                }
            }
        } else {
            assert(t[n - 2].0.pos() < t[n - 1].0.pos());
            lemma_value_at_segment(t, n - 1, y);
            lemma_value_at_segment(t, n - 2, y - 1);
            assert(t[n - 1].1 != t[n - 2].1);
            lemma_value_at_last(s, y);
            lemma_value_at_last(s, y - 1);
            assert(value_at(s, y) == value_at(t, y));
            assert(value_at(s, y - 1) == value_at(t, y - 1));
        }
    }
}

} // verus!

verus! {

/// Lexicographic comparison of two Boolean segment sequences, by each
/// bound's position and then its value (false first): -1, 0 or 1.
pub open spec fn seg_cmp<U: Alphabet>(s: Seq<(U, bool)>, t: Seq<(U, bool)>) -> int
    decreases s.len(),
{
    if s.len() == 0 && t.len() == 0 {
        0
    } else if s.len() == 0 {
        -1
    } else if t.len() == 0 {
        1
    } else if s[0].0.pos() != t[0].0.pos() {
        if s[0].0.pos() < t[0].0.pos() {
            -1
        } else {
            1
        }
    } else if s[0].1 != t[0].1 {
        if !s[0].1 {
            -1
        } else {
            1
        }
    } else {
        seg_cmp(s.skip(1), t.skip(1))
    }
}

/// Swapping the arguments of `seg_cmp` negates it.
pub proof fn lemma_seg_cmp_antisymmetric<U: Alphabet>(s: Seq<(U, bool)>, t: Seq<(U, bool)>)
    ensures
        seg_cmp(s, t) == -seg_cmp(t, s),
    decreases s.len(),
{
    if s.len() > 0 && t.len() > 0 {
        lemma_seg_cmp_antisymmetric(s.skip(1), t.skip(1));
    }
}

/// A sequence compares equal to itself.
pub proof fn lemma_seg_cmp_reflexive<U: Alphabet>(s: Seq<(U, bool)>)
    ensures
        seg_cmp(s, s) == 0,
    decreases s.len(),
{
    if s.len() > 0 {
        lemma_seg_cmp_reflexive(s.skip(1));
    }
}

impl<U: Alphabet> PartitionMap<U, bool> {
    /// Compares the segments of two maps as `seg_cmp` does.
    pub fn compare(&self, other: &Self) -> (r: i8)
        ensures
            r as int == seg_cmp(self.segments(), other.segments()),
    {
        let s = &self.segs;
        let t = &other.segs;
        let mut i: usize = 0;
        assert(s@.skip(0) =~= s@);
        assert(t@.skip(0) =~= t@);
        while i < s.len() && i < t.len()
            invariant
                0 <= i <= s@.len(),
                i <= t@.len(),
                s@ == self.segments(),
                t@ == other.segments(),
                seg_cmp(s@, t@) == seg_cmp(s@.skip(i as int), t@.skip(i as int)),
            decreases s@.len() - i,
        {
            let (a, x) = s[i];
            let (b, y) = t[i];
            assert(s@.skip(i as int)[0] == s@[i as int]);
            assert(t@.skip(i as int)[0] == t@[i as int]);
            assert(s@.skip(i as int).len() > 0 && t@.skip(i as int).len() > 0);
            let ab = a.less_eq(&b);
            let ba = b.less_eq(&a);
            if !(ab && ba) {
                return if ab {
                    -1
                } else {
                    1
                };
            }
            if x != y {
                return if !x {
                    -1
                } else {
                    1
                };
            }
            assert(s@.skip(i as int).skip(1) =~= s@.skip(i + 1));
            assert(t@.skip(i as int).skip(1) =~= t@.skip(i + 1));
            i = i + 1;
        }
        assert(s@.skip(i as int).len() == s@.len() - i);
        assert(t@.skip(i as int).len() == t@.len() - i);
        if i < s.len() {
            1
        } else if i < t.len() {
            -1
        } else {
            0
        }
    }
}

} // verus!

verus! {

impl<U: Alphabet, V: Copy> PartitionMap<U, V> {
    /// The map given by ascending lower bounds, each with the value that
    /// holds from it up to the next bound; neighbours with equal values are
    /// merged.
    pub fn from_lower_bounds(pairs: Vec<(U, V)>) -> (r: Self) where V: PartialEq
        requires
            bounds_ok(pairs@),
            eq_is_structural::<V>(),
        ensures
            r.wf(),
            r.is_minimal(),
            forall|p: int| U::min_pos() <= p ==> r.value_of(p) == value_at(pairs@, p),
    {
        let mut res: Vec<(U, V)> = Vec::new();
        res.push(pairs[0]);
        let mut k: usize = 1;
        assert(pairs@.take(1) =~= res@);
        while k < pairs.len()
            invariant
                bounds_ok(pairs@),
                eq_is_structural::<V>(),
                1 <= k <= pairs@.len(),
                bounds_ok(res@),
                minimal(res@),
                res@.last().0.pos() <= pairs@[k - 1].0.pos(),
                res@.last().1 == pairs@[k - 1].1,
                forall|p: int| U::min_pos() <= p ==> value_at(res@, p) == value_at(pairs@.take(k as int), p),
            decreases pairs@.len() - k,
        {
            let ghost old_res = res@;
            let x = pairs[k];
            assert(pairs@[k - 1].0.pos() < x.0.pos());
            let last = res[res.len() - 1].1;
            if x.1 != last {
                proof {
                    assert forall|m: int| 0 <= m < res@.len() implies #[trigger] res@[m].0.pos()
                        < x.0.pos() by {
                        if m < res@.len() - 1 {
                            assert(res@[m].0.pos() < res@[res@.len() - 1].0.pos());
                        }
                    }
                }
                res.push(x);
            }
            proof {
                let t = pairs@.take(k as int);
                assert(pairs@.take(k + 1) =~= t.push(x));
                assert forall|p: int| U::min_pos() <= p implies value_at(res@, p) == value_at(
                    pairs@.take(k + 1),
                    p,
                ) by {
                    lemma_value_at_push(t, x, p);
                    if x.1 != last {
                        lemma_value_at_push(old_res, x, p);
                    } else if x.0.pos() <= p {
                        lemma_value_at_last(res@, p);
                    }
                }
            }
            k = k + 1;
        }
        assert(pairs@.take(pairs@.len() as int) =~= pairs@);
        PartitionMap { segs: res }
    }
}

} // verus!
