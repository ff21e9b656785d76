use vstd::prelude::*;

use crate::alphabet::Alphabet;

verus! {

/// An inclusive range of elements of the alphabet `A`, never empty.
#[derive(Clone, Copy, Debug, PartialEq, Eq)]
pub struct Range<A: Alphabet> {
    start: A,
    end: A,
}

/// Whether position `p` lies in the inclusive interval `[s, e]`.
pub open spec fn in_interval(s: int, e: int, p: int) -> bool {
    s <= p <= e
}

impl<A: Alphabet> Range<A> {
    /// The first element of the range.
    pub closed spec fn lo(&self) -> A {
        self.start
    }

    /// The last element of the range.
    pub closed spec fn hi(&self) -> A {
        self.end
    }

    /// A range is well formed when it is ordered.
    pub open spec fn wf(&self) -> bool {
        self.lo().pos() <= self.hi().pos()
    }

    /// Whether the range holds the element at position `p`.
    pub open spec fn covers(&self, p: int) -> bool {
        in_interval(self.lo().pos(), self.hi().pos(), p)
    }

    /// Creates a new range; reversed bounds are swapped.
    pub fn new(start: A, end: A) -> (r: Range<A>)
        ensures
            r.wf(),
            (r.lo() == start && r.hi() == end) || (r.lo() == end && r.hi() == start),
            start.pos() <= end.pos() ==> r.lo() == start && r.hi() == end,
            r == Range::spec_new(start, end),
    {
        if start.less_eq(&end) {
            Range { start, end }
        } else {
            Range { start: end, end: start }
        }
    }

    /// The first element of the range, included in it.
    pub fn start(&self) -> (r: A)
        ensures
            r == self.lo(),
    {
        self.start
    }

    /// The last element of the range, included in it.
    pub fn end(&self) -> (r: A)
        ensures
            r == self.hi(),
    {
        self.end
    }

    /// Merges two ranges that overlap or touch into one covering range.
    ///
    /// The range that starts no later is the anchor; the merged range runs
    /// from its start to the later of the two ends. When a gap of at least
    /// one element separates the two, both are handed back unchanged.
    pub fn coalesce(&self, other: &Self) -> (r: Result<Self, (Self, Self)>)
        requires
            self.wf(),
            other.wf(),
        ensures
            ({
                let (anchor, comp) = if self.lo().pos() <= other.lo().pos() {
                    (*self, *other)
                } else {
                    (*other, *self)
                };
                let last = if anchor.hi().pos() <= comp.hi().pos() {
                    comp.hi()
                } else {
                    anchor.hi()
                };
                &&& r is Ok <==> comp.lo().pos() <= anchor.hi().pos() + 1
                &&& r matches Ok(m) ==> m == Range::from_bounds(anchor.lo(), last)
            }),
            r matches Ok(m) ==> m.wf() && forall|p: int|
                m.covers(p) <==> (self.covers(p) || other.covers(p)),
            r matches Err(e) ==> e == (*self, *other),
    {
        let (anchor, comp) = if self.start.less_eq(&other.start) {
            (self, other)
        } else {
            (other, self)
        };
        let last = if anchor.end.less_eq(&comp.end) {
            comp.end
        } else {
            anchor.end
        };
        match comp.start.decrement() {
            Some(before) => {
                if before.less_eq(&anchor.end) {
                    Ok(Range { start: anchor.start, end: last })
                } else {
                    Err((*self, *other))
                }
            },
            None => {
                proof {
                    A::lemma_pos_bounds(anchor.start);
                }
                Ok(Range { start: anchor.start, end: last })
            },
        }
    }

    /// The range that `new` builds from `start` and `end`.
    pub open spec fn spec_new(start: A, end: A) -> Range<A> {
        if start.pos() <= end.pos() {
            Range::from_bounds(start, end)
        } else {
            Range::from_bounds(end, start)
        }
    }

    /// The range with exactly these first and last elements.
    pub closed spec fn from_bounds(start: A, end: A) -> Range<A> {
        Range { start, end }
    }
}

} // verus!
