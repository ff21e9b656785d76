use vstd::prelude::*;
use vstd::utf8::{char_is_scalar, char_u32_cast, is_scalar};

verus! {

/// An ordered, discrete alphabet whose elements can be partitioned.
///
/// Each element has a position (`pos`); positions of the alphabet form the
/// contiguous integer interval `[min_pos(), max_pos()]`, so that the
/// predecessor of an element sits exactly one position lower.
pub trait Alphabet: Sized + Copy {
    /// The position of an element within the alphabet.
    spec fn pos(self) -> int;

    /// The position of the least element.
    spec fn min_pos() -> int;

    /// The position of the greatest element.
    spec fn max_pos() -> int;

    /// Every element lies between the least and the greatest position.
    proof fn lemma_pos_bounds(a: Self)
        ensures
            Self::min_pos() <= a.pos() <= Self::max_pos(),
    ;

    /// The element at position `p`, for `p` between the least and the
    /// greatest position.
    spec fn at_pos(p: int) -> Self;

    /// Every position between the least and the greatest one belongs to an
    /// element.
    proof fn lemma_at_pos(p: int)
        requires
            Self::min_pos() <= p <= Self::max_pos(),
        ensures
            Self::at_pos(p).pos() == p,
    ;

    /// Elements at the same position are the same element.
    proof fn lemma_pos_injective(a: Self, b: Self)
        ensures
            a.pos() == b.pos() ==> a == b,
    ;

    /// The least element.
    fn min_value() -> (r: Self)
        ensures
            r.pos() == Self::min_pos(),
    ;

    /// The greatest element.
    fn max_value() -> (r: Self)
        ensures
            r.pos() == Self::max_pos(),
    ;

    /// The successor of an element, or `None` for the greatest one.
    fn increment(&self) -> (r: Option<Self>)
        ensures
            r is None <==> self.pos() == Self::max_pos(),
            r matches Some(n) ==> n.pos() == self.pos() + 1,
    ;

    /// The predecessor of an element, or `None` for the least one.
    fn decrement(&self) -> (r: Option<Self>)
        ensures
            r is None <==> self.pos() == Self::min_pos(),
            r matches Some(n) ==> n.pos() == self.pos() - 1,
    ;

    /// Whether `self` comes no later than `other`.
    fn less_eq(&self, other: &Self) -> (r: bool)
        ensures
            r == (self.pos() <= other.pos()),
    ;
}

impl Alphabet for u8 {
    open spec fn pos(self) -> int {
        self as int
    }

    open spec fn min_pos() -> int {
        0
    }

    open spec fn max_pos() -> int {
        u8::MAX as int
    }

    open spec fn at_pos(p: int) -> Self {
        p as u8
    }

    proof fn lemma_at_pos(p: int) {
    }

    proof fn lemma_pos_bounds(a: Self) {
    }

    proof fn lemma_pos_injective(a: Self, b: Self) {
    }

    fn min_value() -> (r: Self) {
        0
    }

    fn max_value() -> (r: Self) {
        u8::MAX
    }

    fn increment(&self) -> (r: Option<Self>) {
        if *self == u8::MAX {
            None
        } else {
            Some(*self + 1)
        }
    }

    fn decrement(&self) -> (r: Option<Self>) {
        if *self == 0 {
            None
        } else {
            Some(*self - 1)
        }
    }

    fn less_eq(&self, other: &Self) -> (r: bool) {
        *self <= *other
    }
}

impl Alphabet for u32 {
    open spec fn pos(self) -> int {
        self as int
    }

    open spec fn min_pos() -> int {
        0
    }

    open spec fn max_pos() -> int {
        u32::MAX as int
    }

    open spec fn at_pos(p: int) -> Self {
        p as u32
    }

    proof fn lemma_at_pos(p: int) {
    }

    proof fn lemma_pos_bounds(a: Self) {
    }

    proof fn lemma_pos_injective(a: Self, b: Self) {
    }

    fn min_value() -> (r: Self) {
        0
    }

    fn max_value() -> (r: Self) {
        u32::MAX
    }

    fn increment(&self) -> (r: Option<Self>) {
        if *self == u32::MAX {
            None
        } else {
            Some(*self + 1)
        }
    }

    fn decrement(&self) -> (r: Option<Self>) {
        if *self == 0 {
            None
        } else {
            Some(*self - 1)
        }
    }

    fn less_eq(&self, other: &Self) -> (r: bool) {
        *self <= *other
    }
}

/// The position of a Unicode scalar value once the surrogate gap is closed.
pub open spec fn scalar_pos(u: u32) -> int {
    if u < 0xD800 {
        u as int
    } else {
        u as int - 0x800
    }
}

/// Relies on char::from_u32: `Some` exactly for a Unicode scalar value,
/// holding the char with that code.
#[verifier::external_body]
fn char_from_u32(u: u32) -> (r: Option<char>)
    ensures
        r is Some <==> is_scalar(u),
        r matches Some(c) ==> c as u32 == u,
{
    char::from_u32(u)
}

impl Alphabet for char {
    open spec fn pos(self) -> int {
        scalar_pos(self as u32)
    }

    open spec fn min_pos() -> int {
        0
    }

    open spec fn max_pos() -> int {
        0x10FFFF - 0x800
    }

    open spec fn at_pos(p: int) -> Self {
        (if p < 0xD800 {
            p
        } else {
            p + 0x800
        }) as u32 as char
    }

    proof fn lemma_at_pos(p: int) {
        let u = (if p < 0xD800 {
            p
        } else {
            p + 0x800
        }) as u32;
        assert(is_scalar(u));
        assert((u as char) as u32 == u);
    }

    proof fn lemma_pos_bounds(a: Self) {
        char_is_scalar(a);
    }

    proof fn lemma_pos_injective(a: Self, b: Self) {
        char_is_scalar(a);
        char_is_scalar(b);
        char_u32_cast(a, a as u32);
        char_u32_cast(b, b as u32);
    }

    fn min_value() -> (r: Self) {
        let r = char_from_u32(0);
        match r {
            Some(c) => c,
            None => '\0',
        }
    }

    fn max_value() -> (r: Self) {
        let r = char_from_u32(0x10FFFF);
        match r {
            Some(c) => c,
            None => '\0',
        }
    }

    fn increment(&self) -> (r: Option<Self>) {
        proof {
            char_is_scalar(*self);
        }
        let u = *self as u32;
        if u == 0x10FFFF {
            None
        } else if u == 0xD7FF {
            char_from_u32(0xE000)
        } else {
            char_from_u32(u + 1)
        }
    }

    fn decrement(&self) -> (r: Option<Self>) {
        proof {
            char_is_scalar(*self);
        }
        let u = *self as u32;
        if u == 0 {
            None
        } else if u == 0xE000 {
            char_from_u32(0xD7FF)
        } else {
            char_from_u32(u - 1)
        }
    }

    fn less_eq(&self, other: &Self) -> (r: bool) {
        proof {
            char_is_scalar(*self);
            char_is_scalar(*other);
        }
        (*self as u32) <= (*other as u32)
    }
}

} // verus!
