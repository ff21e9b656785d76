use vstd::prelude::*;

use typed_arena::Arena;

use crate::alphabet::Alphabet;
use crate::partition_map::{
    lemma_seg_cmp_antisymmetric, lemma_seg_cmp_reflexive, ranges_separated, seg_cmp,
};
use crate::partition_set::{PartitionSet, ranges_union};
use crate::range::Range;

verus! {

#[verifier::external_type_specification]
#[verifier::external_body]
#[verifier::reject_recursive_types(T)]
pub struct ExArena<T>(Arena<T>);

/// Relies on typed_arena::Arena::new: an arena that holds nothing yet.
pub assume_specification<T>[ Arena::<T>::new ]() -> Arena<T>;

/// Relies on typed_arena::Arena::alloc: the value is moved into the arena,
/// which hands back a reference to it that lives as long as the arena.
#[verifier::external_body]
fn alloc_node<'a, A: Alphabet>(arena: &'a Arena<RegexKind<'a, A>>, kind: RegexKind<'a, A>) -> (r:
    &'a RegexKind<'a, A>)
    ensures
        *r == kind,
{
    arena.alloc(kind)
}

/// A (possibly empty) subset of the alphabet `A`.
#[derive(Debug, PartialEq, Eq)]
pub struct Class<A: Alphabet> {
    set: PartitionSet<A>,
}

impl<A: Alphabet> Class<A> {
    /// The members of the class, by position.
    pub open spec fn view(&self) -> Set<int> {
        self.spec_set()@
    }

    /// The set behind the class.
    pub closed spec fn spec_set(&self) -> PartitionSet<A> {
        self.set
    }

    /// The class's set is well formed.
    pub open spec fn wf(&self) -> bool {
        self.spec_set().wf()
    }

    /// Every class holds a well-formed set.
    #[verifier::type_invariant]
    spec fn inv(&self) -> bool {
        self.set.wf()
    }

    /// The class of the elements that some range of `ranges` holds.
    pub fn from_iter(ranges: Vec<Range<A>>) -> (r: Class<A>)
        requires
            forall|k: int| 0 <= k < ranges@.len() ==> (#[trigger] ranges@[k]).wf(),
        ensures
            r.wf(),
            r@ == ranges_union(ranges@),
    {
        Class { set: PartitionSet::from_iter(ranges) }
    }

    /// The closed ranges that make up the class: ascending, neither
    /// overlapping nor touching.
    pub fn ranges(&self) -> (r: Vec<Range<A>>)
        ensures
            ranges_separated(r@),
            self@ == ranges_union(r@),
    {
        proof {
            use_type_invariant(self);
        }
        self.set.ranges()
    }

    /// Whether the class holds `u`.
    pub fn contains(&self, u: &A) -> (r: bool)
        ensures
            r == self@.contains(u.pos()),
    {
        proof {
            use_type_invariant(self);
        }
        self.set.contains(u)
    }
}

/// Two well-formed classes with the same members have identical
/// representations, so that they compare equal.
pub proof fn lemma_class_canonical<A: Alphabet>(a: Class<A>, b: Class<A>)
    requires
        a.wf(),
        b.wf(),
        a@ == b@,
    ensures
        a.spec_set().same_as(&b.spec_set()),
{
    crate::partition_set::lemma_set_canonical(a.set, b.set);
}

/// The kind of a regular expression; operands are handles into the same
/// context.
#[derive(Debug, PartialEq, Eq)]
pub enum RegexKind<'a, A: Alphabet> {
    /// The empty regular expression, which matches the empty string.
    Empty,
    /// Matches one element of a (possibly empty) subset of the alphabet; the
    /// empty subset matches nothing.
    Class(Class<A>),
    /// The first operand followed by the second.
    Concat(Regex<'a, A>, Regex<'a, A>),
    /// Zero or more repetitions of the operand.
    Repetition(Regex<'a, A>),
    /// Either operand.
    Alteration(Regex<'a, A>, Regex<'a, A>),
    /// Both operands.
    And(Regex<'a, A>, Regex<'a, A>),
    /// Everything the operand does not match.
    Complement(Regex<'a, A>),
}

/// A regular expression: a handle to a node owned by a `RegexContext`.
#[derive(Debug, PartialEq, Eq)]
pub struct Regex<'a, A: Alphabet> {
    kind: &'a RegexKind<'a, A>,
}

impl<'a, A: Alphabet> Clone for Regex<'a, A> {
    fn clone(&self) -> (r: Self)
        ensures
            r == *self,
    {
        proof {
            use_type_invariant(self);
        }
        Regex { kind: self.kind }
    }
}

impl<'a, A: Alphabet> Regex<'a, A> {
    /// The node that the handle refers to.
    pub closed spec fn node(&self) -> RegexKind<'a, A> {
        *self.kind
    }

    /// A class node holds a well-formed class, and a complement never
    /// wraps a complement.
    pub open spec fn wf(&self) -> bool {
        &&& self.node() matches RegexKind::Class(c) ==> c.wf()
        &&& self.node() matches RegexKind::Complement(x) ==> !(x.node() is Complement)
    }

    /// No handle refers to a complement of a complement.
    #[verifier::type_invariant]
    spec fn inv(&self) -> bool {
        self.node() matches RegexKind::Complement(x) ==> !(x.node() is Complement)
    }

    /// Brings the well-formedness of the node into the proof context.
    fn reveal_wf(&self)
        ensures
            self.wf(),
    {
        proof {
            use_type_invariant(self);
        }
        if let RegexKind::Class(c) = self.kind {
            proof {
                use_type_invariant(c);
            }
        }
    }

    /// The kind of the regular expression.
    pub fn kind(&self) -> (r: &RegexKind<'a, A>)
        ensures
            *r == self.node(),
    {
        self.kind
    }
}

/// The regular expression is a class with no member: it matches nothing.
pub open spec fn matches_nothing<'a, A: Alphabet>(r: Regex<'a, A>) -> bool {
    r.node() matches RegexKind::Class(c) && c@ == Set::<int>::empty()
}

/// What `concat` yields: an empty operand is dropped, and an operand that
/// matches nothing absorbs the other.
pub open spec fn concat_result<'a, A: Alphabet>(
    first: Regex<'a, A>,
    second: Regex<'a, A>,
    r: Regex<'a, A>,
) -> bool {
    if first.node() is Empty {
        r == second
    } else if second.node() is Empty {
        r == first
    } else if matches_nothing(first) {
        r == first
    } else if matches_nothing(second) {
        r == second
    } else {
        r.node() == RegexKind::Concat(first, second)
    }
}

/// What `repetition` yields: repeating a repetition changes nothing, and
/// repeating the empty expression or one that matches nothing gives the
/// empty expression.
pub open spec fn repetition_result<'a, A: Alphabet>(operand: Regex<'a, A>, r: Regex<'a, A>) -> bool {
    if operand.node() is Repetition {
        r == operand
    } else if operand.node() is Empty || matches_nothing(operand) {
        r.node() is Empty
    } else {
        r.node() == RegexKind::Repetition(operand)
    }
}

/// What `alteration` yields: two classes merge into the class of their
/// union, an operand that matches nothing is dropped, an operand that
/// compares equal to the other is kept alone, and otherwise the two are
/// stored in the order of `kind_cmp`, so that the order of the arguments
/// does not matter.
pub open spec fn alteration_result<'a, A: Alphabet>(
    first: Regex<'a, A>,
    second: Regex<'a, A>,
    r: Regex<'a, A>,
) -> bool {
    match (first.node(), second.node()) {
        (RegexKind::Class(c), RegexKind::Class(d)) => r.node() matches RegexKind::Class(e) && e.wf()
            && e@ == c@.union(d@),
        _ => if matches_nothing(first) {
            r == second
        } else if matches_nothing(second) {
            r == first
        } else if kind_cmp(first.node(), second.node()) == 0 {
            r == first
        } else if kind_cmp(first.node(), second.node()) < 0 {
            r.node() == RegexKind::Alteration(first, second)
        } else {
            r.node() == RegexKind::Alteration(second, first)
        },
    }
}

/// What `and` yields: two classes merge into the class of their
/// intersection, an operand that matches nothing absorbs the other, an
/// operand that compares equal to the other is kept alone, and otherwise
/// the two are stored in the order of `kind_cmp`.
pub open spec fn and_result<'a, A: Alphabet>(
    first: Regex<'a, A>,
    second: Regex<'a, A>,
    r: Regex<'a, A>,
) -> bool {
    match (first.node(), second.node()) {
        (RegexKind::Class(c), RegexKind::Class(d)) => r.node() matches RegexKind::Class(e) && e.wf()
            && e@ == c@.intersect(d@),
        _ => if matches_nothing(first) {
            r == first
        } else if matches_nothing(second) {
            r == second
        } else if kind_cmp(first.node(), second.node()) == 0 {
            r == first
        } else if kind_cmp(first.node(), second.node()) < 0 {
            r.node() == RegexKind::And(first, second)
        } else {
            r.node() == RegexKind::And(second, first)
        },
    }
}

/// The position of each kind in the order of nodes.
pub open spec fn rank<'a, A: Alphabet>(k: RegexKind<'a, A>) -> int {
    match k {
        RegexKind::Empty => 0,
        RegexKind::Class(_) => 1,
        RegexKind::Concat(_, _) => 2,
        RegexKind::Repetition(_) => 3,
        RegexKind::Alteration(_, _) => 4,
        RegexKind::And(_, _) => 5,
        RegexKind::Complement(_) => 6,
    }
}

/// A structural order on nodes: by kind, then classes by their
/// representation and operands from left to right; -1, 0 or 1.
pub closed spec fn kind_cmp<'a, A: Alphabet>(a: RegexKind<'a, A>, b: RegexKind<'a, A>) -> int
    decreases a,
{
    match (a, b) {
        (RegexKind::Empty, RegexKind::Empty) => 0,
        (RegexKind::Class(c), RegexKind::Class(d)) => seg_cmp(
            c.spec_set().spec_map().segments(),
            d.spec_set().spec_map().segments(),
        ),
        (RegexKind::Concat(x1, y1), RegexKind::Concat(x2, y2)) => {
            let h = kind_cmp(*x1.kind, *x2.kind);
            if h != 0 {
                h
            } else {
                kind_cmp(*y1.kind, *y2.kind)
            }
        },
        (RegexKind::Repetition(x1), RegexKind::Repetition(x2)) => kind_cmp(*x1.kind, *x2.kind),
        (RegexKind::Alteration(x1, y1), RegexKind::Alteration(x2, y2)) => {
            let h = kind_cmp(*x1.kind, *x2.kind);
            if h != 0 {
                h
            } else {
                kind_cmp(*y1.kind, *y2.kind)
            }
        },
        (RegexKind::And(x1, y1), RegexKind::And(x2, y2)) => {
            let h = kind_cmp(*x1.kind, *x2.kind);
            if h != 0 {
                h
            } else {
                kind_cmp(*y1.kind, *y2.kind)
            }
        },
        (RegexKind::Complement(x1), RegexKind::Complement(x2)) => kind_cmp(*x1.kind, *x2.kind),
        _ => if rank(a) < rank(b) {
            -1
        } else {
            1
        },
    }
}

/// Swapping the arguments of `kind_cmp` negates it.
pub proof fn lemma_kind_cmp_antisymmetric<'a, A: Alphabet>(a: RegexKind<'a, A>, b: RegexKind<'a, A>)
    ensures
        kind_cmp(a, b) == -kind_cmp(b, a),
    decreases a,
{
    match (a, b) {
        (RegexKind::Class(c), RegexKind::Class(d)) => {
            lemma_seg_cmp_antisymmetric(
                c.spec_set().spec_map().segments(),
                d.spec_set().spec_map().segments(),
            );
        },
        (RegexKind::Concat(x1, y1), RegexKind::Concat(x2, y2)) => {
            lemma_kind_cmp_antisymmetric(*x1.kind, *x2.kind);
            lemma_kind_cmp_antisymmetric(*y1.kind, *y2.kind);
        },
        (RegexKind::Repetition(x1), RegexKind::Repetition(x2)) => {
            lemma_kind_cmp_antisymmetric(*x1.kind, *x2.kind);
        },
        (RegexKind::Alteration(x1, y1), RegexKind::Alteration(x2, y2)) => {
            lemma_kind_cmp_antisymmetric(*x1.kind, *x2.kind);
            lemma_kind_cmp_antisymmetric(*y1.kind, *y2.kind);
        },
        (RegexKind::And(x1, y1), RegexKind::And(x2, y2)) => {
            lemma_kind_cmp_antisymmetric(*x1.kind, *x2.kind);
            lemma_kind_cmp_antisymmetric(*y1.kind, *y2.kind);
        },
        (RegexKind::Complement(x1), RegexKind::Complement(x2)) => {
            lemma_kind_cmp_antisymmetric(*x1.kind, *x2.kind);
        },
        _ => {},
    }
}

/// Every node compares equal to itself.
pub proof fn lemma_kind_cmp_reflexive<'a, A: Alphabet>(a: RegexKind<'a, A>)
    ensures
        kind_cmp(a, a) == 0,
    decreases a,
{
    match a {
        RegexKind::Class(c) => {
            lemma_seg_cmp_reflexive(c.spec_set().spec_map().segments());
        },
        RegexKind::Concat(x, y) => {
            lemma_kind_cmp_reflexive(*x.kind);
            lemma_kind_cmp_reflexive(*y.kind);
        },
        RegexKind::Repetition(x) => {
            lemma_kind_cmp_reflexive(*x.kind);
        },
        RegexKind::Alteration(x, y) => {
            lemma_kind_cmp_reflexive(*x.kind);
            lemma_kind_cmp_reflexive(*y.kind);
        },
        RegexKind::And(x, y) => {
            lemma_kind_cmp_reflexive(*x.kind);
            lemma_kind_cmp_reflexive(*y.kind);
        },
        RegexKind::Complement(x) => {
            lemma_kind_cmp_reflexive(*x.kind);
        },
        _ => {},
    }
}

/// Compares two nodes as `kind_cmp` does.
fn compare_kinds<'a, A: Alphabet>(a: &RegexKind<'a, A>, b: &RegexKind<'a, A>) -> (r: i8)
    ensures
        r as int == kind_cmp(*a, *b),
    decreases *a,
{
    match (a, b) {
        (RegexKind::Empty, RegexKind::Empty) => 0,
        (RegexKind::Class(c), RegexKind::Class(d)) => c.set.compare(&d.set),
        (RegexKind::Concat(x1, y1), RegexKind::Concat(x2, y2)) => {
            let h = compare_kinds(x1.kind, x2.kind);
            if h != 0 {
                h
            } else {
                compare_kinds(y1.kind, y2.kind)
            }
        },
        (RegexKind::Repetition(x1), RegexKind::Repetition(x2)) => compare_kinds(x1.kind, x2.kind),
        (RegexKind::Alteration(x1, y1), RegexKind::Alteration(x2, y2)) => {
            let h = compare_kinds(x1.kind, x2.kind);
            if h != 0 {
                h
            } else {
                compare_kinds(y1.kind, y2.kind)
            }
        },
        (RegexKind::And(x1, y1), RegexKind::And(x2, y2)) => {
            let h = compare_kinds(x1.kind, x2.kind);
            if h != 0 {
                h
            } else {
                compare_kinds(y1.kind, y2.kind)
            }
        },
        (RegexKind::Complement(x1), RegexKind::Complement(x2)) => compare_kinds(x1.kind, x2.kind),
        _ => if rank_of(a) < rank_of(b) {
            -1
        } else {
            1
        },
    }
}

/// The position of a node's kind in the order of nodes.
fn rank_of<'a, A: Alphabet>(k: &RegexKind<'a, A>) -> (r: u8)
    ensures
        r as int == rank(*k),
{
    match k {
        RegexKind::Empty => 0,
        RegexKind::Class(_) => 1,
        RegexKind::Concat(_, _) => 2,
        RegexKind::Repetition(_) => 3,
        RegexKind::Alteration(_, _) => 4,
        RegexKind::And(_, _) => 5,
        RegexKind::Complement(_) => 6,
    }
}

/// What `complement` yields: complementing a complement gives back its
/// operand.
pub open spec fn complement_result<'a, A: Alphabet>(operand: Regex<'a, A>, r: Regex<'a, A>) -> bool {
    match operand.node() {
        RegexKind::Complement(inner) => r == inner,
        _ => r.node() == RegexKind::Complement(operand),
    }
}

/// A context for creating regular expressions.
///
/// The context owns every node in an arena and is the only way to make a
/// `Regex`; its factory methods keep the expressions in canonical form by
/// the rules that `concat_result`, `repetition_result`, `alteration_result`,
/// `and_result` and `complement_result` state.
#[verifier::reject_recursive_types(A)]
pub struct RegexContext<'a, A: Alphabet> {
    arena: Arena<RegexKind<'a, A>>,
}

impl<'a, A: Alphabet> RegexContext<'a, A> {
    /// Creates a context that holds no expression yet.
    pub fn new() -> (r: RegexContext<'a, A>) {
        RegexContext { arena: Arena::new() }
    }

    /// Moves a node into the arena and hands back its handle.
    fn intern(&'a self, kind: RegexKind<'a, A>) -> (r: Regex<'a, A>)
        requires
            kind matches RegexKind::Complement(x) ==> !(x.node() is Complement),
        ensures
            r.node() == kind,
    {
        Regex { kind: alloc_node(&self.arena, kind) }
    }

    /// Whether `r` is a class with no member.
    fn is_nothing(r: &Regex<'a, A>) -> (b: bool)
        ensures
            b == matches_nothing(*r),
    {
        match r.kind {
            RegexKind::Class(c) => {
                proof {
                    use_type_invariant(c);
                }
                c.set.is_empty()
            },
            _ => false,
        }
    }

    /// The empty regular expression, which matches the empty string.
    pub fn empty(&'a self) -> (r: Regex<'a, A>)
        ensures
            r.wf(),
            r.node() is Empty,
    {
        self.intern(RegexKind::Empty)
    }

    /// The class regular expression that matches one element held by some
    /// range of `ranges`; with no range it matches nothing.
    pub fn class(&'a self, ranges: Vec<Range<A>>) -> (r: Regex<'a, A>)
        requires
            forall|k: int| 0 <= k < ranges@.len() ==> (#[trigger] ranges@[k]).wf(),
        ensures
            r.wf(),
            r.node() matches RegexKind::Class(c) && c@ == ranges_union(ranges@),
    {
        self.intern(RegexKind::Class(Class::from_iter(ranges)))
    }

    /// The concatenation of two expressions, in canonical form.
    pub fn concat(&'a self, first: Regex<'a, A>, second: Regex<'a, A>) -> (r: Regex<'a, A>)
        ensures
            r.wf(),
            concat_result(first, second, r),
    {
        first.reveal_wf();
        second.reveal_wf();
        if matches!(first.kind, RegexKind::Empty) {
            second
        } else if matches!(second.kind, RegexKind::Empty) {
            first
        } else if Self::is_nothing(&first) {
            first
        } else if Self::is_nothing(&second) {
            second
        } else {
            self.intern(RegexKind::Concat(first, second))
        }
    }

    /// Zero or more repetitions of an expression, in canonical form.
    pub fn repetition(&'a self, operand: Regex<'a, A>) -> (r: Regex<'a, A>)
        ensures
            r.wf(),
            repetition_result(operand, r),
    {
        operand.reveal_wf();
        if matches!(operand.kind, RegexKind::Repetition(_)) {
            operand
        } else if matches!(operand.kind, RegexKind::Empty) || Self::is_nothing(&operand) {
            self.empty()
        } else {
            self.intern(RegexKind::Repetition(operand))
        }
    }

    /// Either of two expressions, in canonical form.
    pub fn alteration(&'a self, first: Regex<'a, A>, second: Regex<'a, A>) -> (r: Regex<'a, A>)
        ensures
            r.wf(),
            alteration_result(first, second, r),
    {
        first.reveal_wf();
        second.reveal_wf();
        match (first.kind, second.kind) {
            (RegexKind::Class(c), RegexKind::Class(d)) => {
                proof {
                    use_type_invariant(c);
                    use_type_invariant(d);
                }
                self.intern(RegexKind::Class(Class { set: c.set.union(&d.set) }))
            },
            _ => {
                if Self::is_nothing(&first) {
                    second
                } else if Self::is_nothing(&second) {
                    first
                } else {
                    let h = compare_kinds(first.kind, second.kind);
                    if h == 0 {
                        first
                    } else if h < 0 {
                        self.intern(RegexKind::Alteration(first, second))
                    } else {
                        self.intern(RegexKind::Alteration(second, first))
                    }
                }
            },
        }
    }

    /// Both of two expressions, in canonical form.
    pub fn and(&'a self, first: Regex<'a, A>, second: Regex<'a, A>) -> (r: Regex<'a, A>)
        ensures
            r.wf(),
            and_result(first, second, r),
    {
        first.reveal_wf();
        second.reveal_wf();
        match (first.kind, second.kind) {
            (RegexKind::Class(c), RegexKind::Class(d)) => {
                proof {
                    use_type_invariant(c);
                    use_type_invariant(d);
                }
                self.intern(RegexKind::Class(Class { set: c.set.intersection(&d.set) }))
            },
            _ => {
                if Self::is_nothing(&first) {
                    first
                } else if Self::is_nothing(&second) {
                    second
                } else {
                    let h = compare_kinds(first.kind, second.kind);
                    if h == 0 {
                        first
                    } else if h < 0 {
                        self.intern(RegexKind::And(first, second))
                    } else {
                        self.intern(RegexKind::And(second, first))
                    }
                }
            },
        }
    }

    /// Everything an expression does not match, in canonical form.
    pub fn complement(&'a self, operand: Regex<'a, A>) -> (r: Regex<'a, A>)
        ensures
            r.wf(),
            complement_result(operand, r),
    {
        match operand.kind {
            RegexKind::Complement(inner) => {
                proof {
                    use_type_invariant(&operand);
                }
                let r = inner.clone();
                r.reveal_wf();
                r
            },
            _ => self.intern(RegexKind::Complement(operand)),
        }
    }
}

/// The alteration of two classes with the same members, built apart or
/// not, is that class again: the result has the same representation as the
/// first operand and compares equal to it.
pub proof fn law_alteration_of_equal_classes<'a, A: Alphabet>(
    first: Regex<'a, A>,
    second: Regex<'a, A>,
    r: Regex<'a, A>,
)
    requires
        first.wf(),
        second.wf(),
        match (first.node(), second.node()) {
            (RegexKind::Class(c), RegexKind::Class(d)) => c@ == d@,
            _ => false,
        },
        alteration_result(first, second, r),
    ensures
        match (r.node(), first.node()) {
            (RegexKind::Class(e), RegexKind::Class(c)) => e.spec_set().same_as(&c.spec_set()),
            _ => false,
        },
{
    match (r.node(), first.node()) {
        (RegexKind::Class(e), RegexKind::Class(c)) => {
            assert(c@.union(c@) =~= c@);
            assert(e@ == c@);
            lemma_class_canonical(e, c);
        },
        _ => {},
    }
}

/// `alteration` does not depend on the order of its operands: swapping them
/// gives a result that compares equal under `kind_cmp`.
pub proof fn law_alteration_order_independent<'a, A: Alphabet>(
    a: Regex<'a, A>,
    b: Regex<'a, A>,
    r1: Regex<'a, A>,
    r2: Regex<'a, A>,
)
    requires
        a.wf(),
        b.wf(),
        alteration_result(a, b, r1),
        alteration_result(b, a, r2),
    ensures
        kind_cmp(r1.node(), r2.node()) == 0,
{
    lemma_kind_cmp_antisymmetric(a.node(), b.node());
    lemma_kind_cmp_reflexive(r1.node());
    match (a.node(), b.node(), r1.node(), r2.node()) {
        (RegexKind::Class(c), RegexKind::Class(d), RegexKind::Class(e1), RegexKind::Class(e2)) => {
            assert(e1@ =~= e2@);
            lemma_class_canonical(e1, e2);
        },
        _ => {},
    }
}

/// `alteration` of an expression with itself gives an expression that compares
/// equal to it under `kind_cmp`.
pub proof fn law_alteration_idempotent<'a, A: Alphabet>(a: Regex<'a, A>, r: Regex<'a, A>)
    requires
        a.wf(),
        alteration_result(a, a, r),
    ensures
        kind_cmp(r.node(), a.node()) == 0,
{
    lemma_kind_cmp_reflexive(a.node());
    match (a.node(), r.node()) {
        (RegexKind::Class(c), RegexKind::Class(e)) => {
            assert(c@.union(c@) =~= c@);
            lemma_class_canonical(e, c);
        },
        _ => {},
    }
}

/// `and` does not depend on the order of its operands: swapping them
/// gives a result that compares equal under `kind_cmp`.
pub proof fn law_and_order_independent<'a, A: Alphabet>(
    a: Regex<'a, A>,
    b: Regex<'a, A>,
    r1: Regex<'a, A>,
    r2: Regex<'a, A>,
)
    requires
        a.wf(),
        b.wf(),
        and_result(a, b, r1),
        and_result(b, a, r2),
    ensures
        kind_cmp(r1.node(), r2.node()) == 0,
{
    lemma_kind_cmp_antisymmetric(a.node(), b.node());
    lemma_kind_cmp_reflexive(r1.node());
    match (a.node(), b.node(), r1.node(), r2.node()) {
        (RegexKind::Class(c), RegexKind::Class(d), RegexKind::Class(e1), RegexKind::Class(e2)) => {
            assert(e1@ =~= e2@);
            lemma_class_canonical(e1, e2);
        },
        _ => {},
    }
}

/// `and` of an expression with itself gives an expression that compares
/// equal to it under `kind_cmp`.
pub proof fn law_and_idempotent<'a, A: Alphabet>(a: Regex<'a, A>, r: Regex<'a, A>)
    requires
        a.wf(),
        and_result(a, a, r),
    ensures
        kind_cmp(r.node(), a.node()) == 0,
{
    lemma_kind_cmp_reflexive(a.node());
    match (a.node(), r.node()) {
        (RegexKind::Class(c), RegexKind::Class(e)) => {
            assert(c@.intersect(c@) =~= c@);
            lemma_class_canonical(e, c);
        },
        _ => {},
    }
}

/// Complementing twice gives back an expression of the same kind.
pub proof fn law_complement_of_complement<'a, A: Alphabet>(
    r: Regex<'a, A>,
    c: Regex<'a, A>,
    cc: Regex<'a, A>,
)
    requires
        r.wf(),
        complement_result(r, c),
        complement_result(c, cc),
    ensures
        cc.node() == r.node(),
{
}

} // verus!
