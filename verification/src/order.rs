//! The algebra that timestamps and path summaries bring with them.
//!
//! A timestamp carries two orders: the partial order of the dataflow model
//! (`leq`), and a strict total order (`before`) by which buffers and the work list
//! are kept sorted. A path summary acts on timestamps and composes along paths.
use vstd::prelude::*;

verus! {

/// Decidable equality and duplication, both exact.
pub trait Value: Sized {
    /// Equality test.
    fn same(&self, other: &Self) -> (r: bool)
        ensures
            r == (*self == *other),
    ;

    /// A copy of the value.
    fn duplicate(&self) -> (r: Self)
        ensures
            r == *self,
    ;
}

/// A strict total order.
pub trait Key: Value {
    /// `a.before(b)`: `a` sorts strictly ahead of `b`.
    spec fn before(self, other: Self) -> bool;

    /// Nothing sorts ahead of itself.
    proof fn before_irreflexive(a: Self)
        ensures
            !a.before(a),
    ;

    /// What sorts ahead of a value sorts ahead of what the value sorts ahead of.
    proof fn before_transitive(a: Self, b: Self, c: Self)
        requires
            a.before(b),
            b.before(c),
        ensures
            a.before(c),
    ;

    /// Of two different values one sorts ahead of the other.
    proof fn before_total(a: Self, b: Self)
        ensures
            a.before(b) || b.before(a) || a == b,
    ;

    /// Decides `before`.
    fn precedes(&self, other: &Self) -> (r: bool)
        ensures
            r == self.before(*other),
    ;
}

/// A partial order.
pub trait PartialOrder: Sized {
    /// `a.leq(b)`: `a` is less than or equal to `b`.
    spec fn leq(self, other: Self) -> bool;

    /// Every value is less than or equal to itself.
    proof fn le_reflexive(a: Self)
        ensures
            a.leq(a),
    ;

    /// The order is transitive.
    proof fn le_transitive(a: Self, b: Self, c: Self)
        requires
            a.leq(b),
            b.leq(c),
        ensures
            a.leq(c),
    ;

    /// Two values that are less than or equal to each other are the same.
    proof fn le_antisymmetric(a: Self, b: Self)
        requires
            a.leq(b),
            b.leq(a),
        ensures
            a == b,
    ;

    /// Decides `leq`.
    fn less_equal(&self, other: &Self) -> (r: bool)
        ensures
            r == self.leq(*other),
    ;

    /// Decides the strict part of `leq`.
    fn less_than(&self, other: &Self) -> (r: bool)
        ensures
            r == (self.leq(*other) && *self != *other),
    ;
}

/// The action of a path on timestamps of type `T`.
pub trait PathSummary<T: PartialOrder>: PartialOrder + Value {
    /// The timestamp that `t` becomes along the path, if any.
    spec fn apply(self, t: T) -> Option<T>;

    /// The summary of this path followed by `next`, if any.
    spec fn compose(self, next: Self) -> Option<Self>;

    /// The summary of the empty path.
    spec fn identity() -> Self;

    /// The empty path leaves every timestamp as it is.
    proof fn identity_applies(t: T)
        ensures
            Self::identity().apply(t) == Some(t),
    ;

    /// The empty path before or behind a path is that path.
    proof fn identity_then(s: Self)
        ensures
            Self::identity().compose(s) == Some(s),
            s.compose(Self::identity()) == Some(s),
    ;

    /// A path never moves a timestamp backwards.
    proof fn apply_advances(s: Self, t: T)
        ensures
            s.apply(t) matches Some(u) ==> t.leq(u),
    ;

    /// A path followed by a lesser path is a lesser path: where `self` can be
    /// followed by `next`, it can be followed by every summary that is less than
    /// or equal to `next`, and the result is less than or equal.
    proof fn compose_grows(s: Self, less: Self, next: Self)
        requires
            less.leq(next),
            s.compose(next) is Some,
        ensures
            s.compose(less) is Some,
            s.compose(less).unwrap().leq(s.compose(next).unwrap()),
    ;

    /// Only the empty path leaves a timestamp as it is.
    proof fn apply_changes(s: Self, t: T)
        requires
            s != Self::identity(),
        ensures
            s.apply(t) != Some(t),
    ;

    /// A number that tells the summary apart from every other summary.
    spec fn code(self) -> int;

    /// The number of codes: there are only so many summaries.
    spec fn codes() -> int;

    /// Every code is below the number of codes.
    proof fn code_bounded(s: Self)
        ensures
            0 <= s.code() < Self::codes(),
    ;

    /// Different summaries have different codes.
    proof fn code_distinct(a: Self, b: Self)
        requires
            a.code() == b.code(),
        ensures
            a == b,
    ;

    /// Computes `apply`.
    fn results_in(&self, t: &T) -> (r: Option<T>)
        ensures
            r == self.apply(*t),
    ;

    /// Computes `compose`.
    fn followed_by(&self, next: &Self) -> (r: Option<Self>)
        ensures
            r == self.compose(*next),
    ;

    /// The summary of the empty path.
    fn default_summary() -> (r: Self)
        ensures
            r == Self::identity(),
    ;

    /// Whether this is the summary of the empty path.
    fn is_default(&self) -> (r: bool)
        ensures
            r == (*self == Self::identity()),
    ;
}

/// A logical timestamp.
pub trait Timestamp: PartialOrder + Key {
    /// The summaries of paths between locations.
    type Summary: PathSummary<Self>;

    /// The sorting order extends the partial order.
    proof fn le_sorts(a: Self, b: Self)
        requires
            a.leq(b),
        ensures
            a == b || a.before(b),
    ;

    /// How far the timestamp is below the greatest: timestamps cannot rise
    /// without end.
    spec fn height(self) -> nat;

    /// A bound on the heights of timestamps.
    spec fn horizon() -> nat;

    /// No height is above the horizon.
    proof fn height_bounded(a: Self)
        ensures
            a.height() <= Self::horizon(),
    ;

    /// What sorts behind a timestamp is lower than it.
    proof fn height_falls(a: Self, b: Self)
        requires
            a.before(b),
        ensures
            b.height() < a.height(),
    ;
}

impl Value for usize {
    fn same(&self, other: &Self) -> (r: bool) {
        *self == *other
    }

    fn duplicate(&self) -> (r: Self) {
        *self
    }
}

impl Key for usize {
    open spec fn before(self, other: Self) -> bool {
        self < other
    }

    proof fn before_irreflexive(a: Self) {
    }

    proof fn before_transitive(a: Self, b: Self, c: Self) {
    }

    proof fn before_total(a: Self, b: Self) {
    }

    fn precedes(&self, other: &Self) -> (r: bool) {
        *self < *other
    }
}

impl PartialOrder for usize {
    open spec fn leq(self, other: Self) -> bool {
        self <= other
    }

    proof fn le_reflexive(a: Self) {
    }

    proof fn le_transitive(a: Self, b: Self, c: Self) {
    }

    proof fn le_antisymmetric(a: Self, b: Self) {
    }

    fn less_equal(&self, other: &Self) -> (r: bool) {
        *self <= *other
    }

    fn less_than(&self, other: &Self) -> (r: bool) {
        *self < *other
    }
}

/// A `usize` summary adds itself to a `usize` timestamp, as far as the sum fits.
impl PathSummary<usize> for usize {
    open spec fn apply(self, t: usize) -> Option<usize> {
        if self + t <= usize::MAX {
            Some((self + t) as usize)
        } else {
            None
        }
    }

    open spec fn compose(self, next: Self) -> Option<Self> {
        if self + next <= usize::MAX {
            Some((self + next) as usize)
        } else {
            None
        }
    }

    open spec fn identity() -> Self {
        0
    }

    proof fn identity_applies(t: usize) {
    }

    proof fn identity_then(s: Self) {
    }

    proof fn apply_advances(s: Self, t: usize) {
    }

    proof fn compose_grows(s: Self, less: Self, next: Self) {
    }

    proof fn apply_changes(s: Self, t: usize) {
    }

    open spec fn code(self) -> int {
        self as int
    }

    open spec fn codes() -> int {
        usize::MAX + 1
    }

    proof fn code_bounded(s: Self) {
    }

    proof fn code_distinct(a: Self, b: Self) {
    }

    fn results_in(&self, t: &usize) -> (r: Option<usize>) {
        if *self <= usize::MAX - *t {
            Some(*self + *t)
        } else {
            None
        }
    }

    fn followed_by(&self, next: &Self) -> (r: Option<Self>) {
        if *self <= usize::MAX - *next {
            Some(*self + *next)
        } else {
            None
        }
    }

    fn default_summary() -> (r: Self) {
        0
    }

    fn is_default(&self) -> (r: bool) {
        *self == 0
    }
}

impl Timestamp for usize {
    type Summary = usize;

    proof fn le_sorts(a: Self, b: Self) {
    }

    open spec fn height(self) -> nat {
        (usize::MAX - self) as nat
    }

    open spec fn horizon() -> nat {
        usize::MAX as nat
    }

    proof fn height_bounded(a: Self) {
    }

    proof fn height_falls(a: Self, b: Self) {
    }
}

impl Value for i64 {
    fn same(&self, other: &Self) -> (r: bool) {
        *self == *other
    }

    fn duplicate(&self) -> (r: Self) {
        *self
    }
}

impl<A: Value, B: Value> Value for (A, B) {
    fn same(&self, other: &Self) -> (r: bool) {
        self.0.same(&other.0) && self.1.same(&other.1)
    }

    fn duplicate(&self) -> (r: Self) {
        (self.0.duplicate(), self.1.duplicate())
    }
}

/// Pairs sort by their first part, then by their second.
impl<A: Key, B: Key> Key for (A, B) {
    open spec fn before(self, other: Self) -> bool {
        self.0.before(other.0) || (self.0 == other.0 && self.1.before(other.1))
    }

    proof fn before_irreflexive(a: Self) {
        A::before_irreflexive(a.0);
        B::before_irreflexive(a.1);
    }

    proof fn before_transitive(a: Self, b: Self, c: Self) {
        A::before_irreflexive(a.0);
        A::before_irreflexive(b.0);
        if a.0.before(b.0) && b.0.before(c.0) {
            A::before_transitive(a.0, b.0, c.0);
        }
        if a.0 == b.0 && b.0 == c.0 {
            B::before_transitive(a.1, b.1, c.1);
        }
    }

    proof fn before_total(a: Self, b: Self) {
        A::before_total(a.0, b.0);
        B::before_total(a.1, b.1);
    }

    fn precedes(&self, other: &Self) -> (r: bool) {
        self.0.precedes(&other.0) || (self.0.same(&other.0) && self.1.precedes(&other.1))
    }
}

/// Pairs are ordered part by part: a pair is less than or equal to another
/// where both of its parts are.
impl<A: PartialOrder + Value, B: PartialOrder + Value> PartialOrder for (A, B) {
    open spec fn leq(self, other: Self) -> bool {
        self.0.leq(other.0) && self.1.leq(other.1)
    }

    proof fn le_reflexive(a: Self) {
        A::le_reflexive(a.0);
        B::le_reflexive(a.1);
    }

    proof fn le_transitive(a: Self, b: Self, c: Self) {
        A::le_transitive(a.0, b.0, c.0);
        B::le_transitive(a.1, b.1, c.1);
    }

    proof fn le_antisymmetric(a: Self, b: Self) {
        A::le_antisymmetric(a.0, b.0);
        B::le_antisymmetric(a.1, b.1);
    }

    fn less_equal(&self, other: &Self) -> (r: bool) {
        self.0.less_equal(&other.0) && self.1.less_equal(&other.1)
    }

    fn less_than(&self, other: &Self) -> (r: bool) {
        self.0.less_equal(&other.0) && self.1.less_equal(&other.1) && !(self.0.same(&other.0)
            && self.1.same(&other.1))
    }
}

/// A pair of summaries acts on a pair of timestamps part by part.
impl<A: Timestamp, B: Timestamp> PathSummary<(A, B)> for (A::Summary, B::Summary) {
    open spec fn apply(self, t: (A, B)) -> Option<(A, B)> {
        match (self.0.apply(t.0), self.1.apply(t.1)) {
            (Some(a), Some(b)) => Some((a, b)),
            _ => None,
        }
    }

    open spec fn compose(self, next: Self) -> Option<Self> {
        match (self.0.compose(next.0), self.1.compose(next.1)) {
            (Some(a), Some(b)) => Some((a, b)),
            _ => None,
        }
    }

    open spec fn identity() -> Self {
        (A::Summary::identity(), B::Summary::identity())
    }

    proof fn identity_applies(t: (A, B)) {
        A::Summary::identity_applies(t.0);
        B::Summary::identity_applies(t.1);
    }

    proof fn identity_then(s: Self) {
        <A::Summary as PathSummary<A>>::identity_then(s.0);
        <B::Summary as PathSummary<B>>::identity_then(s.1);
    }

    proof fn apply_advances(s: Self, t: (A, B)) {
        <A::Summary as PathSummary<A>>::apply_advances(s.0, t.0);
        <B::Summary as PathSummary<B>>::apply_advances(s.1, t.1);
    }

    proof fn compose_grows(s: Self, less: Self, next: Self) {
        <A::Summary as PathSummary<A>>::compose_grows(s.0, less.0, next.0);
        <B::Summary as PathSummary<B>>::compose_grows(s.1, less.1, next.1);
    }

    proof fn apply_changes(s: Self, t: (A, B)) {
        if s.0 != A::Summary::identity() {
            <A::Summary as PathSummary<A>>::apply_changes(s.0, t.0);
        }
        if s.1 != B::Summary::identity() {
            <B::Summary as PathSummary<B>>::apply_changes(s.1, t.1);
        }
    }

    open spec fn code(self) -> int {
        self.0.code() * B::Summary::codes() + self.1.code()
    }

    open spec fn codes() -> int {
        A::Summary::codes() * B::Summary::codes()
    }

    proof fn code_bounded(s: Self) {
        <A::Summary as PathSummary<A>>::code_bounded(s.0);
        <B::Summary as PathSummary<B>>::code_bounded(s.1);
        let a = s.0.code();
        let b = s.1.code();
        let na = A::Summary::codes();
        let nb = B::Summary::codes();
        assert(0 <= a * nb + b < na * nb) by (nonlinear_arith)
            requires
                0 <= a < na,
                0 <= b < nb,
        ;
    }

    proof fn code_distinct(a: Self, b: Self) {
        <A::Summary as PathSummary<A>>::code_bounded(a.0);
        <B::Summary as PathSummary<B>>::code_bounded(a.1);
        <A::Summary as PathSummary<A>>::code_bounded(b.0);
        <B::Summary as PathSummary<B>>::code_bounded(b.1);
        let a0 = a.0.code();
        let a1 = a.1.code();
        let b0 = b.0.code();
        let b1 = b.1.code();
        let nb = B::Summary::codes();
        assert(a0 == b0 && a1 == b1) by (nonlinear_arith)
            requires
                a0 * nb + a1 == b0 * nb + b1,
                0 <= a1 < nb,
                0 <= b1 < nb,
        ;
        <A::Summary as PathSummary<A>>::code_distinct(a.0, b.0);
        <B::Summary as PathSummary<B>>::code_distinct(a.1, b.1);
    }

    fn results_in(&self, t: &(A, B)) -> (r: Option<(A, B)>) {
        match self.0.results_in(&t.0) {
            Some(a) => match self.1.results_in(&t.1) {
                Some(b) => Some((a, b)),
                None => None,
            },
            None => None,
        }
    }

    fn followed_by(&self, next: &Self) -> (r: Option<Self>) {
        match self.0.followed_by(&next.0) {
            Some(a) => match self.1.followed_by(&next.1) {
                Some(b) => Some((a, b)),
                None => None,
            },
            None => None,
        }
    }

    fn default_summary() -> (r: Self) {
        (A::Summary::default_summary(), B::Summary::default_summary())
    }

    fn is_default(&self) -> (r: bool) {
        self.0.is_default() && self.1.is_default()
    }
}

/// Pairs of timestamps are timestamps: ordered part by part, and sorted by
/// their first part, then by their second.
impl<A: Timestamp, B: Timestamp> Timestamp for (A, B) {
    type Summary = (A::Summary, B::Summary);

    proof fn le_sorts(a: Self, b: Self) {
        A::le_sorts(a.0, b.0);
        B::le_sorts(a.1, b.1);
    }

    open spec fn height(self) -> nat {
        self.0.height() * (B::horizon() + 1) + self.1.height()
    }

    open spec fn horizon() -> nat {
        A::horizon() * (B::horizon() + 1) + B::horizon()
    }

    proof fn height_bounded(a: Self) {
        A::height_bounded(a.0);
        B::height_bounded(a.1);
        let h0 = a.0.height();
        let top = A::horizon();
        let width = B::horizon() + 1;
        assert(h0 * width <= top * width) by (nonlinear_arith)
            requires
                h0 <= top,
                0 <= width,
        ;
    }

    proof fn height_falls(a: Self, b: Self) {
        B::height_bounded(a.1);
        B::height_bounded(b.1);
        if a.0.before(b.0) {
            A::height_falls(a.0, b.0);
            let ha = a.0.height();
            let hb = b.0.height();
            let width = B::horizon() + 1;
            assert(hb * width + width <= ha * width) by (nonlinear_arith)
                requires
                    hb < ha,
                    0 <= width,
            ;
        } else {
            B::height_falls(a.1, b.1);
        }
    }
}

} // verus!
