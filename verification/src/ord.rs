use crate::lattice::{Order, SemiLattice};
use crate::pair::compare_fields;
use crate::scalar::Bounded;
use vstd::prelude::*;

verus! {

/// A register that keeps the largest value it has seen.
#[derive(Clone, Copy, Debug, PartialEq, Eq)]
pub struct Max<T>(pub T);

/// A register that keeps the smallest value it has seen.
#[derive(Clone, Copy, Debug, PartialEq, Eq)]
pub struct Min<T>(pub T);

/// The default value is the bottom element.
impl<T: Bounded> Default for Max<T> {
    fn default() -> (r: Self)
        ensures
            r == Max(T::lowest()),
    {
        Max(T::min_value())
    }
}

/// The default value is the bottom element.
impl<T: Bounded> Default for Min<T> {
    fn default() -> (r: Self)
        ensures
            r == Min(T::highest()),
    {
        Min(T::max_value())
    }
}

impl<T: Bounded> SemiLattice for Max<T> {
    type Model = T;

    open spec fn model(&self) -> T {
        self.0
    }

    open spec fn wf(&self) -> bool {
        true
    }

    open spec fn lawful() -> bool {
        true
    }

    open spec fn valid(m: T) -> bool {
        true
    }

    open spec fn bottom_model() -> T {
        T::lowest()
    }

    open spec fn leq(a: T, b: T) -> bool {
        a.rank() <= b.rank()
    }

    open spec fn lub(a: T, b: T) -> T {
        if b.rank() <= a.rank() {
            a
        } else {
            b
        }
    }

    open spec fn associative() -> bool {
        true
    }

    proof fn lemma_wf_valid(v: Self) {
    }

    proof fn lemma_bottom_valid() {
    }

    proof fn lemma_lub_valid(a: T, b: T) {
    }

    proof fn lemma_leq_reflexive(a: T) {
    }

    proof fn lemma_leq_antisymmetric(a: T, b: T) {
        T::lemma_rank_injective(a, b);
    }

    proof fn lemma_leq_transitive(a: T, b: T, c: T) {
    }

    proof fn lemma_bottom_least(a: T) {
        T::lemma_rank_bounds(a);
    }

    proof fn lemma_join_associative(a: T, b: T, c: T) {
    }

    proof fn lemma_join_commutative(a: T, b: T) {
        if a.rank() == b.rank() {
            T::lemma_rank_injective(a, b);
        }
    }

    proof fn lemma_join_idempotent(a: T) {
    }

    proof fn lemma_join_order(a: T, b: T) {
        if a.rank() == b.rank() {
            T::lemma_rank_injective(a, b);
        }
    }

    fn bottom() -> (r: Self) {
        assert(Self::bottom_model() == T::lowest());
        Max(T::min_value())
    }

    fn compare(&self, other: &Self) -> (r: Option<Order>) {
        let below = self.0.at_most(&other.0);
        let above = other.0.at_most(&self.0);
        if below && above {
            Some(Order::Equal)
        } else if below {
            Some(Order::Less)
        } else {
            Some(Order::Greater)
        }
    }

    fn join(self, other: Self) -> (r: Self) {
        if other.0.at_most(&self.0) {
            self
        } else {
            other
        }
    }

    fn replicate(&self) -> (r: Self) {
        Max(self.0)
    }
}

impl<T: Bounded> SemiLattice for Min<T> {
    type Model = T;

    open spec fn model(&self) -> T {
        self.0
    }

    open spec fn wf(&self) -> bool {
        true
    }

    open spec fn lawful() -> bool {
        true
    }

    open spec fn valid(m: T) -> bool {
        true
    }

    open spec fn bottom_model() -> T {
        T::highest()
    }

    open spec fn leq(a: T, b: T) -> bool {
        b.rank() <= a.rank()
    }

    open spec fn lub(a: T, b: T) -> T {
        if a.rank() <= b.rank() {
            a
        } else {
            b
        }
    }

    open spec fn associative() -> bool {
        true
    }

    proof fn lemma_wf_valid(v: Self) {
    }

    proof fn lemma_bottom_valid() {
    }

    proof fn lemma_lub_valid(a: T, b: T) {
    }

    proof fn lemma_leq_reflexive(a: T) {
    }

    proof fn lemma_leq_antisymmetric(a: T, b: T) {
        T::lemma_rank_injective(a, b);
    }

    proof fn lemma_leq_transitive(a: T, b: T, c: T) {
    }

    proof fn lemma_bottom_least(a: T) {
        T::lemma_rank_bounds(a);
    }

    proof fn lemma_join_associative(a: T, b: T, c: T) {
    }

    proof fn lemma_join_commutative(a: T, b: T) {
        if a.rank() == b.rank() {
            T::lemma_rank_injective(a, b);
        }
    }

    proof fn lemma_join_idempotent(a: T) {
    }

    proof fn lemma_join_order(a: T, b: T) {
        if a.rank() == b.rank() {
            T::lemma_rank_injective(a, b);
        }
    }

    fn bottom() -> (r: Self) {
        assert(Self::bottom_model() == T::highest());
        Min(T::max_value())
    }

    fn compare(&self, other: &Self) -> (r: Option<Order>) {
        let below = other.0.at_most(&self.0);
        let above = self.0.at_most(&other.0);
        if below && above {
            Some(Order::Equal)
        } else if below {
            Some(Order::Less)
        } else {
            Some(Order::Greater)
        }
    }

    fn join(self, other: Self) -> (r: Self) {
        if self.0.at_most(&other.0) {
            self
        } else {
            other
        }
    }

    fn replicate(&self) -> (r: Self) {
        Min(self.0)
    }
}

/// A range of values between a lower and an upper bound. Joining two
/// ranges keeps what both allow: the greater lower bound and the smaller
/// upper bound. A range that allows nothing collapses to the top element.
#[derive(Debug, PartialEq)]
pub struct Interval<T> {
    pub lower: Max<T>,
    pub upper: Min<T>,
}

/// The top element: the range that allows nothing.
pub open spec fn interval_top<T: Bounded>() -> (T, T) {
    (T::highest(), T::lowest())
}

/// The greater lower bound and the smaller upper bound of two ranges.
pub open spec fn interval_meet<T: Bounded>(a: (T, T), b: (T, T)) -> (T, T) {
    (Max::<T>::lub(a.0, b.0), Min::<T>::lub(a.1, b.1))
}

impl<T: Bounded> Interval<T> {
    /// The top element: the range that allows nothing.
    pub fn top() -> (r: Self)
        ensures
            r.model() == interval_top::<T>(),
            r.wf(),
    {
        Interval { lower: Max(T::max_value()), upper: Min(T::min_value()) }
    }

    /// The range from `lower` to `upper`; the top element where `lower` lies
    /// above `upper`.
    pub fn from(bounds: (T, T)) -> (r: Self)
        ensures
            r.wf(),
            r.model() == if bounds.0.rank() <= bounds.1.rank() {
                bounds
            } else {
                interval_top::<T>()
            },
    {
        if bounds.0.at_most(&bounds.1) {
            Interval { lower: Max(bounds.0), upper: Min(bounds.1) }
        } else {
            Self::top()
        }
    }
}

/// The default value is the bottom element.
impl<T: Bounded> Default for Interval<T> {
    fn default() -> (r: Self)
        ensures
            r.wf(),
            r.model() == <Self as SemiLattice>::bottom_model(),
    {
        <Self as SemiLattice>::bottom()
    }
}

impl<T: Bounded> SemiLattice for Interval<T> {
    /// The lower and the upper bound.
    type Model = (T, T);

    open spec fn model(&self) -> (T, T) {
        (self.lower.0, self.upper.0)
    }

    open spec fn wf(&self) -> bool {
        Self::valid(self.model())
    }

    open spec fn lawful() -> bool {
        true
    }

    open spec fn valid(m: (T, T)) -> bool {
        m.0.rank() <= m.1.rank() || m == interval_top::<T>()
    }

    open spec fn bottom_model() -> (T, T) {
        (T::lowest(), T::highest())
    }

    open spec fn leq(a: (T, T), b: (T, T)) -> bool {
        a.0.rank() <= b.0.rank() && b.1.rank() <= a.1.rank()
    }

    open spec fn lub(a: (T, T), b: (T, T)) -> (T, T) {
        let m = interval_meet(a, b);
        if m.0.rank() <= m.1.rank() {
            m
        } else {
            interval_top::<T>()
        }
    }

    open spec fn associative() -> bool {
        true
    }

    proof fn lemma_wf_valid(v: Self) {
    }

    proof fn lemma_bottom_valid() {
        T::lemma_rank_bounds(T::lowest());
    }

    proof fn lemma_lub_valid(a: (T, T), b: (T, T)) {
    }

    proof fn lemma_leq_reflexive(a: (T, T)) {
    }

    proof fn lemma_leq_antisymmetric(a: (T, T), b: (T, T)) {
        T::lemma_rank_injective(a.0, b.0);
        T::lemma_rank_injective(a.1, b.1);
    }

    proof fn lemma_leq_transitive(a: (T, T), b: (T, T), c: (T, T)) {
    }

    proof fn lemma_bottom_least(a: (T, T)) {
        T::lemma_rank_bounds(a.0);
        T::lemma_rank_bounds(a.1);
    }

    proof fn lemma_join_associative(a: (T, T), b: (T, T), c: (T, T)) {
        lemma_interval_ranks::<T>();
    }

    proof fn lemma_join_commutative(a: (T, T), b: (T, T)) {
        lemma_interval_ranks::<T>();
    }

    proof fn lemma_join_idempotent(a: (T, T)) {
        lemma_interval_ranks::<T>();
    }

    proof fn lemma_join_order(a: (T, T), b: (T, T)) {
        lemma_interval_ranks::<T>();
    }

    fn bottom() -> (r: Self) {
        proof {
            assert(Self::bottom_model() == (T::lowest(), T::highest()));
            T::lemma_rank_bounds(T::lowest());
        }
        Interval { lower: Max(T::min_value()), upper: Min(T::max_value()) }
    }

    fn compare(&self, other: &Self) -> (r: Option<Order>) {
        compare_fields(&self.lower, &self.upper, &other.lower, &other.upper)
    }

    fn join(self, other: Self) -> (r: Self) {
        let lower = self.lower.join(other.lower);
        let upper = self.upper.join(other.upper);
        if lower.0.at_most(&upper.0) {
            Interval { lower, upper }
        } else {
            Self::top()
        }
    }

    fn replicate(&self) -> (r: Self) {
        Interval { lower: Max(self.lower.0), upper: Min(self.upper.0) }
    }
}

/// Bounds of equal rank are the same bound, and every bound lies between the
/// least and the greatest value.
proof fn lemma_interval_ranks<T: Bounded>()
    ensures
        forall|x: T, y: T| x.rank() == y.rank() ==> x == y,
        forall|x: T| T::lowest().rank() <= #[trigger] x.rank() <= T::highest().rank(),
{
    assert forall|x: T, y: T| x.rank() == y.rank() implies x == y by {
        T::lemma_rank_injective(x, y);
    }
    assert forall|x: T| T::lowest().rank() <= #[trigger] x.rank() <= T::highest().rank() by {
        T::lemma_rank_bounds(x);
    }
}

} // verus!
