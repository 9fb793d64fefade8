use crate::lattice::{Order, SemiLattice};
use vstd::prelude::*;

verus! {

/// A lattice with a new bottom element below it: `None` lies below every
/// `Some`, and the values inside `Some` order and join as they do in `T`.
impl<T: SemiLattice> SemiLattice for Option<T> {
    type Model = Option<T::Model>;

    open spec fn model(&self) -> Option<T::Model> {
        match self {
            Some(v) => Some(v.model()),
            None => None,
        }
    }

    open spec fn wf(&self) -> bool {
        match self {
            Some(v) => v.wf(),
            None => true,
        }
    }

    open spec fn lawful() -> bool {
        T::lawful()
    }

    open spec fn valid(m: Option<T::Model>) -> bool {
        match m {
            Some(v) => T::valid(v),
            None => true,
        }
    }

    open spec fn bottom_model() -> Option<T::Model> {
        None
    }

    open spec fn leq(a: Option<T::Model>, b: Option<T::Model>) -> bool {
        match (a, b) {
            (None, _) => true,
            (Some(_), None) => false,
            (Some(x), Some(y)) => T::leq(x, y),
        }
    }

    open spec fn lub(a: Option<T::Model>, b: Option<T::Model>) -> Option<T::Model> {
        match (a, b) {
            (None, _) => b,
            (_, None) => a,
            (Some(x), Some(y)) => Some(T::lub(x, y)),
        }
    }

    open spec fn associative() -> bool {
        T::associative()
    }

    proof fn lemma_wf_valid(v: Self) {
        if let Some(x) = v {
            T::lemma_wf_valid(x);
        }
    }

    proof fn lemma_bottom_valid() {
    }

    proof fn lemma_lub_valid(a: Option<T::Model>, b: Option<T::Model>) {
        if let (Some(x), Some(y)) = (a, b) {
            T::lemma_lub_valid(x, y);
        }
    }

    proof fn lemma_leq_reflexive(a: Option<T::Model>) {
        if let Some(x) = a {
            T::lemma_leq_reflexive(x);
        }
    }

    proof fn lemma_leq_antisymmetric(a: Option<T::Model>, b: Option<T::Model>) {
        if let (Some(x), Some(y)) = (a, b) {
            T::lemma_leq_antisymmetric(x, y);
        }
    }

    proof fn lemma_leq_transitive(a: Option<T::Model>, b: Option<T::Model>, c: Option<T::Model>) {
        if let (Some(x), Some(y), Some(z)) = (a, b, c) {
            T::lemma_leq_transitive(x, y, z);
        }
    }

    proof fn lemma_bottom_least(a: Option<T::Model>) {
    }

    proof fn lemma_join_associative(
        a: Option<T::Model>,
        b: Option<T::Model>,
        c: Option<T::Model>,
    ) {
        if let (Some(x), Some(y), Some(z)) = (a, b, c) {
            T::lemma_join_associative(x, y, z);
        }
    }

    proof fn lemma_join_commutative(a: Option<T::Model>, b: Option<T::Model>) {
        if let (Some(x), Some(y)) = (a, b) {
            T::lemma_join_commutative(x, y);
        }
    }

    proof fn lemma_join_idempotent(a: Option<T::Model>) {
        if let Some(x) = a {
            T::lemma_join_idempotent(x);
        }
    }

    proof fn lemma_join_order(a: Option<T::Model>, b: Option<T::Model>) {
        if let (Some(x), Some(y)) = (a, b) {
            T::lemma_join_order(x, y);
        }
    }

    fn bottom() -> (r: Self) {
        assert(Self::bottom_model() == None::<T::Model>);
        None
    }

    fn compare(&self, other: &Self) -> (r: Option<Order>) {
        match (self, other) {
            (None, None) => Some(Order::Equal),
            (None, Some(_)) => Some(Order::Less),
            (Some(_), None) => Some(Order::Greater),
            (Some(a), Some(b)) => a.compare(b),
        }
    }

    fn join(self, other: Self) -> (r: Self) {
        match (self, other) {
            (None, b) => b,
            (a, None) => a,
            (Some(a), Some(b)) => Some(a.join(b)),
        }
    }

    fn replicate(&self) -> (r: Self) {
        match self {
            Some(v) => Some(v.replicate()),
            None => None,
        }
    }
}

/// A lattice with a new top element above it: `Top` lies above every
/// `Value`, and absorbs whatever is joined with it.
#[derive(Debug, Clone, Copy, PartialEq)]
pub enum UpsideDownOption<T> {
    Value(T),
    Top,
}

impl<T> UpsideDownOption<T> {
    /// Turns an `Option` upside down: its `None` becomes the top element.
    pub fn from_option(o: Option<T>) -> (r: Self)
        ensures
            r == match o {
                Some(v) => UpsideDownOption::Value(v),
                None => UpsideDownOption::Top,
            },
    {
        match o {
            Some(v) => UpsideDownOption::Value(v),
            None => UpsideDownOption::Top,
        }
    }
}

/// The default value is the bottom element.
impl<T: SemiLattice> Default for UpsideDownOption<T> {
    fn default() -> (r: Self)
        ensures
            r.wf(),
            r.model() == <Self as SemiLattice>::bottom_model(),
    {
        <Self as SemiLattice>::bottom()
    }
}

impl<T: SemiLattice> SemiLattice for UpsideDownOption<T> {
    /// In the model `None` stands for the top element.
    type Model = Option<T::Model>;

    open spec fn model(&self) -> Option<T::Model> {
        match self {
            UpsideDownOption::Value(v) => Some(v.model()),
            UpsideDownOption::Top => None,
        }
    }

    open spec fn wf(&self) -> bool {
        match self {
            UpsideDownOption::Value(v) => v.wf(),
            UpsideDownOption::Top => true,
        }
    }

    open spec fn lawful() -> bool {
        T::lawful()
    }

    open spec fn valid(m: Option<T::Model>) -> bool {
        match m {
            Some(v) => T::valid(v),
            None => true,
        }
    }

    open spec fn bottom_model() -> Option<T::Model> {
        Some(T::bottom_model())
    }

    open spec fn leq(a: Option<T::Model>, b: Option<T::Model>) -> bool {
        match (a, b) {
            (_, None) => true,
            (None, Some(_)) => false,
            (Some(x), Some(y)) => T::leq(x, y),
        }
    }

    open spec fn lub(a: Option<T::Model>, b: Option<T::Model>) -> Option<T::Model> {
        match (a, b) {
            (Some(x), Some(y)) => Some(T::lub(x, y)),
            _ => None,
        }
    }

    open spec fn associative() -> bool {
        T::associative()
    }

    proof fn lemma_wf_valid(v: Self) {
        if let UpsideDownOption::Value(x) = v {
            T::lemma_wf_valid(x);
        }
    }

    proof fn lemma_bottom_valid() {
        T::lemma_bottom_valid();
    }

    proof fn lemma_lub_valid(a: Option<T::Model>, b: Option<T::Model>) {
        if let (Some(x), Some(y)) = (a, b) {
            T::lemma_lub_valid(x, y);
        }
    }

    proof fn lemma_leq_reflexive(a: Option<T::Model>) {
        if let Some(x) = a {
            T::lemma_leq_reflexive(x);
        }
    }

    proof fn lemma_leq_antisymmetric(a: Option<T::Model>, b: Option<T::Model>) {
        if let (Some(x), Some(y)) = (a, b) {
            T::lemma_leq_antisymmetric(x, y);
        }
    }

    proof fn lemma_leq_transitive(a: Option<T::Model>, b: Option<T::Model>, c: Option<T::Model>) {
        if let (Some(x), Some(y), Some(z)) = (a, b, c) {
            T::lemma_leq_transitive(x, y, z);
        }
    }

    proof fn lemma_bottom_least(a: Option<T::Model>) {
        if let Some(x) = a {
            T::lemma_bottom_least(x);
        }
    }

    proof fn lemma_join_associative(
        a: Option<T::Model>,
        b: Option<T::Model>,
        c: Option<T::Model>,
    ) {
        if let (Some(x), Some(y), Some(z)) = (a, b, c) {
            T::lemma_join_associative(x, y, z);
        }
    }

    proof fn lemma_join_commutative(a: Option<T::Model>, b: Option<T::Model>) {
        if let (Some(x), Some(y)) = (a, b) {
            T::lemma_join_commutative(x, y);
        }
    }

    proof fn lemma_join_idempotent(a: Option<T::Model>) {
        if let Some(x) = a {
            T::lemma_join_idempotent(x);
        }
    }

    proof fn lemma_join_order(a: Option<T::Model>, b: Option<T::Model>) {
        if let (Some(x), Some(y)) = (a, b) {
            T::lemma_join_order(x, y);
        }
    }

    fn bottom() -> (r: Self) {
        assert(Self::bottom_model() == Some(T::bottom_model()));
        UpsideDownOption::Value(T::bottom())
    }

    fn compare(&self, other: &Self) -> (r: Option<Order>) {
        match (self, other) {
            (UpsideDownOption::Top, UpsideDownOption::Top) => Some(Order::Equal),
            (UpsideDownOption::Top, UpsideDownOption::Value(_)) => Some(Order::Greater),
            (UpsideDownOption::Value(_), UpsideDownOption::Top) => Some(Order::Less),
            (UpsideDownOption::Value(a), UpsideDownOption::Value(b)) => a.compare(b),
        }
    }

    fn join(self, other: Self) -> (r: Self) {
        match (self, other) {
            (UpsideDownOption::Value(a), UpsideDownOption::Value(b)) => UpsideDownOption::Value(
                a.join(b),
            ),
            _ => UpsideDownOption::Top,
        }
    }

    fn replicate(&self) -> (r: Self) {
        match self {
            UpsideDownOption::Value(v) => UpsideDownOption::Value(v.replicate()),
            UpsideDownOption::Top => UpsideDownOption::Top,
        }
    }
}

} // verus!
