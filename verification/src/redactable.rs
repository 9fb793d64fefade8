use crate::key::{copy_value, plain_eq, same_value};
use crate::lattice::{Order, SemiLattice};
use vstd::prelude::*;

verus! {

/// A register that is written once. The content is arbitrary data, not a
/// lattice: a second, different content collapses the register to
/// `Redacted`, the tombstone that nothing revives.
#[derive(Debug, Clone, PartialEq)]
pub enum Redactable<T> {
    Uninitialized,
    Data(T),
    Redacted,
}

/// The default value is the bottom element.
impl<T: PartialEq + Clone> Default for Redactable<T> {
    fn default() -> (r: Self)
        ensures
            r.wf(),
            r.model() == <Self as SemiLattice>::bottom_model(),
    {
        <Self as SemiLattice>::bottom()
    }
}

impl<T: PartialEq + Clone> SemiLattice for Redactable<T> {
    type Model = Redactable<T>;

    open spec fn model(&self) -> Redactable<T> {
        *self
    }

    open spec fn wf(&self) -> bool {
        true
    }

    open spec fn lawful() -> bool {
        plain_eq::<T>()
    }

    open spec fn valid(m: Redactable<T>) -> bool {
        true
    }

    open spec fn bottom_model() -> Redactable<T> {
        Redactable::Uninitialized
    }

    open spec fn leq(a: Redactable<T>, b: Redactable<T>) -> bool {
        a == b || a is Uninitialized || b is Redacted
    }

    open spec fn lub(a: Redactable<T>, b: Redactable<T>) -> Redactable<T> {
        if a is Uninitialized {
            b
        } else if b is Uninitialized {
            a
        } else if a == b {
            a
        } else {
            Redactable::Redacted
        }
    }

    open spec fn associative() -> bool {
        true
    }

    proof fn lemma_wf_valid(v: Self) {
    }

    proof fn lemma_bottom_valid() {
    }

    proof fn lemma_lub_valid(a: Redactable<T>, b: Redactable<T>) {
    }

    proof fn lemma_leq_reflexive(a: Redactable<T>) {
    }

    proof fn lemma_leq_antisymmetric(a: Redactable<T>, b: Redactable<T>) {
    }

    proof fn lemma_leq_transitive(a: Redactable<T>, b: Redactable<T>, c: Redactable<T>) {
    }

    proof fn lemma_bottom_least(a: Redactable<T>) {
    }

    proof fn lemma_join_associative(a: Redactable<T>, b: Redactable<T>, c: Redactable<T>) {
    }

    proof fn lemma_join_commutative(a: Redactable<T>, b: Redactable<T>) {
    }

    proof fn lemma_join_idempotent(a: Redactable<T>) {
    }

    proof fn lemma_join_order(a: Redactable<T>, b: Redactable<T>) {
    }

    fn bottom() -> (r: Self) {
        assert(Self::bottom_model() == Redactable::<T>::Uninitialized);
        Redactable::Uninitialized
    }

    fn compare(&self, other: &Self) -> (r: Option<Order>) {
        match (self, other) {
            (Redactable::Uninitialized, Redactable::Uninitialized) => Some(Order::Equal),
            (Redactable::Redacted, Redactable::Redacted) => Some(Order::Equal),
            (Redactable::Data(a), Redactable::Data(b)) => {
                if same_value(a, b) {
                    Some(Order::Equal)
                } else {
                    None
                }
            },
            (_, Redactable::Uninitialized) => Some(Order::Greater),
            (Redactable::Uninitialized, _) => Some(Order::Less),
            (Redactable::Redacted, Redactable::Data(_)) => Some(Order::Greater),
            (Redactable::Data(_), Redactable::Redacted) => Some(Order::Less),
        }
    }

    fn join(self, other: Self) -> (r: Self) {
        match (self, other) {
            (Redactable::Uninitialized, b) => b,
            (a, Redactable::Uninitialized) => a,
            (Redactable::Data(a), Redactable::Data(b)) => {
                if same_value(&a, &b) {
                    Redactable::Data(a)
                } else {
                    Redactable::Redacted
                }
            },
            _ => Redactable::Redacted,
        }
    }

    fn replicate(&self) -> (r: Self) {
        match self {
            Redactable::Uninitialized => Redactable::Uninitialized,
            Redactable::Data(a) => Redactable::Data(copy_value(a)),
            Redactable::Redacted => Redactable::Redacted,
        }
    }
}

} // verus!
