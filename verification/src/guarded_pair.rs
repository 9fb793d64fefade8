use crate::lattice::{lemma_join_absorbs, lemma_join_upper_bound, Order, SemiLattice};
use vstd::prelude::*;

verus! {

/// A pair of lattices in which the first field is a version of the second:
/// the value under the greater guard wins outright. Values under the same
/// guard are joined, and under guards that are incomparable both fields are
/// joined.
#[derive(Debug, PartialEq, Clone, Copy)]
pub struct GuardedPair<G, V> {
    pub guard: G,
    pub value: V,
}

/// Any two elements of the lattice are comparable.
pub open spec fn is_chain<G: SemiLattice>() -> bool {
    forall|a: G::Model, b: G::Model|
        G::valid(a) && G::valid(b) ==> #[trigger] G::leq(a, b) || G::leq(b, a)
}

/// The default value is the bottom element.
impl<G: SemiLattice, V: SemiLattice> Default for GuardedPair<G, V> {
    fn default() -> (r: Self)
        ensures
            r.wf(),
            r.model() == <Self as SemiLattice>::bottom_model(),
    {
        <Self as SemiLattice>::bottom()
    }
}

impl<G: SemiLattice, V: SemiLattice> SemiLattice for GuardedPair<G, V> {
    type Model = (G::Model, V::Model);

    open spec fn model(&self) -> (G::Model, V::Model) {
        (self.guard.model(), self.value.model())
    }

    open spec fn wf(&self) -> bool {
        self.guard.wf() && self.value.wf()
    }

    open spec fn lawful() -> bool {
        G::lawful() && V::lawful()
    }

    open spec fn valid(m: (G::Model, V::Model)) -> bool {
        G::valid(m.0) && V::valid(m.1)
    }

    open spec fn bottom_model() -> (G::Model, V::Model) {
        (G::bottom_model(), V::bottom_model())
    }

    /// The order of the guards decides; under equal guards the values do.
    open spec fn leq(a: (G::Model, V::Model), b: (G::Model, V::Model)) -> bool {
        G::leq(a.0, b.0) && (G::leq(b.0, a.0) ==> V::leq(a.1, b.1))
    }

    open spec fn lub(a: (G::Model, V::Model), b: (G::Model, V::Model)) -> (G::Model, V::Model) {
        if G::leq(a.0, b.0) && G::leq(b.0, a.0) {
            (a.0, V::lub(a.1, b.1))
        } else if G::leq(b.0, a.0) {
            a
        } else if G::leq(a.0, b.0) {
            b
        } else {
            (G::lub(a.0, b.0), V::lub(a.1, b.1))
        }
    }

    /// Joins associate where the guards form a chain; guards that can be
    /// incomparable break the law.
    open spec fn associative() -> bool {
        is_chain::<G>() && V::associative()
    }

    proof fn lemma_wf_valid(v: Self) {
        G::lemma_wf_valid(v.guard);
        V::lemma_wf_valid(v.value);
    }

    proof fn lemma_bottom_valid() {
        G::lemma_bottom_valid();
        V::lemma_bottom_valid();
    }

    proof fn lemma_lub_valid(a: (G::Model, V::Model), b: (G::Model, V::Model)) {
        G::lemma_lub_valid(a.0, b.0);
        V::lemma_lub_valid(a.1, b.1);
    }

    proof fn lemma_leq_reflexive(a: (G::Model, V::Model)) {
        G::lemma_leq_reflexive(a.0);
        V::lemma_leq_reflexive(a.1);
    }

    proof fn lemma_leq_antisymmetric(a: (G::Model, V::Model), b: (G::Model, V::Model)) {
        G::lemma_leq_antisymmetric(a.0, b.0);
        V::lemma_leq_antisymmetric(a.1, b.1);
    }

    proof fn lemma_leq_transitive(
        a: (G::Model, V::Model),
        b: (G::Model, V::Model),
        c: (G::Model, V::Model),
    ) {
        G::lemma_leq_transitive(a.0, b.0, c.0);
        if G::leq(c.0, a.0) {
            G::lemma_leq_transitive(c.0, a.0, b.0);
            G::lemma_leq_transitive(b.0, c.0, a.0);
            V::lemma_leq_transitive(a.1, b.1, c.1);
        }
    }

    proof fn lemma_bottom_least(a: (G::Model, V::Model)) {
        G::lemma_bottom_least(a.0);
        V::lemma_bottom_least(a.1);
    }

    proof fn lemma_join_associative(
        a: (G::Model, V::Model),
        b: (G::Model, V::Model),
        c: (G::Model, V::Model),
    ) {
        assert(G::leq(a.0, b.0) || G::leq(b.0, a.0));
        assert(G::leq(b.0, c.0) || G::leq(c.0, b.0));
        assert(G::leq(a.0, c.0) || G::leq(c.0, a.0));
        if G::leq(a.0, b.0) && G::leq(b.0, a.0) {
            G::lemma_leq_antisymmetric(a.0, b.0);
        }
        if G::leq(b.0, c.0) && G::leq(c.0, b.0) {
            G::lemma_leq_antisymmetric(b.0, c.0);
        }
        if G::leq(a.0, c.0) && G::leq(c.0, a.0) {
            G::lemma_leq_antisymmetric(a.0, c.0);
        }
        if G::leq(a.0, b.0) && G::leq(b.0, c.0) {
            G::lemma_leq_transitive(a.0, b.0, c.0);
        }
        if G::leq(c.0, b.0) && G::leq(b.0, a.0) {
            G::lemma_leq_transitive(c.0, b.0, a.0);
        }
        if G::leq(b.0, a.0) && G::leq(a.0, c.0) {
            G::lemma_leq_transitive(b.0, a.0, c.0);
        }
        if G::leq(c.0, a.0) && G::leq(a.0, b.0) {
            G::lemma_leq_transitive(c.0, a.0, b.0);
        }
        if G::leq(a.0, c.0) && G::leq(c.0, b.0) {
            G::lemma_leq_transitive(a.0, c.0, b.0);
        }
        if G::leq(b.0, c.0) && G::leq(c.0, a.0) {
            G::lemma_leq_transitive(b.0, c.0, a.0);
        }
        V::lemma_join_associative(a.1, b.1, c.1);
        V::lemma_lub_valid(a.1, b.1);
        V::lemma_lub_valid(b.1, c.1);
    }

    proof fn lemma_join_commutative(a: (G::Model, V::Model), b: (G::Model, V::Model)) {
        G::lemma_join_commutative(a.0, b.0);
        V::lemma_join_commutative(a.1, b.1);
        if G::leq(a.0, b.0) && G::leq(b.0, a.0) {
            G::lemma_leq_antisymmetric(a.0, b.0);
        }
    }

    proof fn lemma_join_idempotent(a: (G::Model, V::Model)) {
        G::lemma_leq_reflexive(a.0);
        V::lemma_join_idempotent(a.1);
    }

    proof fn lemma_join_order(a: (G::Model, V::Model), b: (G::Model, V::Model)) {
        G::lemma_join_order(a.0, b.0);
        V::lemma_join_order(a.1, b.1);
        G::lemma_leq_reflexive(a.0);
        G::lemma_leq_reflexive(b.0);
        V::lemma_leq_reflexive(a.1);
        V::lemma_leq_reflexive(b.1);
        lemma_join_upper_bound::<V>(a.1, b.1);
        lemma_join_absorbs::<V>(a.1, b.1);
        V::lemma_join_commutative(a.1, b.1);
        lemma_join_absorbs::<V>(b.1, a.1);
        if G::leq(a.0, b.0) && G::leq(b.0, a.0) {
            G::lemma_leq_antisymmetric(a.0, b.0);
        }
    }

    fn bottom() -> (r: Self) {
        assert(Self::bottom_model() == (G::bottom_model(), V::bottom_model()));
        GuardedPair { guard: G::bottom(), value: V::bottom() }
    }

    fn compare(&self, other: &Self) -> (r: Option<Order>) {
        match self.guard.compare(&other.guard) {
            Some(Order::Equal) => self.value.compare(&other.value),
            x => x,
        }
    }

    fn join(self, other: Self) -> (r: Self) {
        match self.guard.compare(&other.guard) {
            Some(Order::Greater) => self,
            Some(Order::Less) => other,
            Some(Order::Equal) => GuardedPair {
                guard: self.guard,
                value: self.value.join(other.value),
            },
            None => GuardedPair {
                guard: self.guard.join(other.guard),
                value: self.value.join(other.value),
            },
        }
    }

    fn replicate(&self) -> (r: Self) {
        GuardedPair { guard: self.guard.replicate(), value: self.value.replicate() }
    }
}

} // verus!
