use crate::lattice::{all_at_least, all_at_most, order_of, partial_ord_helper, Order, SemiLattice};
use vstd::prelude::*;

verus! {

/// The orders of two fields agree in direction exactly when the first
/// operand is below the second in both fields, or above it in both.
pub proof fn lemma_two_orders(le0: bool, ge0: bool, le1: bool, ge1: bool)
    ensures
        all_at_most(seq![order_of(le0, ge0), order_of(le1, ge1)]) == (le0 && le1),
        all_at_least(seq![order_of(le0, ge0), order_of(le1, ge1)]) == (ge0 && ge1),
{
    let s = seq![order_of(le0, ge0), order_of(le1, ge1)];
    assert(s[0] == order_of(le0, ge0));
    assert(s[1] == order_of(le1, ge1));
}

/// Compares two products of two fields each, from the orders of the fields.
pub fn compare_fields<A: SemiLattice, B: SemiLattice>(a0: &A, b0: &B, a1: &A, b1: &B) -> (r: Option<
    Order,
>)
    requires
        A::lawful(),
        B::lawful(),
        a0.wf(),
        b0.wf(),
        a1.wf(),
        b1.wf(),
    ensures
        r == order_of(
            A::leq(a0.model(), a1.model()) && B::leq(b0.model(), b1.model()),
            A::leq(a1.model(), a0.model()) && B::leq(b1.model(), b0.model()),
        ),
{
    let orders = vec![a0.compare(a1), b0.compare(b1)];
    proof {
        lemma_two_orders(
            A::leq(a0.model(), a1.model()),
            A::leq(a1.model(), a0.model()),
            B::leq(b0.model(), b1.model()),
            B::leq(b1.model(), b0.model()),
        );
        assert(orders@ =~= seq![
            order_of(A::leq(a0.model(), a1.model()), A::leq(a1.model(), a0.model())),
            order_of(B::leq(b0.model(), b1.model()), B::leq(b1.model(), b0.model())),
        ]);
    }
    partial_ord_helper(orders.as_slice())
}

/// An anonymous pair of lattices: it orders and joins field by field.
#[derive(Clone, Copy, Debug, PartialEq)]
pub struct Pair<A, B>(pub A, pub B);

/// The default value is the bottom element.
impl<A: SemiLattice, B: SemiLattice> Default for Pair<A, B> {
    fn default() -> (r: Self)
        ensures
            r.wf(),
            r.model() == <Self as SemiLattice>::bottom_model(),
    {
        <Self as SemiLattice>::bottom()
    }
}

impl<A: SemiLattice, B: SemiLattice> SemiLattice for Pair<A, B> {
    type Model = (A::Model, B::Model);

    open spec fn model(&self) -> (A::Model, B::Model) {
        (self.0.model(), self.1.model())
    }

    open spec fn wf(&self) -> bool {
        self.0.wf() && self.1.wf()
    }

    open spec fn lawful() -> bool {
        A::lawful() && B::lawful()
    }

    open spec fn valid(m: (A::Model, B::Model)) -> bool {
        A::valid(m.0) && B::valid(m.1)
    }

    open spec fn bottom_model() -> (A::Model, B::Model) {
        (A::bottom_model(), B::bottom_model())
    }

    open spec fn leq(a: (A::Model, B::Model), b: (A::Model, B::Model)) -> bool {
        A::leq(a.0, b.0) && B::leq(a.1, b.1)
    }

    open spec fn lub(a: (A::Model, B::Model), b: (A::Model, B::Model)) -> (A::Model, B::Model) {
        (A::lub(a.0, b.0), B::lub(a.1, b.1))
    }

    open spec fn associative() -> bool {
        A::associative() && B::associative()
    }

    proof fn lemma_wf_valid(v: Self) {
        A::lemma_wf_valid(v.0);
        B::lemma_wf_valid(v.1);
    }

    proof fn lemma_bottom_valid() {
        A::lemma_bottom_valid();
        B::lemma_bottom_valid();
    }

    proof fn lemma_lub_valid(a: (A::Model, B::Model), b: (A::Model, B::Model)) {
        A::lemma_lub_valid(a.0, b.0);
        B::lemma_lub_valid(a.1, b.1);
    }

    proof fn lemma_leq_reflexive(a: (A::Model, B::Model)) {
        A::lemma_leq_reflexive(a.0);
        B::lemma_leq_reflexive(a.1);
    }

    proof fn lemma_leq_antisymmetric(a: (A::Model, B::Model), b: (A::Model, B::Model)) {
        A::lemma_leq_antisymmetric(a.0, b.0);
        B::lemma_leq_antisymmetric(a.1, b.1);
    }

    proof fn lemma_leq_transitive(
        a: (A::Model, B::Model),
        b: (A::Model, B::Model),
        c: (A::Model, B::Model),
    ) {
        A::lemma_leq_transitive(a.0, b.0, c.0);
        B::lemma_leq_transitive(a.1, b.1, c.1);
    }

    proof fn lemma_bottom_least(a: (A::Model, B::Model)) {
        A::lemma_bottom_least(a.0);
        B::lemma_bottom_least(a.1);
    }

    proof fn lemma_join_associative(
        a: (A::Model, B::Model),
        b: (A::Model, B::Model),
        c: (A::Model, B::Model),
    ) {
        A::lemma_join_associative(a.0, b.0, c.0);
        B::lemma_join_associative(a.1, b.1, c.1);
    }

    proof fn lemma_join_commutative(a: (A::Model, B::Model), b: (A::Model, B::Model)) {
        A::lemma_join_commutative(a.0, b.0);
        B::lemma_join_commutative(a.1, b.1);
    }

    proof fn lemma_join_idempotent(a: (A::Model, B::Model)) {
        A::lemma_join_idempotent(a.0);
        B::lemma_join_idempotent(a.1);
    }

    proof fn lemma_join_order(a: (A::Model, B::Model), b: (A::Model, B::Model)) {
        lemma_product_join_order::<A, B>(a, b);
    }

    fn bottom() -> (r: Self) {
        assert(Self::bottom_model() == (A::bottom_model(), B::bottom_model()));
        Pair(A::bottom(), B::bottom())
    }

    fn compare(&self, other: &Self) -> (r: Option<Order>) {
        compare_fields(&self.0, &self.1, &other.0, &other.1)
    }

    fn join(self, other: Self) -> (r: Self) {
        Pair(self.0.join(other.0), self.1.join(other.1))
    }

    fn replicate(&self) -> (r: Self) {
        Pair(self.0.replicate(), self.1.replicate())
    }
}

/// Join agrees with the order of a product that orders and joins field by
/// field.
pub proof fn lemma_product_join_order<A: SemiLattice, B: SemiLattice>(
    a: (A::Model, B::Model),
    b: (A::Model, B::Model),
)
    requires
        A::valid(a.0),
        B::valid(a.1),
        A::valid(b.0),
        B::valid(b.1),
    ensures
        A::leq(b.0, a.0) && B::leq(b.1, a.1) ==> (A::lub(a.0, b.0), B::lub(a.1, b.1)) == a,
        A::leq(a.0, b.0) && B::leq(a.1, b.1) ==> (A::lub(a.0, b.0), B::lub(a.1, b.1)) == b,
        !(A::leq(a.0, b.0) && B::leq(a.1, b.1)) && !(A::leq(b.0, a.0) && B::leq(b.1, a.1)) ==> {
            &&& A::leq(a.0, A::lub(a.0, b.0)) && B::leq(a.1, B::lub(a.1, b.1))
            &&& !(A::leq(A::lub(a.0, b.0), a.0) && B::leq(B::lub(a.1, b.1), a.1))
            &&& A::leq(b.0, A::lub(a.0, b.0)) && B::leq(b.1, B::lub(a.1, b.1))
            &&& !(A::leq(A::lub(a.0, b.0), b.0) && B::leq(B::lub(a.1, b.1), b.1))
        },
{
    A::lemma_join_order(a.0, b.0);
    B::lemma_join_order(a.1, b.1);
    crate::lattice::lemma_join_upper_bound::<A>(a.0, b.0);
    crate::lattice::lemma_join_upper_bound::<B>(a.1, b.1);
    crate::lattice::lemma_join_absorbs::<A>(a.0, b.0);
    crate::lattice::lemma_join_absorbs::<B>(a.1, b.1);
    A::lemma_join_commutative(a.0, b.0);
    B::lemma_join_commutative(a.1, b.1);
    crate::lattice::lemma_join_absorbs::<A>(b.0, a.0);
    crate::lattice::lemma_join_absorbs::<B>(b.1, a.1);
}

/// A tuple of two lattices orders and joins field by field, as `Pair` does.
impl<A: SemiLattice, B: SemiLattice> SemiLattice for (A, B) {
    type Model = (A::Model, B::Model);

    open spec fn model(&self) -> (A::Model, B::Model) {
        (self.0.model(), self.1.model())
    }

    open spec fn wf(&self) -> bool {
        self.0.wf() && self.1.wf()
    }

    open spec fn lawful() -> bool {
        A::lawful() && B::lawful()
    }

    open spec fn valid(m: (A::Model, B::Model)) -> bool {
        A::valid(m.0) && B::valid(m.1)
    }

    open spec fn bottom_model() -> (A::Model, B::Model) {
        (A::bottom_model(), B::bottom_model())
    }

    open spec fn leq(a: (A::Model, B::Model), b: (A::Model, B::Model)) -> bool {
        A::leq(a.0, b.0) && B::leq(a.1, b.1)
    }

    open spec fn lub(a: (A::Model, B::Model), b: (A::Model, B::Model)) -> (A::Model, B::Model) {
        (A::lub(a.0, b.0), B::lub(a.1, b.1))
    }

    open spec fn associative() -> bool {
        A::associative() && B::associative()
    }

    proof fn lemma_wf_valid(v: Self) {
        A::lemma_wf_valid(v.0);
        B::lemma_wf_valid(v.1);
    }

    proof fn lemma_bottom_valid() {
        A::lemma_bottom_valid();
        B::lemma_bottom_valid();
    }

    proof fn lemma_lub_valid(a: (A::Model, B::Model), b: (A::Model, B::Model)) {
        A::lemma_lub_valid(a.0, b.0);
        B::lemma_lub_valid(a.1, b.1);
    }

    proof fn lemma_leq_reflexive(a: (A::Model, B::Model)) {
        A::lemma_leq_reflexive(a.0);
        B::lemma_leq_reflexive(a.1);
    }

    proof fn lemma_leq_antisymmetric(a: (A::Model, B::Model), b: (A::Model, B::Model)) {
        A::lemma_leq_antisymmetric(a.0, b.0);
        B::lemma_leq_antisymmetric(a.1, b.1);
    }

    proof fn lemma_leq_transitive(
        a: (A::Model, B::Model),
        b: (A::Model, B::Model),
        c: (A::Model, B::Model),
    ) {
        A::lemma_leq_transitive(a.0, b.0, c.0);
        B::lemma_leq_transitive(a.1, b.1, c.1);
    }

    proof fn lemma_bottom_least(a: (A::Model, B::Model)) {
        A::lemma_bottom_least(a.0);
        B::lemma_bottom_least(a.1);
    }

    proof fn lemma_join_associative(
        a: (A::Model, B::Model),
        b: (A::Model, B::Model),
        c: (A::Model, B::Model),
    ) {
        A::lemma_join_associative(a.0, b.0, c.0);
        B::lemma_join_associative(a.1, b.1, c.1);
    }

    proof fn lemma_join_commutative(a: (A::Model, B::Model), b: (A::Model, B::Model)) {
        A::lemma_join_commutative(a.0, b.0);
        B::lemma_join_commutative(a.1, b.1);
    }

    proof fn lemma_join_idempotent(a: (A::Model, B::Model)) {
        A::lemma_join_idempotent(a.0);
        B::lemma_join_idempotent(a.1);
    }

    proof fn lemma_join_order(a: (A::Model, B::Model), b: (A::Model, B::Model)) {
        lemma_product_join_order::<A, B>(a, b);
    }

    fn bottom() -> (r: Self) {
        assert(Self::bottom_model() == (A::bottom_model(), B::bottom_model()));
        (A::bottom(), B::bottom())
    }

    fn compare(&self, other: &Self) -> (r: Option<Order>) {
        compare_fields(&self.0, &self.1, &other.0, &other.1)
    }

    fn join(self, other: Self) -> (r: Self) {
        (self.0.join(other.0), self.1.join(other.1))
    }

    fn replicate(&self) -> (r: Self) {
        (self.0.replicate(), self.1.replicate())
    }
}

} // verus!
