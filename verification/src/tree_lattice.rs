use crate::key::total_order;
use crate::lattice::{Order, SemiLattice};
use crate::map_model::{
    absorb, lemma_map_join_associative, lemma_map_join_commutative, lemma_map_join_idempotent,
    lemma_map_join_order, lemma_map_leq_antisymmetric, lemma_map_leq_reflexive,
    lemma_map_leq_transitive, lemma_map_lub_valid, map_leq, map_lub, map_valid,
};
use crate::tree::{
    compare_maps, insert_or_join, is_subset, join_into, lemma_tree_valid, lemma_union_order,
    tree_model, tree_wf, union_into,
};
use std::collections::{BTreeMap, BTreeSet};
use vstd::prelude::*;

verus! {

/// A set of arbitrary keys, kept in a balanced tree. It grows by union, and
/// lies below every set that contains it.
#[derive(Debug, Clone, PartialEq)]
pub struct TreeSet<K> {
    pub inner: BTreeSet<K>,
}

impl<K: Ord + Clone> TreeSet<K> {
    /// The set with the one element `value`.
    pub fn singleton(value: K) -> (r: Self)
        requires
            total_order::<K>(),
        ensures
            r.wf(),
            r.model() == Set::<K>::empty().insert(value),
    {
        let mut inner = BTreeSet::new();
        inner.insert(value);
        TreeSet { inner }
    }

    /// Adds `value` to the set.
    pub fn insert(&mut self, value: K)
        requires
            total_order::<K>(),
            old(self).wf(),
        ensures
            final(self).wf(),
            final(self).model() == old(self).model().insert(value),
    {
        self.inner.insert(value);
    }

    /// The lattice value of a tree of keys.
    pub fn from_tree(inner: BTreeSet<K>) -> (r: Self)
        ensures
            r.inner == inner,
    {
        TreeSet { inner }
    }
}

/// The default value is the bottom element.
impl<K: Ord + Clone> Default for TreeSet<K> {
    fn default() -> (r: Self)
        ensures
            r.wf(),
            r.model() == <Self as SemiLattice>::bottom_model(),
    {
        <Self as SemiLattice>::bottom()
    }
}

impl<K: Ord + Clone> SemiLattice for TreeSet<K> {
    type Model = Set<K>;

    open spec fn model(&self) -> Set<K> {
        self.inner@
    }

    open spec fn wf(&self) -> bool {
        self.inner@.finite()
    }

    open spec fn lawful() -> bool {
        total_order::<K>()
    }

    open spec fn valid(m: Set<K>) -> bool {
        m.finite()
    }

    open spec fn bottom_model() -> Set<K> {
        Set::empty()
    }

    open spec fn leq(a: Set<K>, b: Set<K>) -> bool {
        a.subset_of(b)
    }

    open spec fn lub(a: Set<K>, b: Set<K>) -> Set<K> {
        a.union(b)
    }

    open spec fn associative() -> bool {
        true
    }

    proof fn lemma_wf_valid(v: Self) {
    }

    proof fn lemma_bottom_valid() {
    }

    proof fn lemma_lub_valid(a: Set<K>, b: Set<K>) {
        vstd::set_lib::lemma_set_union_finite_iff(a, b);
    }

    proof fn lemma_leq_reflexive(a: Set<K>) {
    }

    proof fn lemma_leq_antisymmetric(a: Set<K>, b: Set<K>) {
        assert(a =~= b);
    }

    proof fn lemma_leq_transitive(a: Set<K>, b: Set<K>, c: Set<K>) {
    }

    proof fn lemma_bottom_least(a: Set<K>) {
    }

    proof fn lemma_join_associative(a: Set<K>, b: Set<K>, c: Set<K>) {
        assert(a.union(b).union(c) =~= a.union(b.union(c)));
    }

    proof fn lemma_join_commutative(a: Set<K>, b: Set<K>) {
        assert(a.union(b) =~= b.union(a));
    }

    proof fn lemma_join_idempotent(a: Set<K>) {
        assert(a.union(a) =~= a);
    }

    proof fn lemma_join_order(a: Set<K>, b: Set<K>) {
        lemma_union_order(a, b);
    }

    fn bottom() -> (r: Self) {
        assert(Self::bottom_model() == Set::<K>::empty());
        TreeSet { inner: BTreeSet::new() }
    }

    fn compare(&self, other: &Self) -> (r: Option<Order>) {
        proof {
            assert(Self::leq(self.model(), other.model()) == self.model().subset_of(
                other.model(),
            ));
            assert(Self::leq(other.model(), self.model()) == other.model().subset_of(
                self.model(),
            ));
        }
        let below = is_subset(&self.inner, &other.inner);
        let above = is_subset(&other.inner, &self.inner);
        if below && above {
            Some(Order::Equal)
        } else if below {
            Some(Order::Less)
        } else if above {
            Some(Order::Greater)
        } else {
            None
        }
    }

    /// Where neither set contains the other, the set with more elements
    /// takes in those of the other one.
    fn join(self, other: Self) -> (r: Self) {
        proof {
            let a = self.model();
            let b = other.model();
            lemma_union_order(a, b);
            vstd::set_lib::lemma_set_union_finite_iff(a, b);
            assert(Self::lub(a, b) == a.union(b));
            assert(Self::leq(a, b) == a.subset_of(b));
            assert(Self::leq(b, a) == b.subset_of(a));
            assert(a.union(b) =~= b.union(a));
        }
        match self.compare(&other) {
            Some(Order::Greater) | Some(Order::Equal) => self,
            Some(Order::Less) => other,
            None => {
                let mut big = self;
                let mut small = other;
                if big.inner.len() < small.inner.len() {
                    core::mem::swap(&mut big, &mut small);
                }
                union_into(&mut big.inner, &small.inner);
                assert(big.inner@ =~= self.model().union(other.model()));
                big
            },
        }
    }

    fn replicate(&self) -> (r: Self) {
        TreeSet { inner: self.inner.clone() }
    }
}

/// A map from arbitrary keys to lattice values, kept in a balanced tree. Its
/// join has the keys of both maps, with the values at shared keys joined.
#[derive(Debug, Clone, PartialEq)]
pub struct TreeMap<K, V> {
    pub inner: BTreeMap<K, V>,
}

impl<K: Ord + Clone, V: SemiLattice> TreeMap<K, V> {
    /// The map with the one entry `key`, `value`.
    pub fn singleton(key: K, value: V) -> (r: Self)
        requires
            total_order::<K>(),
            V::lawful(),
            value.wf(),
        ensures
            r.wf(),
            r.model() == Map::<K, V::Model>::empty().insert(key, value.model()),
    {
        let mut r = TreeMap { inner: BTreeMap::new() };
        assert(r.model() =~= Map::<K, V::Model>::empty());
        r.insert(key, value);
        r
    }

    /// Puts `value` at `key`; where the key has a value already, `value` is
    /// joined to it.
    pub fn insert(&mut self, key: K, value: V)
        requires
            total_order::<K>(),
            V::lawful(),
            old(self).wf(),
            value.wf(),
        ensures
            final(self).wf(),
            final(self).model() == absorb::<K, V>(old(self).model(), key, value.model()),
    {
        insert_or_join(&mut self.inner, key, value);
    }

    /// The lattice value of a tree of entries.
    pub fn from_tree(inner: BTreeMap<K, V>) -> (r: Self)
        ensures
            r.inner == inner,
    {
        TreeMap { inner }
    }
}

/// The default value is the bottom element.
impl<K: Ord + Clone, V: SemiLattice> Default for TreeMap<K, V> {
    fn default() -> (r: Self)
        ensures
            r.wf(),
            r.model() == <Self as SemiLattice>::bottom_model(),
    {
        <Self as SemiLattice>::bottom()
    }
}

impl<K: Ord + Clone, V: SemiLattice> SemiLattice for TreeMap<K, V> {
    type Model = Map<K, V::Model>;

    open spec fn model(&self) -> Map<K, V::Model> {
        tree_model(self.inner@)
    }

    open spec fn wf(&self) -> bool {
        tree_wf(self.inner@)
    }

    open spec fn lawful() -> bool {
        total_order::<K>() && V::lawful()
    }

    open spec fn valid(m: Map<K, V::Model>) -> bool {
        map_valid::<K, V>(m)
    }

    open spec fn bottom_model() -> Map<K, V::Model> {
        Map::empty()
    }

    open spec fn leq(a: Map<K, V::Model>, b: Map<K, V::Model>) -> bool {
        map_leq::<K, V>(a, b)
    }

    open spec fn lub(a: Map<K, V::Model>, b: Map<K, V::Model>) -> Map<K, V::Model> {
        map_lub::<K, V>(a, b)
    }

    open spec fn associative() -> bool {
        V::associative()
    }

    proof fn lemma_wf_valid(v: Self) {
        lemma_tree_valid(v.inner@);
        assert(Self::valid(v.model()) == map_valid::<K, V>(v.model()));
    }

    proof fn lemma_bottom_valid() {
    }

    proof fn lemma_lub_valid(a: Map<K, V::Model>, b: Map<K, V::Model>) {
        lemma_map_lub_valid::<K, V>(a, b);
    }

    proof fn lemma_leq_reflexive(a: Map<K, V::Model>) {
        lemma_map_leq_reflexive::<K, V>(a);
    }

    proof fn lemma_leq_antisymmetric(a: Map<K, V::Model>, b: Map<K, V::Model>) {
        lemma_map_leq_antisymmetric::<K, V>(a, b);
    }

    proof fn lemma_leq_transitive(a: Map<K, V::Model>, b: Map<K, V::Model>, c: Map<K, V::Model>) {
        lemma_map_leq_transitive::<K, V>(a, b, c);
    }

    proof fn lemma_bottom_least(a: Map<K, V::Model>) {
    }

    proof fn lemma_join_associative(
        a: Map<K, V::Model>,
        b: Map<K, V::Model>,
        c: Map<K, V::Model>,
    ) {
        lemma_map_join_associative::<K, V>(a, b, c);
    }

    proof fn lemma_join_commutative(a: Map<K, V::Model>, b: Map<K, V::Model>) {
        lemma_map_join_commutative::<K, V>(a, b);
    }

    proof fn lemma_join_idempotent(a: Map<K, V::Model>) {
        lemma_map_join_idempotent::<K, V>(a);
    }

    proof fn lemma_join_order(a: Map<K, V::Model>, b: Map<K, V::Model>) {
        lemma_map_join_order::<K, V>(a, b);
    }

    fn bottom() -> (r: Self) {
        let r = TreeMap { inner: BTreeMap::new() };
        assert(Self::bottom_model() == Map::<K, V::Model>::empty());
        assert(r.model() =~= Map::<K, V::Model>::empty());
        r
    }

    fn compare(&self, other: &Self) -> (r: Option<Order>) {
        proof {
            assert(Self::leq(self.model(), other.model()) == map_leq::<K, V>(
                self.model(),
                other.model(),
            ));
            assert(Self::leq(other.model(), self.model()) == map_leq::<K, V>(
                other.model(),
                self.model(),
            ));
        }
        compare_maps(&self.inner, &other.inner)
    }

    /// Where neither map lies below the other, the map with more entries
    /// takes in those of the other one.
    fn join(self, other: Self) -> (r: Self) {
        proof {
            let a = self.model();
            let b = other.model();
            assert(Self::lub(a, b) == map_lub::<K, V>(a, b));
            assert(Self::leq(a, b) == map_leq::<K, V>(a, b));
            assert(Self::leq(b, a) == map_leq::<K, V>(b, a));
            lemma_tree_valid(self.inner@);
            lemma_tree_valid(other.inner@);
            lemma_map_join_order::<K, V>(a, b);
            lemma_map_join_commutative::<K, V>(a, b);
        }
        match self.compare(&other) {
            Some(Order::Greater) | Some(Order::Equal) => self,
            Some(Order::Less) => other,
            None => {
                let mut big = self;
                let mut small = other;
                if big.inner.len() < small.inner.len() {
                    core::mem::swap(&mut big, &mut small);
                }
                join_into(&mut big.inner, &small.inner);
                big
            },
        }
    }

    fn replicate(&self) -> (r: Self) {
        TreeMap { inner: self.inner.replicate() }
    }
}

} // verus!
