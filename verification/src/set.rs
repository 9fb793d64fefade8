use crate::key::total_order;
use crate::lattice::{Order, SemiLattice};
use crate::map::MapLattice;
use crate::map_model::{map_leq, map_lub};
use vstd::prelude::*;

verus! {

/// Maps without values order as their key sets do, and their join has the
/// keys of both.
pub proof fn lemma_unit_maps<K>(a: Map<K, ()>, b: Map<K, ()>)
    ensures
        map_leq::<K, ()>(a, b) == a.dom().subset_of(b.dom()),
        map_lub::<K, ()>(a, b).dom() == a.dom().union(b.dom()),
{
    assert(map_lub::<K, ()>(a, b).dom() =~= a.dom().union(b.dom()));
    if a.dom().subset_of(b.dom()) {
        assert forall|k: K| #[trigger] a.dom().contains(k) implies b.dom().contains(k) by {}
    }
}

/// A set of keys, kept as a sorted vector. It grows by union, and a set lies
/// below every set that contains it.
#[derive(Debug, Clone, PartialEq)]
pub struct SetLattice<K> {
    pub inner: MapLattice<K, ()>,
}

impl<K: Ord + Clone> SetLattice<K> {
    /// The set with the one element `val`.
    pub fn singleton(val: K) -> (r: Self)
        ensures
            r.wf(),
            r.model() == Set::<K>::empty().insert(val),
    {
        let r = SetLattice { inner: MapLattice::singleton(val, ()) };
        assert(r.model() =~= Set::<K>::empty().insert(val));
        r
    }

    /// Adds `val` to the set.
    pub fn insert(&mut self, val: K)
        requires
            total_order::<K>(),
            old(self).wf(),
        ensures
            final(self).wf(),
            final(self).model() == old(self).model().insert(val),
    {
        self.inner.insert(val, ());
        assert(self.model() =~= old(self).model().insert(val));
    }

    /// Whether `val` is in the set.
    pub fn contains(&self, val: &K) -> (r: bool)
        requires
            total_order::<K>(),
            self.wf(),
        ensures
            r == self.model().contains(*val),
    {
        self.inner.entry(val).is_some()
    }

    /// The set of the keys in `keys`.
    pub fn from_keys(keys: Vec<K>) -> (r: Self)
        requires
            total_order::<K>(),
        ensures
            r.wf(),
            r.model() == keys@.to_set(),
    {
        let ghost all = keys@;
        let mut r = SetLattice { inner: MapLattice::bottom() };
        assert(all.take(0).to_set() =~= Set::<K>::empty());
        for key in it: keys
            invariant
                total_order::<K>(),
                it.seq() == all,
                r.wf(),
                r.model() == all.take(it.index() as int).to_set(),
        {
            proof {
                let n = it.index() as int;
                assert(all.take(n + 1) =~= all.take(n).push(all[n]));
                assert(all.take(n).push(all[n]).to_set() =~= all.take(n).to_set().insert(all[n]))
                    by {
                    let s = all.take(n);
                    let t = s.push(all[n]);
                    assert forall|k: K| t.to_set().contains(k) <==> s.to_set().insert(
                        all[n],
                    ).contains(k) by {
                        if t.contains(k) {
                            let x = choose|x: int| 0 <= x < t.len() && t[x] == k;
                            if x < n {
                                assert(s[x] == k);
                            }
                        }
                        if s.contains(k) {
                            let x = choose|x: int| 0 <= x < s.len() && s[x] == k;
                            assert(t[x] == k);
                        }
                        assert(t[n] == all[n]);
                    }
                }
            }
            r.insert(key);
        }
        assert(all.take(all.len() as int) =~= all);
        r
    }

    /// The elements, in rising order.
    pub fn keys(&self) -> (r: Vec<&K>)
        requires
            self.wf(),
        ensures
            r@.len() == self.inner.inner@.len(),
            forall|i: int| 0 <= i < r@.len() ==> *(#[trigger] r@[i]) == self.inner.inner@[i].0,
    {
        let mut r: Vec<&K> = Vec::new();
        let mut i: usize = 0;
        while i < self.inner.inner.len()
            invariant
                i <= self.inner.inner.len(),
                r@.len() == i,
                forall|x: int| 0 <= x < i ==> *(#[trigger] r@[x]) == self.inner.inner@[x].0,
            decreases self.inner.inner.len() - i,
        {
            r.push(&self.inner.inner[i].0);
            i += 1;
        }
        r
    }
}

/// The default value is the bottom element.
impl<K: Ord + Clone> Default for SetLattice<K> {
    fn default() -> (r: Self)
        ensures
            r.wf(),
            r.model() == <Self as SemiLattice>::bottom_model(),
    {
        <Self as SemiLattice>::bottom()
    }
}

impl<K: Ord + Clone> SemiLattice for SetLattice<K> {
    type Model = Set<K>;

    open spec fn model(&self) -> Set<K> {
        self.inner.model().dom()
    }

    open spec fn wf(&self) -> bool {
        self.inner.wf()
    }

    open spec fn lawful() -> bool {
        total_order::<K>()
    }

    open spec fn valid(m: Set<K>) -> bool {
        m.finite()
    }

    open spec fn bottom_model() -> Set<K> {
        Set::empty()
    }

    open spec fn leq(a: Set<K>, b: Set<K>) -> bool {
        a.subset_of(b)
    }

    open spec fn lub(a: Set<K>, b: Set<K>) -> Set<K> {
        a.union(b)
    }

    open spec fn associative() -> bool {
        true
    }

    proof fn lemma_wf_valid(v: Self) {
        MapLattice::<K, ()>::lemma_wf_valid(v.inner);
    }

    proof fn lemma_bottom_valid() {
    }

    proof fn lemma_lub_valid(a: Set<K>, b: Set<K>) {
        vstd::set_lib::lemma_set_union_finite_iff(a, b);
    }

    proof fn lemma_leq_reflexive(a: Set<K>) {
    }

    proof fn lemma_leq_antisymmetric(a: Set<K>, b: Set<K>) {
        assert(a =~= b);
    }

    proof fn lemma_leq_transitive(a: Set<K>, b: Set<K>, c: Set<K>) {
    }

    proof fn lemma_bottom_least(a: Set<K>) {
    }

    proof fn lemma_join_associative(a: Set<K>, b: Set<K>, c: Set<K>) {
        assert(a.union(b).union(c) =~= a.union(b.union(c)));
    }

    proof fn lemma_join_commutative(a: Set<K>, b: Set<K>) {
        assert(a.union(b) =~= b.union(a));
    }

    proof fn lemma_join_idempotent(a: Set<K>) {
        assert(a.union(a) =~= a);
    }

    proof fn lemma_join_order(a: Set<K>, b: Set<K>) {
        if b.subset_of(a) {
            assert(a.union(b) =~= a);
        }
        if a.subset_of(b) {
            assert(a.union(b) =~= b);
        }
        if a.union(b).subset_of(a) {
            assert forall|k: K| b.contains(k) implies a.contains(k) by {
                assert(a.union(b).contains(k));
            }
        }
        if a.union(b).subset_of(b) {
            assert forall|k: K| a.contains(k) implies b.contains(k) by {
                assert(a.union(b).contains(k));
            }
        }
    }

    fn bottom() -> (r: Self) {
        let r = SetLattice { inner: MapLattice::bottom() };
        assert(Self::bottom_model() == Set::<K>::empty());
        assert(r.model() =~= Set::<K>::empty());
        r
    }

    fn compare(&self, other: &Self) -> (r: Option<Order>) {
        proof {
            lemma_unit_maps(self.inner.model(), other.inner.model());
            lemma_unit_maps(other.inner.model(), self.inner.model());
            assert(MapLattice::<K, ()>::leq(self.inner.model(), other.inner.model()) == map_leq::<
                K,
                (),
            >(self.inner.model(), other.inner.model()));
            assert(MapLattice::<K, ()>::leq(other.inner.model(), self.inner.model()) == map_leq::<
                K,
                (),
            >(other.inner.model(), self.inner.model()));
        }
        self.inner.compare(&other.inner)
    }

    fn join(self, other: Self) -> (r: Self) {
        proof {
            lemma_unit_maps(self.inner.model(), other.inner.model());
            assert(MapLattice::<K, ()>::lub(self.inner.model(), other.inner.model()) == map_lub::<
                K,
                (),
            >(self.inner.model(), other.inner.model()));
        }
        SetLattice { inner: self.inner.join(other.inner) }
    }

    fn replicate(&self) -> (r: Self) {
        SetLattice { inner: self.inner.replicate() }
    }
}

} // verus!
