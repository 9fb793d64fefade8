use crate::key::{key_copy, total_order};
use crate::lattice::{Order, SemiLattice};
use crate::map_model::{
    absorb, lemma_map_join_associative, lemma_map_join_commutative, lemma_map_join_idempotent,
    lemma_map_join_order, lemma_map_leq_antisymmetric, lemma_map_leq_reflexive,
    lemma_map_leq_transitive, lemma_map_lub_valid, map_leq, map_lub, map_lub_at, map_valid,
};
use std::collections::{BTreeMap, BTreeSet};
use vstd::prelude::*;
use vstd::std_specs::iter::IteratorSpec;

verus! {

/// Whether every element of `a` is an element of `b`.
pub fn is_subset<K: Ord + Clone>(a: &BTreeSet<K>, b: &BTreeSet<K>) -> (r: bool)
    requires
        total_order::<K>(),
    ensures
        r == a@.subset_of(b@),
{
    let mut r = true;
    let ghost keys: Seq<&K> = a.iter().remaining();
    for k in it: a.iter()
        invariant
            total_order::<K>(),
            it.seq() == keys,
            keys.unref().to_set() == a@,
            r == forall|i: int| 0 <= i < it.index() ==> b@.contains(*#[trigger] keys[i]),
    {
        if !b.contains(k) {
            r = false;
        }
    }
    proof {
        if r {
            assert forall|k: K| a@.contains(k) implies b@.contains(k) by {
                assert(keys.unref().to_set().contains(k));
                let i = choose|i: int| 0 <= i < keys.unref().len() && keys.unref()[i] == k;
                assert(*keys[i] == k);
            }
        } else {
            let i = choose|i: int| 0 <= i < keys.len() && !b@.contains(*#[trigger] keys[i]);
            assert(keys.unref()[i] == *keys[i]);
            assert(keys.unref().to_set().contains(*keys[i]));
        }
    }
    r
}

/// `x` is one of the first `n` keys.
pub open spec fn seen<K>(keys: Seq<&K>, n: int, x: K) -> bool {
    exists|i: int| 0 <= i < n && *(#[trigger] keys[i]) == x
}

/// Adds the elements of `other` to `acc`.
pub fn union_into<K: Ord + Clone>(acc: &mut BTreeSet<K>, other: &BTreeSet<K>)
    requires
        total_order::<K>(),
    ensures
        final(acc)@ == old(acc)@.union(other@),
{
    let ghost a0 = acc@;
    let ghost keys: Seq<&K> = other.iter().remaining();
    for k in it: other.iter()
        invariant
            total_order::<K>(),
            it.seq() == keys,
            keys.unref().to_set() == other@,
            forall|x: K|
                #[trigger] acc@.contains(x) <==> a0.contains(x) || seen(
                    keys,
                    it.index() as int,
                    x,
                ),
    {
        let ghost n = it.index() as int;
        let ghost before = acc@;
        assert(*k == *keys[n]);
        acc.insert(key_copy(k));
        proof {
            assert forall|x: K| #[trigger]
                acc@.contains(x) <==> a0.contains(x) || seen(keys, n + 1, x) by {
                if x == *keys[n] {
                    assert(*keys[n] == x);
                }
                if seen(keys, n, x) {
                    let i = choose|i: int| 0 <= i < n && *(#[trigger] keys[i]) == x;
                    assert(*keys[i] == x);
                }
                if seen(keys, n + 1, x) {
                    let i = choose|i: int| 0 <= i < n + 1 && *(#[trigger] keys[i]) == x;
                    if i < n {
                        assert(*keys[i] == x);
                        assert(seen(keys, n, x));
                    }
                }
            }
        }
    }
    proof {
        assert forall|x: K| acc@.contains(x) <==> a0.union(other@).contains(x) by {
            if other@.contains(x) {
                assert(keys.unref().to_set().contains(x));
                let i = choose|i: int| 0 <= i < keys.unref().len() && keys.unref()[i] == x;
                assert(*keys[i] == x);
                assert(seen(keys, keys.len() as int, x));
            }
            if seen(keys, keys.len() as int, x) {
                let i = choose|i: int| 0 <= i < keys.len() && *(#[trigger] keys[i]) == x;
                assert(keys.unref()[i] == x);
                assert(keys.unref().to_set().contains(x));
            }
        }
        assert(acc@ =~= a0.union(other@));
    }
}

/// A set of keys in a balanced tree is a lattice: it grows by union, and
/// lies below every set that contains it.
impl<K: Ord + Clone> SemiLattice for BTreeSet<K> {
    type Model = Set<K>;

    open spec fn model(&self) -> Set<K> {
        self@
    }

    open spec fn wf(&self) -> bool {
        self@.finite()
    }

    open spec fn lawful() -> bool {
        total_order::<K>()
    }

    open spec fn valid(m: Set<K>) -> bool {
        m.finite()
    }

    open spec fn bottom_model() -> Set<K> {
        Set::empty()
    }

    open spec fn leq(a: Set<K>, b: Set<K>) -> bool {
        a.subset_of(b)
    }

    open spec fn lub(a: Set<K>, b: Set<K>) -> Set<K> {
        a.union(b)
    }

    open spec fn associative() -> bool {
        true
    }

    proof fn lemma_wf_valid(v: Self) {
    }

    proof fn lemma_bottom_valid() {
    }

    proof fn lemma_lub_valid(a: Set<K>, b: Set<K>) {
        vstd::set_lib::lemma_set_union_finite_iff(a, b);
    }

    proof fn lemma_leq_reflexive(a: Set<K>) {
    }

    proof fn lemma_leq_antisymmetric(a: Set<K>, b: Set<K>) {
        assert(a =~= b);
    }

    proof fn lemma_leq_transitive(a: Set<K>, b: Set<K>, c: Set<K>) {
    }

    proof fn lemma_bottom_least(a: Set<K>) {
    }

    proof fn lemma_join_associative(a: Set<K>, b: Set<K>, c: Set<K>) {
        assert(a.union(b).union(c) =~= a.union(b.union(c)));
    }

    proof fn lemma_join_commutative(a: Set<K>, b: Set<K>) {
        assert(a.union(b) =~= b.union(a));
    }

    proof fn lemma_join_idempotent(a: Set<K>) {
        assert(a.union(a) =~= a);
    }

    proof fn lemma_join_order(a: Set<K>, b: Set<K>) {
        lemma_union_order(a, b);
    }

    fn bottom() -> (r: Self) {
        assert(Self::bottom_model() == Set::<K>::empty());
        BTreeSet::new()
    }

    fn compare(&self, other: &Self) -> (r: Option<Order>) {
        let below = is_subset(self, other);
        let above = is_subset(other, self);
        if below && above {
            Some(Order::Equal)
        } else if below {
            Some(Order::Less)
        } else if above {
            Some(Order::Greater)
        } else {
            None
        }
    }

    fn join(self, other: Self) -> (r: Self) {
        let mut acc = self;
        proof {
            vstd::set_lib::lemma_set_union_finite_iff(acc@, other@);
        }
        union_into(&mut acc, &other);
        acc
    }

    fn replicate(&self) -> (r: Self) {
        self.clone()
    }
}

/// Union agrees with the order of sets.
pub proof fn lemma_union_order<K>(a: Set<K>, b: Set<K>)
    ensures
        b.subset_of(a) ==> a.union(b) == a,
        a.subset_of(b) ==> a.union(b) == b,
        !a.subset_of(b) && !b.subset_of(a) ==> {
            &&& a.subset_of(a.union(b)) && !a.union(b).subset_of(a)
            &&& b.subset_of(a.union(b)) && !a.union(b).subset_of(b)
        },
{
    if b.subset_of(a) {
        assert(a.union(b) =~= a);
    }
    if a.subset_of(b) {
        assert(a.union(b) =~= b);
    }
    if a.union(b).subset_of(a) {
        assert forall|k: K| b.contains(k) implies a.contains(k) by {
            assert(a.union(b).contains(k));
        }
    }
    if a.union(b).subset_of(b) {
        assert forall|k: K| a.contains(k) implies b.contains(k) by {
            assert(a.union(b).contains(k));
        }
    }
}

/// The association of keys and lattice elements that a map of keys and
/// values stands for.
pub open spec fn tree_model<K, V: SemiLattice>(m: Map<K, V>) -> Map<K, V::Model> {
    Map::new(|k: K| m.contains_key(k), |k: K| m[k].model())
}

/// The map is finite, and every value in it is well-formed.
pub open spec fn tree_wf<K, V: SemiLattice>(m: Map<K, V>) -> bool {
    &&& m.dom().finite()
    &&& forall|k: K| #[trigger] m.contains_key(k) ==> m[k].wf()
}

/// The model of a well-formed map is an element of the lattice of maps.
pub proof fn lemma_tree_valid<K, V: SemiLattice>(m: Map<K, V>)
    requires
        tree_wf(m),
    ensures
        map_valid::<K, V>(tree_model(m)),
{
    let t = tree_model(m);
    assert(t.dom() =~= m.dom());
    assert forall|k: K| #[trigger] t.dom().contains(k) implies V::valid(t[k]) by {
        assert(m.contains_key(k));
        V::lemma_wf_valid(m[k]);
    }
}

/// Puts `val` at `key`; where the key has a value already, `val` is joined
/// to it.
pub fn insert_or_join<K: Ord + Clone, V: SemiLattice>(m: &mut BTreeMap<K, V>, key: K, val: V)
    requires
        total_order::<K>(),
        V::lawful(),
        tree_wf(old(m)@),
        val.wf(),
    ensures
        tree_wf(final(m)@),
        tree_model(final(m)@) == absorb::<K, V>(tree_model(old(m)@), key, val.model()),
{
    let ghost before = m@;
    match m.remove(&key) {
        Some(earlier) => {
            assert(before.contains_key(key) && before[key] == earlier);
            m.insert(key, earlier.join(val));
        },
        None => {
            assert(!before.contains_key(key));
            m.insert(key, val);
        },
    }
    proof {
        assert forall|k: K| #[trigger] m@.contains_key(k) implies m@[k].wf() by {
            if k != key {
                assert(before.contains_key(k));
            }
        }
        assert(tree_model(m@) =~= absorb::<K, V>(tree_model(before), key, val.model()));
    }
}

/// In the sequence of the entries of a map each key occurs once.
proof fn lemma_entries_distinct<K, V>(entries: Seq<(&K, &V)>, m: Map<K, V>, i: int, j: int)
    requires
        entries.no_duplicates(),
        forall|x: int|
            0 <= x < entries.len() ==> m.contains_key(*(#[trigger] entries[x]).0) && m[*entries[x].0]
                == *entries[x].1,
        0 <= i < entries.len(),
        0 <= j < entries.len(),
        *entries[i].0 == *entries[j].0,
    ensures
        i == j,
{
    assert(m[*entries[i].0] == *entries[i].1);
    assert(m[*entries[j].0] == *entries[j].1);
    assert(entries[i] == entries[j]);
}

/// Joins the entries of `other` into `acc`.
pub fn join_into<K: Ord + Clone, V: SemiLattice>(acc: &mut BTreeMap<K, V>, other: &BTreeMap<K, V>)
    requires
        total_order::<K>(),
        V::lawful(),
        tree_wf(old(acc)@),
        tree_wf(other@),
    ensures
        tree_wf(final(acc)@),
        tree_model(final(acc)@) == map_lub::<K, V>(tree_model(old(acc)@), tree_model(other@)),
{
    let ghost a0 = tree_model(acc@);
    let ghost b0 = tree_model(other@);
    let ghost entries: Seq<(&K, &V)> = other.iter().remaining();
    for kv in it: other.iter()
        invariant
            total_order::<K>(),
            V::lawful(),
            it.seq() == entries,
            entries.no_duplicates(),
            tree_wf(other@),
            a0 == tree_model(old(acc)@),
            b0 == tree_model(other@),
            forall|x: int|
                0 <= x < entries.len() ==> other@.contains_key(*(#[trigger] entries[x]).0)
                    && other@[*entries[x].0] == *entries[x].1,
            forall|k: K| #[trigger] other@.contains_key(k) ==> entries.contains((&k, &other@[k])),
            tree_wf(acc@),
            forall|k: K|
                #![trigger tree_model(acc@).dom().contains(k)]
                tree_model(acc@).dom().contains(k) <==> a0.dom().contains(k) || exists|i: int|
                    0 <= i < it.index() && *(#[trigger] entries[i]).0 == k,
            forall|k: K|
                #![trigger tree_model(acc@)[k]]
                tree_model(acc@).dom().contains(k) ==> tree_model(acc@)[k] == if exists|i: int|
                    0 <= i < it.index() && *(#[trigger] entries[i]).0 == k {
                    map_lub_at::<K, V>(a0, b0, k)
                } else {
                    a0[k]
                },
    {
        let ghost n = it.index() as int;
        let ghost before = tree_model(acc@);
        let key = key_copy(kv.0);
        assert(other@.contains_key(*entries[n].0));
        assert(kv.1.wf());
        let val = kv.1.replicate();
        proof {
            if exists|i: int| 0 <= i < n && *(#[trigger] entries[i]).0 == key {
                let i = choose|i: int| 0 <= i < n && *(#[trigger] entries[i]).0 == key;
                lemma_entries_distinct(entries, other@, i, n);
            }
            if before.dom().contains(key) {
                assert(before[key] == a0[key]);
            }
        }
        insert_or_join(acc, key, val);
        proof {
            let after = tree_model(acc@);
            assert forall|k: K|
                #![trigger after.dom().contains(k)]
                after.dom().contains(k) <==> a0.dom().contains(k) || exists|i: int|
                    0 <= i < n + 1 && *(#[trigger] entries[i]).0 == k by {
                if k == key {
                    assert(*entries[n].0 == k);
                } else {
                    if before.dom().contains(k) && !a0.dom().contains(k) {
                        let i = choose|i: int| 0 <= i < n && *(#[trigger] entries[i]).0 == k;
                        assert(*entries[i].0 == k);
                    }
                }
            }
            assert forall|k: K|
                #![trigger after[k]]
                after.dom().contains(k) implies after[k] == if exists|i: int|
                    0 <= i < n + 1 && *(#[trigger] entries[i]).0 == k {
                    map_lub_at::<K, V>(a0, b0, k)
                } else {
                    a0[k]
                } by {
                if k == key {
                    assert(*entries[n].0 == k);
                    assert(b0[k] == val.model());
                } else {
                    assert(after[k] == before[k]);
                    if exists|i: int| 0 <= i < n + 1 && *(#[trigger] entries[i]).0 == k {
                        let i = choose|i: int| 0 <= i < n + 1 && *(#[trigger] entries[i]).0 == k;
                        assert(i < n);
                    }
                }
            }
        }
    }
    proof {
        let got = tree_model(acc@);
        let want = map_lub::<K, V>(a0, b0);
        assert forall|k: K| b0.dom().contains(k) <==> exists|i: int|
            0 <= i < entries.len() && *(#[trigger] entries[i]).0 == k by {
            if b0.dom().contains(k) {
                assert(other@.contains_key(k));
                let e = (&k, &other@[k]);
                assert(entries.contains(e));
                let i = choose|i: int| 0 <= i < entries.len() && entries[i] == e;
                assert(*entries[i].0 == k);
            }
        }
        assert forall|k: K| got.dom().contains(k) <==> want.dom().contains(k) by {}
        assert forall|k: K| got.dom().contains(k) implies #[trigger] got[k] == want[k] by {}
        assert(got =~= want);
    }
}

/// Compares two maps of keys and lattice values: a map lies below another
/// one that has all its keys, with values that are no smaller.
pub fn compare_maps<K: Ord + Clone, V: SemiLattice>(a: &BTreeMap<K, V>, b: &BTreeMap<K, V>) -> (r:
    Option<Order>)
    requires
        total_order::<K>(),
        V::lawful(),
        tree_wf(a@),
        tree_wf(b@),
    ensures
        r == crate::lattice::order_of(
            map_leq::<K, V>(tree_model(a@), tree_model(b@)),
            map_leq::<K, V>(tree_model(b@), tree_model(a@)),
        ),
{
    let ghost ma = tree_model(a@);
    let ghost mb = tree_model(b@);
    let mut greater = false;
    let mut less = false;
    let ghost entries: Seq<(&K, &V)> = a.iter().remaining();
    // Each entry of `a` is held against `b`.
    for kv in it: a.iter()
        invariant
            total_order::<K>(),
            V::lawful(),
            tree_wf(a@),
            tree_wf(b@),
            ma == tree_model(a@),
            mb == tree_model(b@),
            it.seq() == entries,
            forall|x: int|
                0 <= x < entries.len() ==> a@.contains_key(*(#[trigger] entries[x]).0)
                    && a@[*entries[x].0] == *entries[x].1,
            forall|k: K| #[trigger] a@.contains_key(k) ==> entries.contains((&k, &a@[k])),
            !(greater && less),
            greater <==> exists|x: int|
                0 <= x < it.index() && !(mb.dom().contains(*(#[trigger] entries[x]).0) && V::leq(
                    ma[*entries[x].0],
                    mb[*entries[x].0],
                )),
            less <==> exists|x: int|
                0 <= x < it.index() && mb.dom().contains(*(#[trigger] entries[x]).0) && !V::leq(
                    mb[*entries[x].0],
                    ma[*entries[x].0],
                ),
    {
        let ghost n = it.index() as int;
        assert(a@.contains_key(*entries[n].0));
        assert(ma.dom().contains(*kv.0) && ma[*kv.0] == kv.1.model());
        match b.get(kv.0) {
            None => {
                assert(!mb.dom().contains(*entries[n].0));
                if less {
                    proof {
                        lemma_unordered::<K, V>(
                            ma,
                            mb,
                            *entries[n].0,
                            witness_less::<K, V>(entries, ma, mb, n),
                        );
                    }
                    return None;
                }
                greater = true;
            },
            Some(w) => {
                assert(mb.dom().contains(*kv.0) && mb[*kv.0] == w.model());
                match kv.1.compare(w) {
                    Some(Order::Equal) => {},
                    Some(Order::Less) => {
                        if greater {
                            proof {
                                lemma_unordered::<K, V>(
                                    ma,
                                    mb,
                                    witness_greater::<K, V>(entries, ma, mb, n),
                                    *entries[n].0,
                                );
                            }
                            return None;
                        }
                        less = true;
                    },
                    Some(Order::Greater) => {
                        if less {
                            proof {
                                lemma_unordered::<K, V>(
                                    ma,
                                    mb,
                                    *entries[n].0,
                                    witness_less::<K, V>(entries, ma, mb, n),
                                );
                            }
                            return None;
                        }
                        greater = true;
                    },
                    None => {
                        proof {
                            lemma_unordered::<K, V>(ma, mb, *entries[n].0, *entries[n].0);
                        }
                        return None;
                    },
                }
            },
        }
    }
    proof {
        // What the entries of `a` have shown decides whether `a` lies below `b`.
        if greater {
            let x = choose|x: int|
                0 <= x < entries.len() && !(mb.dom().contains(*(#[trigger] entries[x]).0) && V::leq(
                    ma[*entries[x].0],
                    mb[*entries[x].0],
                ));
            assert(ma.dom().contains(*entries[x].0));
        } else {
            assert forall|k: K| #[trigger] ma.dom().contains(k) implies mb.dom().contains(k)
                && V::leq(ma[k], mb[k]) by {
                let e = (&k, &a@[k]);
                assert(entries.contains(e));
                let x = choose|x: int| 0 <= x < entries.len() && entries[x] == e;
                assert(*entries[x].0 == k);
            }
        }
    }
    let ghost others: Seq<(&K, &V)> = b.iter().remaining();
    // The keys of `b` that `a` lacks.
    for kv in it: b.iter()
        invariant
            total_order::<K>(),
            tree_wf(a@),
            tree_wf(b@),
            ma == tree_model(a@),
            mb == tree_model(b@),
            it.seq() == others,
            forall|x: int|
                0 <= x < others.len() ==> b@.contains_key(*(#[trigger] others[x]).0)
                    && b@[*others[x].0] == *others[x].1,
            forall|k: K| #[trigger] b@.contains_key(k) ==> others.contains((&k, &b@[k])),
            !(greater && less),
            greater == !map_leq::<K, V>(ma, mb),
            less <==> (exists|k: K|
                #![trigger ma.dom().contains(k)]
                ma.dom().contains(k) && mb.dom().contains(k) && !V::leq(mb[k], ma[k]))
                || exists|y: int|
                0 <= y < it.index() && !ma.dom().contains(*(#[trigger] others[y]).0),
    {
        let ghost n = it.index() as int;
        assert(b@.contains_key(*others[n].0));
        if !a.contains_key(kv.0) {
            assert(!ma.dom().contains(*others[n].0));
            if greater {
                proof {
                    assert(mb.dom().contains(*others[n].0));
                }
                return None;
            }
            less = true;
        }
    }
    proof {
        if less {
            if exists|k: K|
                #![trigger ma.dom().contains(k)]
                ma.dom().contains(k) && mb.dom().contains(k) && !V::leq(mb[k], ma[k]) {
            } else {
                let y = choose|y: int|
                    0 <= y < others.len() && !ma.dom().contains(*(#[trigger] others[y]).0);
                assert(mb.dom().contains(*others[y].0));
            }
        } else {
            assert forall|k: K| #[trigger] mb.dom().contains(k) implies ma.dom().contains(k)
                && V::leq(mb[k], ma[k]) by {
                let e = (&k, &b@[k]);
                assert(others.contains(e));
                let y = choose|y: int| 0 <= y < others.len() && others[y] == e;
                assert(*others[y].0 == k);
                assert(ma.dom().contains(k));
            }
        }
    }
    if greater {
        Some(Order::Greater)
    } else if less {
        Some(Order::Less)
    } else {
        Some(Order::Equal)
    }
}

/// A key among the first `n` entries at which `a` is not below `b`.
spec fn witness_greater<K, V: SemiLattice>(
    entries: Seq<(&K, &V)>,
    ma: Map<K, V::Model>,
    mb: Map<K, V::Model>,
    n: int,
) -> K {
    let x = choose|x: int|
        0 <= x < n && !(mb.dom().contains(*(#[trigger] entries[x]).0) && V::leq(
            ma[*entries[x].0],
            mb[*entries[x].0],
        ));
    *entries[x].0
}

/// A key among the first `n` entries at which `b` is not below `a`.
spec fn witness_less<K, V: SemiLattice>(
    entries: Seq<(&K, &V)>,
    ma: Map<K, V::Model>,
    mb: Map<K, V::Model>,
    n: int,
) -> K {
    let x = choose|x: int|
        0 <= x < n && mb.dom().contains(*(#[trigger] entries[x]).0) && !V::leq(
            mb[*entries[x].0],
            ma[*entries[x].0],
        );
    *entries[x].0
}

/// A key that shows `a` not to be below `b`, and one that shows `b` not to
/// be below `a`, leave the two maps without an order.
proof fn lemma_unordered<K, V: SemiLattice>(
    ma: Map<K, V::Model>,
    mb: Map<K, V::Model>,
    up: K,
    down: K,
)
    requires
        ma.dom().contains(up) && !(mb.dom().contains(up) && V::leq(ma[up], mb[up])),
        mb.dom().contains(down) && !(ma.dom().contains(down) && V::leq(mb[down], ma[down])),
    ensures
        !map_leq::<K, V>(ma, mb),
        !map_leq::<K, V>(mb, ma),
{
}

/// A map from keys to lattice values in a balanced tree is a lattice: its
/// join has the keys of both maps, with the values at shared keys joined.
impl<K: Ord + Clone, V: SemiLattice> SemiLattice for BTreeMap<K, V> {
    type Model = Map<K, V::Model>;

    open spec fn model(&self) -> Map<K, V::Model> {
        tree_model(self@)
    }

    open spec fn wf(&self) -> bool {
        tree_wf(self@)
    }

    open spec fn lawful() -> bool {
        total_order::<K>() && V::lawful()
    }

    open spec fn valid(m: Map<K, V::Model>) -> bool {
        map_valid::<K, V>(m)
    }

    open spec fn bottom_model() -> Map<K, V::Model> {
        Map::empty()
    }

    open spec fn leq(a: Map<K, V::Model>, b: Map<K, V::Model>) -> bool {
        map_leq::<K, V>(a, b)
    }

    open spec fn lub(a: Map<K, V::Model>, b: Map<K, V::Model>) -> Map<K, V::Model> {
        map_lub::<K, V>(a, b)
    }

    open spec fn associative() -> bool {
        V::associative()
    }

    proof fn lemma_wf_valid(v: Self) {
        lemma_tree_valid(v@);
        assert(Self::valid(v.model()) == map_valid::<K, V>(v.model()));
    }

    proof fn lemma_bottom_valid() {
    }

    proof fn lemma_lub_valid(a: Map<K, V::Model>, b: Map<K, V::Model>) {
        lemma_map_lub_valid::<K, V>(a, b);
    }

    proof fn lemma_leq_reflexive(a: Map<K, V::Model>) {
        lemma_map_leq_reflexive::<K, V>(a);
    }

    proof fn lemma_leq_antisymmetric(a: Map<K, V::Model>, b: Map<K, V::Model>) {
        lemma_map_leq_antisymmetric::<K, V>(a, b);
    }

    proof fn lemma_leq_transitive(a: Map<K, V::Model>, b: Map<K, V::Model>, c: Map<K, V::Model>) {
        lemma_map_leq_transitive::<K, V>(a, b, c);
    }

    proof fn lemma_bottom_least(a: Map<K, V::Model>) {
    }

    proof fn lemma_join_associative(
        a: Map<K, V::Model>,
        b: Map<K, V::Model>,
        c: Map<K, V::Model>,
    ) {
        lemma_map_join_associative::<K, V>(a, b, c);
    }

    proof fn lemma_join_commutative(a: Map<K, V::Model>, b: Map<K, V::Model>) {
        lemma_map_join_commutative::<K, V>(a, b);
    }

    proof fn lemma_join_idempotent(a: Map<K, V::Model>) {
        lemma_map_join_idempotent::<K, V>(a);
    }

    proof fn lemma_join_order(a: Map<K, V::Model>, b: Map<K, V::Model>) {
        lemma_map_join_order::<K, V>(a, b);
    }

    fn bottom() -> (r: Self) {
        let r = BTreeMap::new();
        assert(Self::bottom_model() == Map::<K, V::Model>::empty());
        assert(tree_model::<K, V>(r@) =~= Map::<K, V::Model>::empty());
        r
    }

    fn compare(&self, other: &Self) -> (r: Option<Order>) {
        proof {
            assert(Self::leq(self.model(), other.model()) == map_leq::<K, V>(
                self.model(),
                other.model(),
            ));
            assert(Self::leq(other.model(), self.model()) == map_leq::<K, V>(
                other.model(),
                self.model(),
            ));
        }
        compare_maps(self, other)
    }

    fn join(self, other: Self) -> (r: Self) {
        proof {
            assert(Self::lub(self.model(), other.model()) == map_lub::<K, V>(
                self.model(),
                other.model(),
            ));
            lemma_tree_valid(self@);
            lemma_tree_valid(other@);
            lemma_map_join_order::<K, V>(self.model(), other.model());
        }
        if self.is_empty() {
            proof {
                assert(self.model() =~= Map::<K, V::Model>::empty());
                assert(map_leq::<K, V>(self.model(), other.model()));
            }
            other
        } else {
            let mut acc = self;
            join_into(&mut acc, &other);
            acc
        }
    }

    fn replicate(&self) -> (r: Self) {
        let mut r: BTreeMap<K, V> = BTreeMap::new();
        proof {
            assert(tree_model::<K, V>(r@) =~= Map::<K, V::Model>::empty());
            lemma_tree_valid(self@);
            lemma_map_join_order::<K, V>(tree_model(r@), self.model());
            assert(map_leq::<K, V>(tree_model(r@), self.model()));
        }
        join_into(&mut r, self);
        r
    }
}

} // verus!
