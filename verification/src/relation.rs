use crate::datalog::{callable_on, cross, cross_apply, deref_all, DeferredRestore};
use crate::key::{key_lt, key_order, lemma_key_lt_transitive, lemma_key_trichotomy, total_order};
use crate::lattice::{Order, SemiLattice};
use crate::map::{
    entries_model, gallop, has_key, index_of, lemma_entry_added, lemma_entry_at, lemma_key_absent,
    merge_entries, sorted_entries, values_wf, MapLattice,
};
use crate::map_model::{collect, dominated, map_lub, settle, undominated};
use vstd::prelude::*;

verus! {

/// A sorted run has as many entries as its model has keys.
pub proof fn lemma_entries_count<K: Ord + Clone, V: SemiLattice>(s: Seq<(K, V)>)
    requires
        total_order::<K>(),
        sorted_entries(s),
    ensures
        entries_model(s).dom().finite(),
        entries_model(s).dom().len() == s.len(),
    decreases s.len(),
{
    if s.len() == 0 {
        assert(entries_model(s).dom() =~= Set::<K>::empty());
    } else {
        let front = s.drop_last();
        let n = front.len() as int;
        lemma_entries_count(front);
        assert forall|x: int| 0 <= x < n implies key_lt((#[trigger] front[x]).0, s[n].0) by {
            assert(key_lt(s[x].0, s[n].0));
        }
        lemma_entry_added_keys(front, s, n);
    }
}

/// The keys of a run that has taken in one entry with a new key.
proof fn lemma_entry_added_keys<K: Ord + Clone, V: SemiLattice>(
    s: Seq<(K, V)>,
    t: Seq<(K, V)>,
    i: int,
)
    requires
        total_order::<K>(),
        sorted_entries(s),
        0 <= i <= s.len(),
        t.len() == s.len() + 1,
        forall|x: int| 0 <= x < i ==> #[trigger] t[x] == s[x],
        forall|x: int| i <= x < s.len() ==> #[trigger] t[x + 1] == s[x],
        forall|x: int| 0 <= x < i ==> key_lt((#[trigger] s[x]).0, t[i].0),
        forall|x: int| i <= x < s.len() ==> key_lt(t[i].0, (#[trigger] s[x]).0),
        entries_model(s).dom().finite(),
    ensures
        entries_model(t).dom().finite(),
        entries_model(t).dom().len() == entries_model(s).dom().len() + 1,
{
    let ms = entries_model(s);
    let mt = entries_model(t);
    lemma_key_absent(s, t[i].0, i);
    assert forall|k: K| mt.dom().contains(k) <==> ms.dom().insert(t[i].0).contains(k) by {
        if mt.dom().contains(k) {
            let x = index_of(t, k);
            if x < i {
                assert(t[x] == s[x]);
            } else if x > i {
                assert(t[x - 1 + 1] == s[x - 1]);
            }
        }
        if ms.dom().contains(k) {
            let x = index_of(s, k);
            if x < i {
                assert(t[x] == s[x]);
            } else {
                assert(t[x + 1] == s[x]);
            }
        }
        if k == t[i].0 {
            assert(t[i].0 == k);
        }
    }
    assert(mt.dom() =~= ms.dom().insert(t[i].0));
}

/// A run that ends before another one begins can take the other one at its
/// end: the result is sorted, and its model is the join of the two models.
pub proof fn lemma_concat_runs<K: Ord + Clone, V: SemiLattice>(x: Seq<(K, V)>, y: Seq<(K, V)>)
    requires
        total_order::<K>(),
        sorted_entries(x),
        values_wf(x),
        sorted_entries(y),
        values_wf(y),
        x.len() > 0 && y.len() > 0 ==> key_lt(x.last().0, y.first().0),
    ensures
        sorted_entries(x + y),
        values_wf(x + y),
        entries_model(x + y) == map_lub::<K, V>(entries_model(x), entries_model(y)),
        entries_model(x + y) == map_lub::<K, V>(entries_model(y), entries_model(x)),
{
    let z = x + y;
    assert forall|p: int, q: int| 0 <= p < q < z.len() implies key_lt(
        #[trigger] z[p].0,
        #[trigger] z[q].0,
    ) by {
        if q < x.len() {
            assert(key_lt(x[p].0, x[q].0));
        } else if p >= x.len() {
            assert(key_lt(y[p - x.len()].0, y[q - x.len()].0));
        } else {
            lemma_cross_runs(x, y, p, q - x.len());
        }
    }
    assert forall|p: int| 0 <= p < z.len() implies (#[trigger] z[p]).1.wf() by {
        if p < x.len() {
            assert(x[p].1.wf());
        } else {
            assert(y[p - x.len()].1.wf());
        }
    }
    let mx = entries_model(x);
    let my = entries_model(y);
    let mz = entries_model(z);
    let l = map_lub::<K, V>(mx, my);
    let r = map_lub::<K, V>(my, mx);
    assert forall|k: K| !(mx.dom().contains(k) && my.dom().contains(k)) by {
        if mx.dom().contains(k) && my.dom().contains(k) {
            let p = index_of(x, k);
            let q = index_of(y, k);
            lemma_cross_runs(x, y, p, q);
            lemma_key_trichotomy(x[p].0, y[q].0);
        }
    }
    assert forall|k: K| mz.dom().contains(k) <==> l.dom().contains(k) by {
        if mz.dom().contains(k) {
            let p = index_of(z, k);
            if p < x.len() {
                assert(x[p].0 == k);
            } else {
                assert(y[p - x.len()].0 == k);
            }
        }
        if mx.dom().contains(k) {
            let p = index_of(x, k);
            assert(z[p].0 == k);
        }
        if my.dom().contains(k) {
            let q = index_of(y, k);
            assert(z[q + x.len()].0 == k);
        }
    }
    assert forall|k: K| mz.dom().contains(k) implies #[trigger] mz[k] == l[k] && mz[k] == r[k] by {
        let p = index_of(z, k);
        lemma_entry_at(z, p);
        if p < x.len() {
            assert(z[p] == x[p]);
            lemma_entry_at(x, p);
        } else {
            assert(z[p] == y[p - x.len()]);
            lemma_entry_at(y, p - x.len());
        }
    }
    assert(mz =~= l);
    assert(mz =~= r);
}

/// Every key of a run comes before every key of a run that begins after it.
proof fn lemma_cross_runs<K: Ord + Clone, V: SemiLattice>(
    x: Seq<(K, V)>,
    y: Seq<(K, V)>,
    p: int,
    q: int,
)
    requires
        total_order::<K>(),
        sorted_entries(x),
        sorted_entries(y),
        0 <= p < x.len(),
        0 <= q < y.len(),
        key_lt(x.last().0, y.first().0),
    ensures
        key_lt(x[p].0, y[q].0),
{
    if p < x.len() - 1 {
        assert(key_lt(x[p].0, x[x.len() - 1].0));
        lemma_key_lt_transitive(x[p].0, x.last().0, y.first().0);
    }
    if q > 0 {
        assert(key_lt(y[0].0, y[q].0));
        lemma_key_lt_transitive(x[p].0, y.first().0, y[q].0);
    }
}

/// Merges two sorted runs. Where one run ends before the other begins, which
/// the first and last keys show, the runs are put end to end; else they are
/// merged entry by entry, and the values at a key that both hold are joined.
pub fn merge<K: Ord + Clone, V: SemiLattice>(vec: Vec<(K, V)>, other: Vec<(K, V)>) -> (r: Vec<
    (K, V),
>)
    requires
        total_order::<K>(),
        V::lawful(),
        sorted_entries(vec@),
        values_wf(vec@),
        sorted_entries(other@),
        values_wf(other@),
    ensures
        sorted_entries(r@),
        values_wf(r@),
        entries_model(r@) == map_lub::<K, V>(entries_model(vec@), entries_model(other@)),
{
    let ghost a = vec@;
    let ghost b = other@;
    let mut vec = vec;
    let mut other = other;
    if other.len() == 0 {
        proof {
            assert(a + b =~= a);
            lemma_concat_runs(a, b);
        }
        vec
    } else if vec.len() == 0 {
        proof {
            assert(a + b =~= b);
            lemma_concat_runs(a, b);
        }
        other
    } else if key_order(&vec[vec.len() - 1].0, &other[0].0) == Order::Less {
        proof {
            lemma_concat_runs(a, b);
        }
        vec.append(&mut other);
        vec
    } else if key_order(&other[other.len() - 1].0, &vec[0].0) == Order::Less {
        proof {
            lemma_concat_runs(b, a);
        }
        other.append(&mut vec);
        other
    } else {
        merge_entries(vec, other)
    }
}

/// Drops from a sorted run the entries that the sorted run `batch`
/// dominates: those whose key `batch` holds with a value that is no smaller.
/// The place in `batch` moves on by galloping from entry to entry.
pub fn filter_batch<K: Ord + Clone, V: SemiLattice>(src: Vec<(K, V)>, batch: &Vec<(K, V)>) -> (kept:
    Vec<(K, V)>)
    requires
        total_order::<K>(),
        V::lawful(),
        sorted_entries(src@),
        values_wf(src@),
        sorted_entries(batch@),
        values_wf(batch@),
    ensures
        sorted_entries(kept@),
        values_wf(kept@),
        entries_model(kept@) == undominated::<K, V>(
            entries_model(src@),
            seq![entries_model(batch@)],
        ),
{
    let ghost s0 = src@;
    let ghost ms = entries_model(s0);
    let ghost mb = entries_model(batch@);
    let ghost mut origin: Seq<int> = Seq::empty();
    let mut kept: Vec<(K, V)> = Vec::new();
    let mut pos: usize = 0;
    for x in it: src
        invariant
            total_order::<K>(),
            V::lawful(),
            it.seq() == s0,
            sorted_entries(s0),
            values_wf(s0),
            sorted_entries(batch@),
            values_wf(batch@),
            ms == entries_model(s0),
            mb == entries_model(batch@),
            pos <= batch.len(),
            sorted_entries(kept@),
            values_wf(kept@),
            origin.len() == kept@.len(),
            forall|q: int|
                0 <= q < kept@.len() ==> 0 <= #[trigger] origin[q] < it.index() && kept@[q]
                    == s0[origin[q]] && !dominated::<K, V>(
                    mb,
                    s0[origin[q]].0,
                    s0[origin[q]].1.model(),
                ),
            forall|idx: int|
                0 <= idx < it.index() && !dominated::<K, V>(
                    mb,
                    (#[trigger] s0[idx]).0,
                    s0[idx].1.model(),
                ) ==> has_key(kept@, s0[idx].0),
            it.index() < s0.len() ==> forall|y: int|
                0 <= y < pos ==> key_lt((#[trigger] batch[y]).0, s0[it.index() as int].0),
    {
        let ghost n = it.index() as int;
        let ghost kept0 = kept@;
        assert(x == s0[n]);
        assert(s0[n].1.wf());
        let end = gallop(batch, pos, &x.0);
        proof {
            assert forall|y: int| 0 <= y < end implies key_lt((#[trigger] batch[y]).0, x.0) by {}
        }
        let covered = if end < batch.len() {
            match key_order(&batch[end].0, &x.0) {
                Order::Equal => {
                    proof {
                        lemma_entry_at(batch@, end as int);
                    }
                    match x.1.compare(&batch[end].1) {
                        Some(Order::Less) | Some(Order::Equal) => true,
                        _ => false,
                    }
                },
                _ => {
                    proof {
                        lemma_key_trichotomy(batch[end as int].0, x.0);
                        lemma_key_absent(batch@, x.0, end as int);
                    }
                    false
                },
            }
        } else {
            proof {
                lemma_key_absent(batch@, x.0, end as int);
            }
            false
        };
        assert(covered == dominated::<K, V>(mb, x.0, x.1.model()));
        if !covered {
            proof {
                if kept0.len() > 0 {
                    let last = kept0.len() - 1;
                    assert(kept0[last] == s0[origin[last]]);
                    assert(key_lt(s0[origin[last]].0, s0[n].0));
                }
                assert forall|q: int| 0 <= q < kept0.len() implies key_lt(
                    (#[trigger] kept0[q]).0,
                    x.0,
                ) by {
                    assert(kept0[q] == s0[origin[q]]);
                    assert(key_lt(s0[origin[q]].0, s0[n].0));
                }
            }
            kept.push(x);
            proof {
                origin = origin.push(n);
                lemma_entry_added(kept0, kept@, kept0.len() as int);
                assert(kept@[kept0.len() as int].0 == s0[n].0);
                assert forall|idx: int|
                    0 <= idx < n + 1 && !dominated::<K, V>(
                        mb,
                        (#[trigger] s0[idx]).0,
                        s0[idx].1.model(),
                    ) implies has_key(kept@, s0[idx].0) by {
                    if idx < n {
                        let q = choose|q: int|
                            0 <= q < kept0.len() && (#[trigger] kept0[q]).0 == s0[idx].0;
                        assert(kept@[q] == kept0[q]);
                    }
                }
            }
        } else {
            proof {
                assert forall|idx: int|
                    0 <= idx < n + 1 && !dominated::<K, V>(
                        mb,
                        (#[trigger] s0[idx]).0,
                        s0[idx].1.model(),
                    ) implies has_key(kept@, s0[idx].0) by {}
            }
        }
        pos = end;
        proof {
            if n + 1 < s0.len() {
                assert forall|y: int| 0 <= y < pos implies key_lt(
                    (#[trigger] batch[y]).0,
                    s0[n + 1].0,
                ) by {
                    assert(key_lt(s0[n].0, s0[n + 1].0));
                    lemma_key_lt_transitive(batch[y].0, s0[n].0, s0[n + 1].0);
                }
            }
        }
    }
    proof {
        let mk = entries_model(kept@);
        let want = undominated::<K, V>(ms, seq![mb]);
        assert forall|k: K| mk.dom().contains(k) <==> want.dom().contains(k) by {
            if mk.dom().contains(k) {
                let q = index_of(kept@, k);
                lemma_entry_at(s0, origin[q]);
                assert(seq![mb][0] == mb);
            }
            if want.dom().contains(k) {
                let idx = index_of(s0, k);
                lemma_entry_at(s0, idx);
                assert(seq![mb][0] == mb);
                assert(!dominated::<K, V>(seq![mb][0], k, ms[k]));
            }
        }
        assert forall|k: K| mk.dom().contains(k) implies #[trigger] mk[k] == want[k] by {
            let q = index_of(kept@, k);
            lemma_entry_at(kept@, q);
            lemma_entry_at(s0, origin[q]);
        }
        assert(mk =~= want);
    }
    kept
}

/// The models of the batches.
pub open spec fn batch_models<K: Ord, V: SemiLattice>(stable: Seq<Vec<(K, V)>>) -> Seq<
    Map<K, V::Model>,
> {
    stable.map_values(|b: Vec<(K, V)>| entries_model(b@))
}

/// The entries of the batches, one batch after the other.
pub open spec fn concat_all<T>(batches: Seq<Vec<T>>) -> Seq<T>
    decreases batches.len(),
{
    if batches.len() == 0 {
        Seq::empty()
    } else {
        concat_all(batches.drop_last()) + batches.last()@
    }
}

/// Each batch has more than twice the size of the batch after it.
pub open spec fn tiered<T>(stable: Seq<Vec<T>>) -> bool {
    forall|i: int|
        0 <= i < stable.len() - 1 ==> (#[trigger] stable[i]).len() > 2 * stable[i + 1].len()
}

/// Every batch is a sorted run of well-formed values.
pub open spec fn batches_wf<K: Ord, V: SemiLattice>(stable: Seq<Vec<(K, V)>>) -> bool {
    forall|i: int|
        0 <= i < stable.len() ==> sorted_entries((#[trigger] stable[i])@) && values_wf(stable[i]@)
}

/// The values of well-formed batches are well-formed.
pub proof fn lemma_concat_all_wf<K: Ord, V: SemiLattice>(stable: Seq<Vec<(K, V)>>)
    requires
        batches_wf(stable),
    ensures
        values_wf(concat_all(stable)),
    decreases stable.len(),
{
    if stable.len() > 0 {
        lemma_concat_all_wf(stable.drop_last());
        let front = concat_all(stable.drop_last());
        let all = concat_all(stable);
        assert forall|i: int| 0 <= i < all.len() implies (#[trigger] all[i]).1.wf() by {
            if i < front.len() {
                assert(front[i].1.wf());
            } else {
                assert(stable.last()@[i - front.len()].1.wf());
            }
        }
    }
}

/// A map-shaped relation for incremental evaluation.
///
/// `stable` holds what has been reconciled, in sorted batches whose sizes
/// fall by more than half from each to the next; `recent` is the sorted
/// batch that the last round promoted; `to_add` stages what was inserted or
/// derived since, in no order.
#[derive(Debug, PartialEq)]
pub struct MapRelation<K, V> {
    pub stable: Vec<Vec<(K, V)>>,
    pub recent: Vec<(K, V)>,
    pub to_add: Vec<(K, V)>,
}

/// Whether the last batch is small enough for a recent batch of `n` entries
/// to take it up: it has at most twice as many.
fn takes_up_last<K: Ord, V>(stable: &Vec<Vec<(K, V)>>, n: usize) -> (r: bool)
    ensures
        r == (stable@.len() > 0 && stable@.last().len() <= 2 * n),
{
    if stable.len() == 0 {
        false
    } else {
        let top = stable[stable.len() - 1].len();
        top <= n || top - n <= n
    }
}

impl<K: Ord + Clone, V: SemiLattice> MapRelation<K, V> {
    /// The empty relation.
    pub fn new() -> (r: Self)
        ensures
            r.wf(),
            r.stable@.len() == 0,
            r.recent@.len() == 0,
            r.to_add@.len() == 0,
    {
        MapRelation { stable: Vec::new(), recent: Vec::new(), to_add: Vec::new() }
    }

    /// The relational join with `other`: `func` is called on each stable
    /// entry with each recent value of `other`, and on each recent entry
    /// with each stable and each recent value of `other`; what it gives is
    /// staged. Stable entries do not meet stable values: an earlier round
    /// has derived from those.
    pub fn join<T: DeferredRestore, F: Fn(&(K, V), &T::Value) -> (K, V)>(
        &mut self,
        other: &T,
        func: F,
    )
        requires
            Self::lawful(),
            T::lawful(),
            old(self).wf(),
            other.wf(),
            callable_on(func, old(self).stable_view(), other.recent_view()),
            callable_on(func, old(self).recent_view(), other.stable_view() + other.recent_view()),
            forall|a: (K, V), b: T::Value, y: (K, V)|
                Self::value_wf(a) && T::value_wf(b) && call_ensures(func, (&a, &b), y)
                    ==> Self::value_wf(y),
        ensures
            final(self).wf(),
            final(self).stable == old(self).stable,
            final(self).recent == old(self).recent,
            exists|d1: Seq<(K, V)>, d2: Seq<(K, V)>|
                {
                    &&& #[trigger] cross(func, old(self).stable_view(), other.recent_view(), d1)
                    &&& #[trigger] cross(
                        func,
                        old(self).recent_view(),
                        other.stable_view() + other.recent_view(),
                        d2,
                    )
                    &&& final(self).to_add@ == old(self).to_add@ + d1 + d2
                },
    {
        let mut derived: Vec<(K, V)> = Vec::new();
        let others_recent = other.recent();
        let mut others = other.stable();
        let mut more = other.recent();
        proof {
            assert(deref_all(others@ + more@) =~= deref_all(others@) + deref_all(more@));
        }
        others.append(&mut more);
        let own_stable = self.stable();
        let own_recent = self.recent();
        cross_apply(&own_stable, &others_recent, &func, &mut derived);
        let ghost d1 = derived@;
        cross_apply(&own_recent, &others, &func, &mut derived);
        let ghost d2 = derived@.skip(d1.len() as int);
        proof {
            assert(cross(func, self.stable_view(), other.recent_view(), d1)) by {
                let d = choose|d: Seq<(K, V)>|
                    #![trigger cross(func, deref_all(own_stable@), deref_all(others_recent@), d)]
                    cross(func, deref_all(own_stable@), deref_all(others_recent@), d) && d1
                        == Seq::<(K, V)>::empty() + d;
                assert(d1 =~= d);
            }
            assert(cross(func, self.recent_view(), other.stable_view() + other.recent_view(), d2))
                by {
                let d = choose|d: Seq<(K, V)>|
                    #![trigger cross(func, deref_all(own_recent@), deref_all(others@), d)]
                    cross(func, deref_all(own_recent@), deref_all(others@), d) && derived@ == d1
                        + d;
                assert(d2 =~= d);
            }
            assert(derived@ =~= d1 + d2);
            lemma_cross_wf::<Self, T, F>(func, self.stable_view(), other.recent_view(), d1);
            lemma_cross_wf::<Self, T, F>(
                func,
                self.recent_view(),
                other.stable_view() + other.recent_view(),
                d2,
            );
        }
        let ghost before = self.to_add@;
        self.to_add.append(&mut derived);
        proof {
            assert(self.to_add@ =~= before + d1 + d2);
        }
    }
}

/// The default value is the empty relation.
impl<K: Ord + Clone, V: SemiLattice> Default for MapRelation<K, V> {
    fn default() -> (r: Self)
        ensures
            r.wf(),
            r.stable@.len() == 0,
            r.recent@.len() == 0,
            r.to_add@.len() == 0,
    {
        MapRelation::new()
    }
}

impl<K: Ord + Clone, V: SemiLattice> DeferredRestore for MapRelation<K, V> {
    type Value = (K, V);

    open spec fn wf(&self) -> bool {
        &&& batches_wf(self.stable@)
        &&& tiered(self.stable@)
        &&& sorted_entries(self.recent@)
        &&& values_wf(self.recent@)
        &&& values_wf(self.to_add@)
    }

    open spec fn lawful() -> bool {
        total_order::<K>() && V::lawful()
    }

    open spec fn value_wf(v: (K, V)) -> bool {
        v.1.wf()
    }

    open spec fn stable_view(&self) -> Seq<(K, V)> {
        concat_all(self.stable@)
    }

    open spec fn recent_view(&self) -> Seq<(K, V)> {
        self.recent@
    }

    open spec fn settled(&self) -> bool {
        self.recent@.len() == 0
    }

    open spec fn staged(&self, val: (K, V), after: &Self) -> bool {
        &&& after.stable == self.stable
        &&& after.recent == self.recent
        &&& after.to_add@ == self.to_add@.push(val)
    }

    open spec fn restored(&self, after: &Self) -> bool {
        &&& after.to_add@.len() == 0
        &&& batch_models::<K, V>(after.stable@) == if self.recent@.len() > 0 {
            settle::<K, V>(batch_models(self.stable@), entries_model(self.recent@))
        } else {
            batch_models(self.stable@)
        }
        &&& entries_model(after.recent@) == undominated::<K, V>(
            collect(self.to_add@),
            batch_models(after.stable@),
        )
    }

    fn stable(&self) -> (r: Vec<&(K, V)>) {
        let mut r: Vec<&(K, V)> = Vec::new();
        let mut bi: usize = 0;
        assert(self.stable@.take(0) =~= Seq::<Vec<(K, V)>>::empty());
        assert(deref_all(r@) =~= concat_all(self.stable@.take(0)));
        while bi < self.stable.len()
            invariant
                bi <= self.stable.len(),
                deref_all(r@) == concat_all(self.stable@.take(bi as int)),
            decreases self.stable.len() - bi,
        {
            let batch = &self.stable[bi];
            let ghost front = concat_all(self.stable@.take(bi as int));
            let mut j: usize = 0;
            assert(deref_all(r@) =~= front + batch@.take(0));
            while j < batch.len()
                invariant
                    j <= batch.len(),
                    deref_all(r@) == front + batch@.take(j as int),
                decreases batch.len() - j,
            {
                let ghost before = r@;
                r.push(&batch[j]);
                proof {
                    assert(deref_all(r@) =~= deref_all(before).push(batch@[j as int]));
                    assert(batch@.take(j + 1) =~= batch@.take(j as int).push(batch@[j as int]));
                    assert(deref_all(r@) =~= front + batch@.take(j + 1));
                }
                j += 1;
            }
            proof {
                let upto = self.stable@.take(bi + 1);
                assert(upto.drop_last() =~= self.stable@.take(bi as int));
                assert(upto.last() == self.stable@[bi as int]);
                assert(batch@.take(batch@.len() as int) =~= batch@);
            }
            bi += 1;
        }
        proof {
            assert(self.stable@.take(self.stable@.len() as int) =~= self.stable@);
            lemma_concat_all_wf(self.stable@);
            assert forall|i: int| 0 <= i < r@.len() implies Self::value_wf(*(#[trigger] r@[i])) by {
                assert(deref_all(r@)[i] == *r@[i]);
                assert(concat_all(self.stable@)[i].1.wf());
            }
        }
        r
    }

    fn recent(&self) -> (r: Vec<&(K, V)>) {
        let mut r: Vec<&(K, V)> = Vec::new();
        let mut j: usize = 0;
        assert(deref_all(r@) =~= self.recent@.take(0));
        while j < self.recent.len()
            invariant
                j <= self.recent.len(),
                deref_all(r@) == self.recent@.take(j as int),
            decreases self.recent.len() - j,
        {
            let ghost before = r@;
            r.push(&self.recent[j]);
            proof {
                assert(deref_all(r@) =~= deref_all(before).push(self.recent@[j as int]));
                assert(self.recent@.take(j + 1) =~= self.recent@.take(j as int).push(
                    self.recent@[j as int],
                ));
            }
            j += 1;
        }
        proof {
            assert(self.recent@.take(self.recent@.len() as int) =~= self.recent@);
            assert forall|i: int| 0 <= i < r@.len() implies Self::value_wf(*(#[trigger] r@[i])) by {
                assert(deref_all(r@)[i] == *r@[i]);
                assert(self.recent@[i].1.wf());
            }
        }
        r
    }

    fn insert(&mut self, val: (K, V)) {
        self.to_add.push(val);
    }

    fn restore(&mut self) -> (changed: bool) {
        let ghost stable0 = self.stable@;
        let ghost recent0 = self.recent@;
        // The recent batch moves into the stable ones.
        if self.recent.len() > 0 {
            let mut recent: Vec<(K, V)> = Vec::new();
            core::mem::swap(&mut self.recent, &mut recent);
            while takes_up_last(&self.stable, recent.len())
                invariant
                    total_order::<K>(),
                    V::lawful(),
                    batches_wf(self.stable@),
                    tiered(self.stable@),
                    sorted_entries(recent@),
                    values_wf(recent@),
                    recent@.len() > 0,
                    self.recent@.len() == 0,
                    self.to_add == old(self).to_add,
                    settle::<K, V>(batch_models(self.stable@), entries_model(recent@)) == settle::<
                        K,
                        V,
                    >(batch_models(stable0), entries_model(recent0)),
                decreases self.stable.len(),
            {
                let ghost before = self.stable@;
                let ghost small = recent@;
                let top = self.stable.pop().unwrap();
                proof {
                    assert(self.stable@ =~= before.drop_last());
                    assert(top == before.last());
                    assert(sorted_entries(top@) && values_wf(top@));
                    lemma_entries_count(top@);
                    lemma_entries_count(small);
                    assert(batch_models::<K, V>(before).last() == entries_model(top@));
                    assert(batch_models::<K, V>(before).drop_last() =~= batch_models::<K, V>(
                        self.stable@,
                    ));
                }
                recent = merge(recent, top);
                proof {
                    lemma_merged_nonempty::<K, V>(small, top@, recent@);
                }
            }
            proof {
                lemma_entries_count(recent@);
                if self.stable@.len() > 0 {
                    lemma_entries_count(self.stable@.last()@);
                    assert(batch_models::<K, V>(self.stable@).last() == entries_model(
                        self.stable@.last()@,
                    ));
                }
            }
            let ghost before = self.stable@;
            let ghost last = recent@;
            self.stable.push(recent);
            proof {
                assert(batch_models::<K, V>(self.stable@) =~= batch_models::<K, V>(before).push(
                    entries_model(last),
                ));
                assert forall|i: int| 0 <= i < self.stable@.len() implies sorted_entries(
                    (#[trigger] self.stable@[i])@,
                ) && values_wf(self.stable@[i]@) by {
                    if i < before.len() {
                        assert(self.stable@[i] == before[i]);
                    }
                }
                assert forall|i: int| 0 <= i < self.stable@.len() - 1 implies (
                #[trigger] self.stable@[i]).len() > 2 * self.stable@[i + 1].len() by {
                    assert(self.stable@[i] == before[i]);
                    if i + 1 < before.len() {
                        assert(self.stable@[i + 1] == before[i + 1]);
                    }
                }
            }
        }
        // What is staged is sorted, and equal keys are joined.
        let mut staged: Vec<(K, V)> = Vec::new();
        core::mem::swap(&mut self.to_add, &mut staged);
        let ghost pending = collect(staged@);
        let mut kept = MapLattice::from_entries(staged).inner;
        // What a stable batch dominates says nothing new.
        let ghost models = batch_models::<K, V>(self.stable@);
        let mut bi: usize = 0;
        proof {
            lemma_no_batch::<K, V>(pending, models.take(0));
        }
        while bi < self.stable.len()
            invariant
                total_order::<K>(),
                V::lawful(),
                batches_wf(self.stable@),
                models == batch_models::<K, V>(self.stable@),
                bi <= self.stable.len(),
                sorted_entries(kept@),
                values_wf(kept@),
                entries_model(kept@) == undominated::<K, V>(pending, models.take(bi as int)),
            decreases self.stable.len() - bi,
        {
            let ghost before = entries_model(kept@);
            kept = filter_batch(kept, &self.stable[bi]);
            proof {
                assert(models[bi as int] == entries_model(self.stable@[bi as int]@));
                lemma_next_batch::<K, V>(pending, models, bi as int);
            }
            bi += 1;
        }
        proof {
            assert(models.take(models.len() as int) =~= models);
        }
        self.recent = kept;
        self.recent.len() > 0
    }
}

/// A merged run is not empty where one of the two runs was not.
proof fn lemma_merged_nonempty<K: Ord + Clone, V: SemiLattice>(
    a: Seq<(K, V)>,
    b: Seq<(K, V)>,
    r: Seq<(K, V)>,
)
    requires
        a.len() > 0,
        entries_model(r) == map_lub::<K, V>(entries_model(a), entries_model(b)),
    ensures
        r.len() > 0,
{
    assert(a[0].0 == a[0].0);
    assert(has_key(a, a[0].0));
    assert(entries_model(r).dom().contains(a[0].0));
}

/// Before any batch has been looked at, nothing is dropped.
proof fn lemma_no_batch<K, V: SemiLattice>(p: Map<K, V::Model>, none: Seq<Map<K, V::Model>>)
    requires
        none.len() == 0,
    ensures
        undominated::<K, V>(p, none) == p,
{
    assert(undominated::<K, V>(p, none) =~= p);
}

/// Dropping what the next batch dominates, from what the batches before it
/// have left, leaves what none of them dominates.
proof fn lemma_next_batch<K, V: SemiLattice>(
    p: Map<K, V::Model>,
    models: Seq<Map<K, V::Model>>,
    i: int,
)
    requires
        0 <= i < models.len(),
    ensures
        undominated::<K, V>(undominated::<K, V>(p, models.take(i)), seq![models[i]])
            == undominated::<K, V>(p, models.take(i + 1)),
{
    let mid = undominated::<K, V>(p, models.take(i));
    let l = undominated::<K, V>(mid, seq![models[i]]);
    let r = undominated::<K, V>(p, models.take(i + 1));
    assert forall|k: K| l.dom().contains(k) <==> r.dom().contains(k) by {
        if l.dom().contains(k) {
            assert(seq![models[i]][0] == models[i]);
            assert forall|j: int| 0 <= j < i + 1 implies !dominated::<K, V>(
                #[trigger] models.take(i + 1)[j],
                k,
                p[k],
            ) by {
                if j < i {
                    assert(models.take(i)[j] == models[j]);
                }
            }
        }
        if r.dom().contains(k) {
            assert forall|j: int| 0 <= j < i implies !dominated::<K, V>(
                #[trigger] models.take(i)[j],
                k,
                p[k],
            ) by {
                assert(models.take(i + 1)[j] == models[j]);
            }
            assert(models.take(i + 1)[i] == models[i]);
        }
    }
    assert(l =~= r);
}

/// What `func` derives from well-formed values is well-formed.
proof fn lemma_cross_wf<R: DeferredRestore, T: DeferredRestore, F: Fn(&R::Value, &T::Value) -> R::Value>(
    func: F,
    xs: Seq<R::Value>,
    ys: Seq<T::Value>,
    out: Seq<R::Value>,
)
    requires
        cross(func, xs, ys, out),
        forall|i: int| 0 <= i < xs.len() ==> R::value_wf(#[trigger] xs[i]),
        forall|j: int| 0 <= j < ys.len() ==> T::value_wf(#[trigger] ys[j]),
        forall|a: R::Value, b: T::Value, y: R::Value|
            R::value_wf(a) && T::value_wf(b) && call_ensures(func, (&a, &b), y) ==> R::value_wf(y),
    ensures
        forall|q: int| 0 <= q < out.len() ==> R::value_wf(#[trigger] out[q]),
    decreases xs.len(),
{
    if xs.len() > 0 {
        let cut = out.len() - ys.len();
        lemma_cross_wf::<R, T, F>(func, xs.drop_last(), ys, out.take(cut));
        assert forall|q: int| 0 <= q < out.len() implies R::value_wf(#[trigger] out[q]) by {
            if q < cut {
                assert(out.take(cut)[q] == out[q]);
            } else {
                assert(out.skip(cut)[q - cut] == out[q]);
                assert(call_ensures(func, (&xs.last(), &ys[q - cut]), out.skip(cut)[q - cut]));
            }
        }
    }
}

/// The keys of a sequence of entries.
pub open spec fn keys_of<K>(entries: Seq<(K, ())>) -> Seq<K> {
    entries.map_values(|e: (K, ())| e.0)
}

/// The entries that stand for a sequence of keys.
pub open spec fn unit_entries<K>(keys: Seq<K>) -> Seq<(K, ())> {
    keys.map_values(|k: K| (k, ()))
}

/// A set-shaped relation for incremental evaluation: a map relation whose
/// values say nothing.
#[derive(Debug, PartialEq)]
pub struct SetRelation<K> {
    pub inner: MapRelation<K, ()>,
}

/// The keys behind a vector of references to entries.
fn key_refs<'a, K>(entries: Vec<&'a (K, ())>) -> (r: Vec<&'a K>)
    ensures
        deref_all(r@) == keys_of(deref_all(entries@)),
{
    let mut r: Vec<&K> = Vec::new();
    let mut i: usize = 0;
    while i < entries.len()
        invariant
            i <= entries.len(),
            r@.len() == i,
            forall|x: int| 0 <= x < i ==> *(#[trigger] r@[x]) == entries@[x].0,
        decreases entries.len() - i,
    {
        r.push(&entries[i].0);
        i += 1;
    }
    assert(deref_all(r@) =~= keys_of(deref_all(entries@)));
    r
}

impl<K: Ord + Clone> SetRelation<K> {
    /// The empty relation.
    pub fn new() -> (r: Self)
        ensures
            r.wf(),
            r.inner.stable@.len() == 0,
            r.inner.recent@.len() == 0,
            r.inner.to_add@.len() == 0,
    {
        SetRelation { inner: MapRelation::new() }
    }

    /// The relational join with `other`: `func` is called on each stable key
    /// with each recent value of `other`, and on each recent key with each
    /// stable and each recent value of `other`; the keys that it gives are
    /// staged.
    pub fn join<T: DeferredRestore, F: Fn(&K, &T::Value) -> K>(&mut self, other: &T, func: F)
        requires
            Self::lawful(),
            T::lawful(),
            old(self).wf(),
            other.wf(),
            callable_on(func, old(self).stable_view(), other.recent_view()),
            callable_on(func, old(self).recent_view(), other.stable_view() + other.recent_view()),
        ensures
            final(self).wf(),
            final(self).inner.stable == old(self).inner.stable,
            final(self).inner.recent == old(self).inner.recent,
            exists|d1: Seq<K>, d2: Seq<K>|
                {
                    &&& #[trigger] cross(func, old(self).stable_view(), other.recent_view(), d1)
                    &&& #[trigger] cross(
                        func,
                        old(self).recent_view(),
                        other.stable_view() + other.recent_view(),
                        d2,
                    )
                    &&& final(self).inner.to_add@ == old(self).inner.to_add@ + unit_entries(
                        d1 + d2,
                    )
                },
    {
        let mut derived: Vec<K> = Vec::new();
        let others_recent = other.recent();
        let mut others = other.stable();
        let mut more = other.recent();
        proof {
            assert(deref_all(others@ + more@) =~= deref_all(others@) + deref_all(more@));
        }
        others.append(&mut more);
        let own_stable = self.stable();
        let own_recent = self.recent();
        cross_apply(&own_stable, &others_recent, &func, &mut derived);
        let ghost d1 = derived@;
        cross_apply(&own_recent, &others, &func, &mut derived);
        let ghost d2 = derived@.skip(d1.len() as int);
        proof {
            assert(cross(func, self.stable_view(), other.recent_view(), d1)) by {
                let d = choose|d: Seq<K>|
                    #![trigger cross(func, deref_all(own_stable@), deref_all(others_recent@), d)]
                    cross(func, deref_all(own_stable@), deref_all(others_recent@), d) && d1
                        == Seq::<K>::empty() + d;
                assert(d1 =~= d);
            }
            assert(cross(func, self.recent_view(), other.stable_view() + other.recent_view(), d2))
                by {
                let d = choose|d: Seq<K>|
                    #![trigger cross(func, deref_all(own_recent@), deref_all(others@), d)]
                    cross(func, deref_all(own_recent@), deref_all(others@), d) && derived@ == d1
                        + d;
                assert(d2 =~= d);
            }
            assert(derived@ =~= d1 + d2);
        }
        let ghost all = derived@;
        let ghost before = self.inner.to_add@;
        assert(all.take(0) =~= Seq::<K>::empty());
        assert(self.inner.to_add@ =~= before + unit_entries(all.take(0)));
        for key in it: derived
            invariant
                it.seq() == all,
                self.inner.stable == old(self).inner.stable,
                self.inner.recent == old(self).inner.recent,
                self.inner.to_add@ == before + unit_entries(all.take(it.index() as int)),
        {
            proof {
                let n = it.index() as int;
                assert(unit_entries(all.take(n + 1)) =~= unit_entries(all.take(n)).push(
                    (all[n], ()),
                ));
            }
            self.inner.to_add.push((key, ()));
        }
        assert(all.take(all.len() as int) =~= all);
    }
}

/// The default value is the empty relation.
impl<K: Ord + Clone> Default for SetRelation<K> {
    fn default() -> (r: Self)
        ensures
            r.wf(),
            r.inner.stable@.len() == 0,
            r.inner.recent@.len() == 0,
            r.inner.to_add@.len() == 0,
    {
        SetRelation::new()
    }
}

impl<K: Ord + Clone> DeferredRestore for SetRelation<K> {
    type Value = K;

    open spec fn wf(&self) -> bool {
        self.inner.wf()
    }

    open spec fn lawful() -> bool {
        total_order::<K>()
    }

    open spec fn value_wf(v: K) -> bool {
        true
    }

    open spec fn stable_view(&self) -> Seq<K> {
        keys_of(self.inner.stable_view())
    }

    open spec fn recent_view(&self) -> Seq<K> {
        keys_of(self.inner.recent_view())
    }

    open spec fn settled(&self) -> bool {
        self.inner.settled()
    }

    open spec fn staged(&self, val: K, after: &Self) -> bool {
        self.inner.staged((val, ()), &after.inner)
    }

    open spec fn restored(&self, after: &Self) -> bool {
        self.inner.restored(&after.inner)
    }

    fn stable(&self) -> (r: Vec<&K>) {
        key_refs(self.inner.stable())
    }

    fn recent(&self) -> (r: Vec<&K>) {
        key_refs(self.inner.recent())
    }

    fn insert(&mut self, val: K) {
        self.inner.insert((val, ()));
    }

    fn restore(&mut self) -> (changed: bool) {
        self.inner.restore()
    }
}

} // verus!
