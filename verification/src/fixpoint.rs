use crate::datalog::{DeferredRestore, Simple};
use crate::lattice::SemiLattice;
use crate::map::{entries_model, lemma_entries_valid, values_wf};
use crate::map_model::{
    absorb, collect, dominated, lemma_map_join_associative, lemma_map_join_commutative,
    lemma_map_join_upper_bound, lemma_map_leq_transitive, lemma_map_lub_valid, map_leq, map_lub,
    map_valid, settle, undominated,
};
use crate::relation::{batch_models, batches_wf, MapRelation, SetRelation};
use vstd::prelude::*;

verus! {

/// The join of a sequence of maps, taken from the empty map on.
pub open spec fn join_maps<K, V: SemiLattice>(ms: Seq<Map<K, V::Model>>) -> Map<K, V::Model>
    decreases ms.len(),
{
    if ms.len() == 0 {
        Map::empty()
    } else {
        map_lub::<K, V>(join_maps::<K, V>(ms.drop_last()), ms.last())
    }
}

/// Every map of the sequence is an element of the lattice of maps.
pub open spec fn maps_valid<K, V: SemiLattice>(ms: Seq<Map<K, V::Model>>) -> bool {
    forall|i: int| 0 <= i < ms.len() ==> map_valid::<K, V>(#[trigger] ms[i])
}

/// What a relation holds in all: the join of its stable batches, its recent
/// batch and what is staged in it.
pub open spec fn relation_value<K: Ord + Clone, V: SemiLattice>(r: MapRelation<K, V>) -> Map<
    K,
    V::Model,
> {
    map_lub::<K, V>(
        map_lub::<K, V>(join_maps::<K, V>(batch_models(r.stable@)), entries_model(r.recent@)),
        collect(r.to_add@),
    )
}

/// The join of a sequence of maps is an element of the lattice of maps.
pub proof fn lemma_join_maps_valid<K, V: SemiLattice>(ms: Seq<Map<K, V::Model>>)
    requires
        maps_valid::<K, V>(ms),
    ensures
        map_valid::<K, V>(join_maps::<K, V>(ms)),
    decreases ms.len(),
{
    if ms.len() > 0 {
        lemma_join_maps_valid::<K, V>(ms.drop_last());
        lemma_map_lub_valid::<K, V>(join_maps::<K, V>(ms.drop_last()), ms.last());
    }
}

/// The join of a sequence of maps lies above each of them.
pub proof fn lemma_join_maps_upper_bound<K, V: SemiLattice>(ms: Seq<Map<K, V::Model>>, i: int)
    requires
        maps_valid::<K, V>(ms),
        0 <= i < ms.len(),
    ensures
        map_leq::<K, V>(ms[i], join_maps::<K, V>(ms)),
    decreases ms.len(),
{
    let front = ms.drop_last();
    lemma_join_maps_valid::<K, V>(front);
    lemma_map_join_upper_bound::<K, V>(join_maps::<K, V>(front), ms.last());
    if i < ms.len() - 1 {
        lemma_join_maps_upper_bound::<K, V>(front, i);
        lemma_map_lub_valid::<K, V>(join_maps::<K, V>(front), ms.last());
        lemma_map_leq_transitive::<K, V>(front[i], join_maps::<K, V>(front), join_maps::<K, V>(ms));
    }
}

/// The entries of a sequence build up an element of the lattice of maps.
pub proof fn lemma_collect_valid<K, V: SemiLattice>(s: Seq<(K, V)>)
    requires
        values_wf(s),
    ensures
        map_valid::<K, V>(collect(s)),
    decreases s.len(),
{
    if s.len() > 0 {
        lemma_collect_valid(s.drop_last());
        let m = collect(s.drop_last());
        let k = s.last().0;
        V::lemma_wf_valid(s.last().1);
        if m.dom().contains(k) {
            V::lemma_lub_valid(m[k], s.last().1.model());
        }
    }
}

/// Taking an entry in is joining the map that holds that entry alone.
pub proof fn lemma_absorb_is_join<K, V: SemiLattice>(m: Map<K, V::Model>, k: K, v: V::Model)
    ensures
        absorb::<K, V>(m, k, v) == map_lub::<K, V>(m, Map::<K, V::Model>::empty().insert(k, v)),
{
    assert(absorb::<K, V>(m, k, v) =~= map_lub::<K, V>(
        m,
        Map::<K, V::Model>::empty().insert(k, v),
    ));
}

/// Merging the recent batch into the stable ones joins it to what they hold.
pub proof fn lemma_settle_joins<K, V: SemiLattice>(
    stable: Seq<Map<K, V::Model>>,
    recent: Map<K, V::Model>,
)
    requires
        V::associative(),
        maps_valid::<K, V>(stable),
        map_valid::<K, V>(recent),
    ensures
        maps_valid::<K, V>(settle::<K, V>(stable, recent)),
        join_maps::<K, V>(settle::<K, V>(stable, recent)) == map_lub::<K, V>(
            join_maps::<K, V>(stable),
            recent,
        ),
    decreases stable.len(),
{
    if stable.len() > 0 && stable.last().dom().len() <= 2 * recent.dom().len() {
        let front = stable.drop_last();
        let merged = map_lub::<K, V>(recent, stable.last());
        lemma_map_lub_valid::<K, V>(recent, stable.last());
        lemma_settle_joins::<K, V>(front, merged);
        lemma_join_maps_valid::<K, V>(front);
        lemma_map_join_commutative::<K, V>(recent, stable.last());
        lemma_map_join_associative::<K, V>(join_maps::<K, V>(front), stable.last(), recent);
    } else {
        let next = stable.push(recent);
        assert(next.drop_last() =~= stable);
        assert(next.last() == recent);
        assert forall|i: int| 0 <= i < next.len() implies map_valid::<K, V>(#[trigger] next[i]) by {
            if i < stable.len() {
                assert(next[i] == stable[i]);
            }
        }
    }
}

/// What the stable batches dominate adds nothing to what they hold.
pub proof fn lemma_undominated_joins<K, V: SemiLattice>(
    stable: Seq<Map<K, V::Model>>,
    pending: Map<K, V::Model>,
)
    requires
        maps_valid::<K, V>(stable),
        map_valid::<K, V>(pending),
    ensures
        map_lub::<K, V>(join_maps::<K, V>(stable), undominated::<K, V>(pending, stable))
            == map_lub::<K, V>(join_maps::<K, V>(stable), pending),
{
    let all = join_maps::<K, V>(stable);
    let kept = undominated::<K, V>(pending, stable);
    let l = map_lub::<K, V>(all, kept);
    let r = map_lub::<K, V>(all, pending);
    lemma_join_maps_valid::<K, V>(stable);
    assert forall|k: K| l.dom().contains(k) <==> r.dom().contains(k) by {
        if pending.dom().contains(k) && !kept.dom().contains(k) {
            let i = choose|i: int|
                0 <= i < stable.len() && dominated::<K, V>(#[trigger] stable[i], k, pending[k]);
            lemma_join_maps_upper_bound::<K, V>(stable, i);
            assert(stable[i].dom().contains(k));
        }
    }
    assert forall|k: K| l.dom().contains(k) implies #[trigger] l[k] == r[k] by {
        if pending.dom().contains(k) && !kept.dom().contains(k) {
            let i = choose|i: int|
                0 <= i < stable.len() && dominated::<K, V>(#[trigger] stable[i], k, pending[k]);
            lemma_join_maps_upper_bound::<K, V>(stable, i);
            assert(stable[i].dom().contains(k));
            assert(all.dom().contains(k));
            V::lemma_leq_transitive(pending[k], stable[i][k], all[k]);
            V::lemma_join_order(all[k], pending[k]);
        }
    }
    assert(l =~= r);
}

/// The models of well-formed batches are elements of the lattice of maps.
pub proof fn lemma_batch_models_valid<K: Ord + Clone, V: SemiLattice>(stable: Seq<Vec<(K, V)>>)
    requires
        batches_wf(stable),
    ensures
        maps_valid::<K, V>(batch_models(stable)),
{
    assert forall|i: int| 0 <= i < stable.len() implies map_valid::<K, V>(
        #[trigger] batch_models::<K, V>(stable)[i],
    ) by {
        lemma_entries_valid(stable[i]@);
    }
}

/// Staging an entry takes it into what the relation holds.
pub proof fn lemma_insert_adds_to_value<K: Ord + Clone, V: SemiLattice>(
    before: MapRelation<K, V>,
    val: (K, V),
    after: MapRelation<K, V>,
)
    requires
        V::associative(),
        before.wf(),
        val.1.wf(),
        before.staged(val, &after),
    ensures
        relation_value(after) == absorb::<K, V>(relation_value(before), val.0, val.1.model()),
{
    let held = map_lub::<K, V>(
        join_maps::<K, V>(batch_models(before.stable@)),
        entries_model(before.recent@),
    );
    let pending = collect(before.to_add@);
    let one = Map::<K, V::Model>::empty().insert(val.0, val.1.model());
    assert(after.to_add@.drop_last() =~= before.to_add@);
    assert(after.to_add@.last() == val);
    lemma_batch_models_valid::<K, V>(before.stable@);
    lemma_join_maps_valid::<K, V>(batch_models(before.stable@));
    lemma_entries_valid(before.recent@);
    lemma_map_lub_valid::<K, V>(
        join_maps::<K, V>(batch_models(before.stable@)),
        entries_model(before.recent@),
    );
    lemma_collect_valid(before.to_add@);
    V::lemma_wf_valid(val.1);
    lemma_absorb_is_join::<K, V>(pending, val.0, val.1.model());
    lemma_absorb_is_join::<K, V>(map_lub::<K, V>(held, pending), val.0, val.1.model());
    lemma_map_join_associative::<K, V>(held, pending, one);
}

/// Incremental evaluation changes the staging only, not what the relation
/// holds: the end of a round leaves the join of all that is stable, recent
/// and staged as it was. With `lemma_insert_adds_to_value` it follows that a
/// relation which has settled holds, in its stable batches, the fold of all
/// entries that were ever inserted.
pub proof fn lemma_restore_keeps_value<K: Ord + Clone, V: SemiLattice>(
    before: MapRelation<K, V>,
    after: MapRelation<K, V>,
)
    requires
        V::associative(),
        before.wf(),
        after.wf(),
        before.restored(&after),
    ensures
        relation_value(after) == relation_value(before),
{
    let stable = batch_models::<K, V>(before.stable@);
    let recent = entries_model(before.recent@);
    let pending = collect(before.to_add@);
    let settled = batch_models::<K, V>(after.stable@);
    lemma_batch_models_valid::<K, V>(before.stable@);
    lemma_batch_models_valid::<K, V>(after.stable@);
    lemma_entries_valid(before.recent@);
    lemma_collect_valid(before.to_add@);
    lemma_join_maps_valid::<K, V>(stable);
    lemma_join_maps_valid::<K, V>(settled);
    // The stable batches have taken the recent one in.
    assert(join_maps::<K, V>(settled) == map_lub::<K, V>(join_maps::<K, V>(stable), recent)) by {
        if before.recent@.len() > 0 {
            lemma_settle_joins::<K, V>(stable, recent);
        } else {
            assert(recent =~= Map::<K, V::Model>::empty());
            assert(map_lub::<K, V>(join_maps::<K, V>(stable), recent) =~= join_maps::<K, V>(
                stable,
            ));
        }
    }
    // What was staged has become recent, but for what the stable batches say already.
    lemma_undominated_joins::<K, V>(settled, pending);
    assert(after.to_add@ =~= Seq::<(K, V)>::empty());
    let kept = entries_model(after.recent@);
    assert(map_lub::<K, V>(map_lub::<K, V>(join_maps::<K, V>(settled), kept), collect(after.to_add@))
        =~= map_lub::<K, V>(join_maps::<K, V>(settled), kept));
}

/// The keys that a set relation holds in all.
pub open spec fn set_relation_value<K: Ord + Clone>(r: SetRelation<K>) -> Set<K> {
    relation_value(r.inner).dom()
}

/// Staging a key adds it to what the set relation holds.
pub proof fn lemma_set_insert_adds_to_value<K: Ord + Clone>(
    before: SetRelation<K>,
    val: K,
    after: SetRelation<K>,
)
    requires
        before.wf(),
        before.staged(val, &after),
    ensures
        set_relation_value(after) == set_relation_value(before).insert(val),
{
    lemma_insert_adds_to_value(before.inner, (val, ()), after.inner);
    assert(set_relation_value(after) =~= set_relation_value(before).insert(val));
}

/// The end of a round leaves the keys that a set relation holds as they
/// were.
pub proof fn lemma_set_restore_keeps_value<K: Ord + Clone>(before: SetRelation<K>, after: SetRelation<K>)
    requires
        before.wf(),
        after.wf(),
        before.restored(&after),
    ensures
        set_relation_value(after) == set_relation_value(before),
{
    lemma_restore_keeps_value(before.inner, after.inner);
}

/// What a single-value relation holds in all: the join of its stable, its
/// recent and its pending value.
pub open spec fn simple_value<S: SemiLattice>(r: Simple<S>) -> S::Model {
    S::lub(S::lub(r.stable.model(), r.recent.model()), r.pending.model())
}

/// Staging a value joins it to what the relation holds.
pub proof fn lemma_simple_insert_adds_to_value<S: SemiLattice>(
    before: Simple<S>,
    val: S,
    after: Simple<S>,
)
    requires
        S::associative(),
        before.wf(),
        val.wf(),
        before.staged(val, &after),
    ensures
        simple_value(after) == S::lub(simple_value(before), val.model()),
{
    S::lemma_wf_valid(before.stable);
    S::lemma_wf_valid(before.recent);
    S::lemma_wf_valid(before.pending);
    S::lemma_wf_valid(val);
    S::lemma_lub_valid(before.stable.model(), before.recent.model());
    S::lemma_join_associative(
        S::lub(before.stable.model(), before.recent.model()),
        before.pending.model(),
        val.model(),
    );
}

/// The end of a round leaves what a single-value relation holds as it was.
pub proof fn lemma_simple_restore_keeps_value<S: SemiLattice>(before: Simple<S>, after: Simple<S>)
    requires
        before.wf(),
        before.restored(&after),
    ensures
        simple_value(after) == simple_value(before),
{
    S::lemma_wf_valid(before.stable);
    S::lemma_wf_valid(before.recent);
    S::lemma_wf_valid(before.pending);
    S::lemma_lub_valid(before.stable.model(), before.recent.model());
    let held = S::lub(S::lub(before.stable.model(), before.recent.model()), before.pending.model());
    S::lemma_lub_valid(S::lub(before.stable.model(), before.recent.model()), before.pending.model());
    S::lemma_bottom_valid();
    S::lemma_bottom_least(held);
    S::lemma_join_order(held, S::bottom_model());
}

} // verus!
