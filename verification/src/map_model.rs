use crate::lattice::{lemma_join_absorbs, lemma_join_upper_bound, SemiLattice};
use vstd::prelude::*;

verus! {

/// A finite map all of whose values are lattice elements.
pub open spec fn map_valid<K, V: SemiLattice>(m: Map<K, V::Model>) -> bool {
    &&& m.dom().finite()
    &&& forall|k: K| #[trigger] m.dom().contains(k) ==> V::valid(m[k])
}

/// `a` is below `b`: every key of `a` is a key of `b`, with a value that is
/// no smaller there.
pub open spec fn map_leq<K, V: SemiLattice>(a: Map<K, V::Model>, b: Map<K, V::Model>) -> bool {
    forall|k: K| #[trigger] a.dom().contains(k) ==> b.dom().contains(k) && V::leq(a[k], b[k])
}

/// The value of the join of `a` and `b` at a key that one of them holds.
pub open spec fn map_lub_at<K, V: SemiLattice>(
    a: Map<K, V::Model>,
    b: Map<K, V::Model>,
    k: K,
) -> V::Model {
    if a.dom().contains(k) {
        if b.dom().contains(k) {
            V::lub(a[k], b[k])
        } else {
            a[k]
        }
    } else {
        b[k]
    }
}

/// The join of two maps: the keys of both, the values at shared keys joined.
pub open spec fn map_lub<K, V: SemiLattice>(a: Map<K, V::Model>, b: Map<K, V::Model>) -> Map<
    K,
    V::Model,
> {
    Map::new(
        |k: K| a.dom().contains(k) || b.dom().contains(k),
        |k: K| map_lub_at::<K, V>(a, b, k),
    )
}

/// The map `m` after it has taken in the value `v` at the key `k`: a value
/// that stands there already is joined with `v`.
pub open spec fn absorb<K, V: SemiLattice>(m: Map<K, V::Model>, k: K, v: V::Model) -> Map<
    K,
    V::Model,
> {
    m.insert(
        k,
        if m.dom().contains(k) {
            V::lub(m[k], v)
        } else {
            v
        },
    )
}

/// The map that a sequence of entries builds up from the empty map, each
/// entry taken in after those before it.
pub open spec fn collect<K, V: SemiLattice>(s: Seq<(K, V)>) -> Map<K, V::Model>
    decreases s.len(),
{
    if s.len() == 0 {
        Map::empty()
    } else {
        absorb::<K, V>(collect(s.drop_last()), s.last().0, s.last().1.model())
    }
}

/// The value `v` at the key `k` says nothing that `m` does not say: `m` has
/// the key, with a value that is no smaller.
pub open spec fn dominated<K, V: SemiLattice>(m: Map<K, V::Model>, k: K, v: V::Model) -> bool {
    m.dom().contains(k) && V::leq(v, m[k])
}

/// The part of `p` that none of the maps in `batches` dominates.
pub open spec fn undominated<K, V: SemiLattice>(
    p: Map<K, V::Model>,
    batches: Seq<Map<K, V::Model>>,
) -> Map<K, V::Model> {
    p.restrict(
        Set::new(
            |k: K|
                forall|i: int|
                    0 <= i < batches.len() ==> !dominated::<K, V>(#[trigger] batches[i], k, p[k]),
        ),
    )
}

/// The stable batches after the batch `recent` has been merged in: it takes
/// up the batches from the end for as long as the last one has at most twice
/// its size, and then stands last itself.
pub open spec fn settle<K, V: SemiLattice>(
    stable: Seq<Map<K, V::Model>>,
    recent: Map<K, V::Model>,
) -> Seq<Map<K, V::Model>>
    decreases stable.len(),
{
    if stable.len() > 0 && stable.last().dom().len() <= 2 * recent.dom().len() {
        settle::<K, V>(stable.drop_last(), map_lub::<K, V>(recent, stable.last()))
    } else {
        stable.push(recent)
    }
}

/// A map that takes an entry in does not get smaller.
pub proof fn lemma_absorb_grows<K, V: SemiLattice>(m: Map<K, V::Model>, k: K, v: V::Model)
    requires
        map_valid::<K, V>(m),
        V::valid(v),
    ensures
        map_valid::<K, V>(absorb::<K, V>(m, k, v)),
        map_leq::<K, V>(m, absorb::<K, V>(m, k, v)),
{
    let grown = absorb::<K, V>(m, k, v);
    if m.dom().contains(k) {
        V::lemma_lub_valid(m[k], v);
        lemma_join_upper_bound::<V>(m[k], v);
    }
    assert forall|x: K| #[trigger] m.dom().contains(x) implies grown.dom().contains(x) && V::leq(
        m[x],
        grown[x],
    ) by {
        if x != k {
            V::lemma_leq_reflexive(m[x]);
        }
    }
}

/// The lattice of maps is closed under join.
pub proof fn lemma_map_lub_valid<K, V: SemiLattice>(a: Map<K, V::Model>, b: Map<K, V::Model>)
    requires
        map_valid::<K, V>(a),
        map_valid::<K, V>(b),
    ensures
        map_valid::<K, V>(map_lub::<K, V>(a, b)),
{
    let m = map_lub::<K, V>(a, b);
    assert(m.dom() =~= a.dom().union(b.dom()));
    vstd::set_lib::lemma_set_union_finite_iff(a.dom(), b.dom());
    assert forall|k: K| #[trigger] m.dom().contains(k) implies V::valid(m[k]) by {
        if a.dom().contains(k) && b.dom().contains(k) {
            V::lemma_lub_valid(a[k], b[k]);
        }
    }
}

/// The order of maps is reflexive.
pub proof fn lemma_map_leq_reflexive<K, V: SemiLattice>(a: Map<K, V::Model>)
    requires
        map_valid::<K, V>(a),
    ensures
        map_leq::<K, V>(a, a),
{
    assert forall|k: K| #[trigger] a.dom().contains(k) implies V::leq(a[k], a[k]) by {
        V::lemma_leq_reflexive(a[k]);
    }
}

/// The order of maps is antisymmetric.
pub proof fn lemma_map_leq_antisymmetric<K, V: SemiLattice>(
    a: Map<K, V::Model>,
    b: Map<K, V::Model>,
)
    requires
        map_valid::<K, V>(a),
        map_valid::<K, V>(b),
        map_leq::<K, V>(a, b),
        map_leq::<K, V>(b, a),
    ensures
        a == b,
{
    assert forall|k: K| a.dom().contains(k) implies #[trigger] a[k] == b[k] by {
        V::lemma_leq_antisymmetric(a[k], b[k]);
    }
    assert(a =~= b);
}

/// The order of maps is transitive.
pub proof fn lemma_map_leq_transitive<K, V: SemiLattice>(
    a: Map<K, V::Model>,
    b: Map<K, V::Model>,
    c: Map<K, V::Model>,
)
    requires
        map_valid::<K, V>(a),
        map_valid::<K, V>(b),
        map_valid::<K, V>(c),
        map_leq::<K, V>(a, b),
        map_leq::<K, V>(b, c),
    ensures
        map_leq::<K, V>(a, c),
{
    assert forall|k: K| #[trigger] a.dom().contains(k) implies c.dom().contains(k) && V::leq(
        a[k],
        c[k],
    ) by {
        assert(b.dom().contains(k));
        V::lemma_leq_transitive(a[k], b[k], c[k]);
    }
}

/// The join of maps is associative where the join of the values is.
pub proof fn lemma_map_join_associative<K, V: SemiLattice>(
    a: Map<K, V::Model>,
    b: Map<K, V::Model>,
    c: Map<K, V::Model>,
)
    requires
        V::associative(),
        map_valid::<K, V>(a),
        map_valid::<K, V>(b),
        map_valid::<K, V>(c),
    ensures
        map_lub::<K, V>(map_lub::<K, V>(a, b), c) == map_lub::<K, V>(a, map_lub::<K, V>(b, c)),
{
    let l = map_lub::<K, V>(map_lub::<K, V>(a, b), c);
    let r = map_lub::<K, V>(a, map_lub::<K, V>(b, c));
    assert forall|k: K| l.dom().contains(k) implies #[trigger] l[k] == r[k] by {
        if a.dom().contains(k) && b.dom().contains(k) && c.dom().contains(k) {
            V::lemma_join_associative(a[k], b[k], c[k]);
        }
    }
    assert(l =~= r);
}

/// The join of maps is commutative.
pub proof fn lemma_map_join_commutative<K, V: SemiLattice>(
    a: Map<K, V::Model>,
    b: Map<K, V::Model>,
)
    requires
        map_valid::<K, V>(a),
        map_valid::<K, V>(b),
    ensures
        map_lub::<K, V>(a, b) == map_lub::<K, V>(b, a),
{
    let l = map_lub::<K, V>(a, b);
    let r = map_lub::<K, V>(b, a);
    assert forall|k: K| l.dom().contains(k) implies #[trigger] l[k] == r[k] by {
        if a.dom().contains(k) && b.dom().contains(k) {
            V::lemma_join_commutative(a[k], b[k]);
        }
    }
    assert(l =~= r);
}

/// The join of maps is idempotent.
pub proof fn lemma_map_join_idempotent<K, V: SemiLattice>(a: Map<K, V::Model>)
    requires
        map_valid::<K, V>(a),
    ensures
        map_lub::<K, V>(a, a) == a,
{
    let l = map_lub::<K, V>(a, a);
    assert forall|k: K| l.dom().contains(k) implies #[trigger] l[k] == a[k] by {
        V::lemma_join_idempotent(a[k]);
    }
    assert(l =~= a);
}

/// A join of maps lies above both operands.
pub proof fn lemma_map_join_upper_bound<K, V: SemiLattice>(
    a: Map<K, V::Model>,
    b: Map<K, V::Model>,
)
    requires
        map_valid::<K, V>(a),
        map_valid::<K, V>(b),
    ensures
        map_leq::<K, V>(a, map_lub::<K, V>(a, b)),
        map_leq::<K, V>(b, map_lub::<K, V>(a, b)),
{
    let m = map_lub::<K, V>(a, b);
    assert forall|k: K| #[trigger] a.dom().contains(k) implies m.dom().contains(k) && V::leq(
        a[k],
        m[k],
    ) by {
        if b.dom().contains(k) {
            lemma_join_upper_bound::<V>(a[k], b[k]);
        } else {
            V::lemma_leq_reflexive(a[k]);
        }
    }
    assert forall|k: K| #[trigger] b.dom().contains(k) implies m.dom().contains(k) && V::leq(
        b[k],
        m[k],
    ) by {
        if a.dom().contains(k) {
            lemma_join_upper_bound::<V>(a[k], b[k]);
        } else {
            V::lemma_leq_reflexive(b[k]);
        }
    }
}

/// The join of two maps is the first one exactly when the second lies below
/// the first.
pub proof fn lemma_map_join_absorbs<K, V: SemiLattice>(a: Map<K, V::Model>, b: Map<K, V::Model>)
    requires
        map_valid::<K, V>(a),
        map_valid::<K, V>(b),
    ensures
        map_leq::<K, V>(b, a) ==> map_lub::<K, V>(a, b) == a,
        map_leq::<K, V>(map_lub::<K, V>(a, b), a) ==> map_leq::<K, V>(b, a),
{
    let m = map_lub::<K, V>(a, b);
    if map_leq::<K, V>(b, a) {
        assert forall|k: K| m.dom().contains(k) implies a.dom().contains(k) && #[trigger] m[k]
            == a[k] by {
            if b.dom().contains(k) {
                assert(a.dom().contains(k));
                V::lemma_join_order(a[k], b[k]);
            }
        }
        assert(m =~= a);
    }
    if map_leq::<K, V>(m, a) {
        assert forall|k: K| #[trigger] b.dom().contains(k) implies a.dom().contains(k) && V::leq(
            b[k],
            a[k],
        ) by {
            assert(m.dom().contains(k));
            assert(a.dom().contains(k));
            lemma_join_absorbs::<V>(a[k], b[k]);
        }
    }
}

/// Join agrees with the order of maps.
pub proof fn lemma_map_join_order<K, V: SemiLattice>(a: Map<K, V::Model>, b: Map<K, V::Model>)
    requires
        map_valid::<K, V>(a),
        map_valid::<K, V>(b),
    ensures
        map_leq::<K, V>(b, a) ==> map_lub::<K, V>(a, b) == a,
        map_leq::<K, V>(a, b) ==> map_lub::<K, V>(a, b) == b,
        !map_leq::<K, V>(a, b) && !map_leq::<K, V>(b, a) ==> {
            &&& map_leq::<K, V>(a, map_lub::<K, V>(a, b))
            &&& !map_leq::<K, V>(map_lub::<K, V>(a, b), a)
            &&& map_leq::<K, V>(b, map_lub::<K, V>(a, b))
            &&& !map_leq::<K, V>(map_lub::<K, V>(a, b), b)
        },
{
    lemma_map_join_absorbs::<K, V>(a, b);
    lemma_map_join_absorbs::<K, V>(b, a);
    lemma_map_join_commutative::<K, V>(a, b);
    lemma_map_join_upper_bound::<K, V>(a, b);
}

} // verus!
