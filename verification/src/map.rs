use crate::key::{key_copy, key_lt, key_order, lemma_key_lt_transitive, lemma_key_trichotomy, total_order};
use crate::lattice::{Order, SemiLattice};
use crate::map_model::{
    lemma_map_join_associative, lemma_map_join_commutative, lemma_map_join_idempotent,
    lemma_map_join_order, lemma_map_leq_antisymmetric, lemma_map_leq_reflexive,
    absorb, collect, lemma_map_leq_transitive, lemma_map_lub_valid, map_leq, map_lub, map_lub_at,
    map_valid,
};
use vstd::prelude::*;

verus! {

/// The keys of the entries rise strictly from each entry to the next.
pub open spec fn sorted_entries<K: Ord, V>(s: Seq<(K, V)>) -> bool {
    forall|i: int, j: int| 0 <= i < j < s.len() ==> key_lt(#[trigger] s[i].0, #[trigger] s[j].0)
}

/// Some entry of `s` has the key `k`.
pub open spec fn has_key<K, V>(s: Seq<(K, V)>, k: K) -> bool {
    exists|i: int| 0 <= i < s.len() && (#[trigger] s[i]).0 == k
}

/// The place of an entry with the key `k`.
pub open spec fn index_of<K, V>(s: Seq<(K, V)>, k: K) -> int {
    choose|i: int| 0 <= i < s.len() && (#[trigger] s[i]).0 == k
}

/// Every value of the entries is well-formed.
pub open spec fn values_wf<K, V: SemiLattice>(s: Seq<(K, V)>) -> bool {
    forall|i: int| 0 <= i < s.len() ==> (#[trigger] s[i]).1.wf()
}

/// The association that a sequence of entries with distinct keys stands for.
pub open spec fn entries_model<K, V: SemiLattice>(s: Seq<(K, V)>) -> Map<K, V::Model> {
    Map::new(|k: K| has_key(s, k), |k: K| s[index_of(s, k)].1.model())
}

/// In a sorted sequence a key occurs at one place only, and the model maps
/// it to the value that stands there.
pub proof fn lemma_entry_at<K: Ord + Clone, V: SemiLattice>(s: Seq<(K, V)>, i: int)
    requires
        total_order::<K>(),
        sorted_entries(s),
        0 <= i < s.len(),
    ensures
        has_key(s, s[i].0),
        index_of(s, s[i].0) == i,
        entries_model(s).dom().contains(s[i].0),
        entries_model(s)[s[i].0] == s[i].1.model(),
{
    let j = index_of(s, s[i].0);
    assert(s[j].0 == s[i].0);
    lemma_key_trichotomy(s[i].0, s[j].0);
    if i < j {
        assert(key_lt(s[i].0, s[j].0));
    }
    if j < i {
        assert(key_lt(s[j].0, s[i].0));
    }
}

/// The model of a sorted, well-formed sequence of entries is an element of
/// the lattice of maps.
pub proof fn lemma_entries_valid<K: Ord + Clone, V: SemiLattice>(s: Seq<(K, V)>)
    requires
        values_wf(s),
    ensures
        map_valid::<K, V>(entries_model(s)),
{
    let m = entries_model(s);
    let keys = s.map_values(|e: (K, V)| e.0);
    assert forall|k: K| m.dom().contains(k) <==> keys.to_set().contains(k) by {
        if m.dom().contains(k) {
            let i = index_of(s, k);
            assert(keys[i] == k);
        }
        if keys.to_set().contains(k) {
            let i = choose|i: int| 0 <= i < keys.len() && keys[i] == k;
            assert(s[i].0 == k);
        }
    }
    assert(m.dom() =~= keys.to_set());
    vstd::seq_lib::seq_to_set_is_finite(keys);
    assert forall|k: K| #[trigger] m.dom().contains(k) implies V::valid(m[k]) by {
        V::lemma_wf_valid(s[index_of(s, k)].1);
    }
}

/// An entry `e` is matched in the map `m`: `m` has its key, with a value
/// that is no smaller.
pub open spec fn entry_below<K, V: SemiLattice>(e: (K, V), m: Map<K, V::Model>) -> bool {
    m.dom().contains(e.0) && V::leq(e.1.model(), m[e.0])
}

/// The model of a sorted sequence of entries lies below a map exactly when
/// each of the entries is matched there.
pub proof fn lemma_leq_by_entries<K: Ord + Clone, V: SemiLattice>(
    s: Seq<(K, V)>,
    m: Map<K, V::Model>,
)
    requires
        total_order::<K>(),
        sorted_entries(s),
    ensures
        map_leq::<K, V>(entries_model(s), m) <==> forall|x: int|
            0 <= x < s.len() ==> entry_below(#[trigger] s[x], m),
{
    let a = entries_model(s);
    if map_leq::<K, V>(a, m) {
        assert forall|x: int| 0 <= x < s.len() implies entry_below(#[trigger] s[x], m) by {
            lemma_entry_at(s, x);
        }
    }
    if forall|x: int| 0 <= x < s.len() ==> entry_below(#[trigger] s[x], m) {
        assert forall|k: K| #[trigger] a.dom().contains(k) implies m.dom().contains(k) && V::leq(
            a[k],
            m[k],
        ) by {
            let x = index_of(s, k);
            lemma_entry_at(s, x);
            assert(entry_below(s[x], m));
        }
    }
}

/// Skips the entries of a sorted run that come before `key`: the result is
/// the first place from `start` on whose key is not less than `key`. The
/// search probes at strides that double, then halves the stride again, so
/// that a far target costs a logarithmic number of comparisons.
pub fn gallop<K: Ord + Clone, V>(run: &Vec<(K, V)>, start: usize, key: &K) -> (end: usize)
    requires
        total_order::<K>(),
        sorted_entries(run@),
        start <= run.len(),
    ensures
        start <= end <= run.len(),
        forall|x: int| start <= x < end ==> key_lt(#[trigger] run[x].0, *key),
        forall|x: int| end <= x < run.len() ==> !key_lt(#[trigger] run[x].0, *key),
{
    let len = run.len();
    let mut pos = start;
    if pos < len && key_order(&run[pos].0, key) == Order::Less {
        let mut step: usize = 1;
        let mut doubling = true;
        let ghost mut e: nat = 0;
        proof {
            vstd::arithmetic::power2::lemma2_to64();
        }
        while doubling && step < len - pos && key_order(&run[pos + step].0, key) == Order::Less
            invariant
                total_order::<K>(),
                sorted_entries(run@),
                len == run.len(),
                start <= pos < len,
                key_lt(run[pos as int].0, *key),
                step == vstd::arithmetic::power2::pow2(e),
                !doubling ==> pos + step >= len,
            decreases len - pos,
        {
            proof {
                vstd::arithmetic::power2::lemma_pow2_pos(e);
            }
            pos += step;
            if step > usize::MAX / 2 {
                doubling = false;
            } else {
                proof {
                    vstd::arithmetic::power2::lemma_pow2_unfold(e + 1);
                    e = e + 1;
                }
                step *= 2;
            }
        }
        let ghost mut bound: int = pos + step;
        proof {
            vstd::arithmetic::power2::lemma2_to64();
            vstd::arithmetic::power2::lemma_pow2_pos(e);
            if e > 0 {
                vstd::arithmetic::power2::lemma_pow2_unfold(e);
                vstd::arithmetic::power2::lemma_pow2_pos((e - 1) as nat);
            }
        }
        let mut half = step / 2;
        proof {
            if e > 0 {
                e = (e - 1) as nat;
            }
        }
        while half > 0
            invariant
                total_order::<K>(),
                sorted_entries(run@),
                len == run.len(),
                start <= pos < len,
                key_lt(run[pos as int].0, *key),
                pos < bound,
                bound >= len || !key_lt(run[bound].0, *key),
                half > 0 ==> half == vstd::arithmetic::power2::pow2(e) && bound - pos <= 2 * half,
                half == 0 ==> bound - pos <= 1,
            decreases half,
        {
            if half < len - pos && key_order(&run[pos + half].0, key) == Order::Less {
                proof {
                    if bound < pos + half {
                        lemma_key_lt_transitive(run[bound].0, run[pos + half].0, *key);
                    }
                }
                pos += half;
            } else {
                proof {
                    bound = pos + half;
                }
            }
            proof {
                vstd::arithmetic::power2::lemma2_to64();
                if e > 0 {
                    vstd::arithmetic::power2::lemma_pow2_unfold(e);
                    vstd::arithmetic::power2::lemma_pow2_pos((e - 1) as nat);
                    e = (e - 1) as nat;
                }
            }
            half /= 2;
        }
        proof {
            assert forall|x: int| start <= x < pos + 1 implies key_lt(#[trigger] run[x].0, *key) by {
                if x < pos {
                    lemma_key_lt_transitive(run[x].0, run[pos as int].0, *key);
                }
            }
            assert forall|x: int| pos + 1 <= x < run.len() implies !key_lt(
                #[trigger] run[x].0,
                *key,
            ) by {
                if bound < x && key_lt(run[x].0, *key) {
                    lemma_key_lt_transitive(run[bound].0, run[x].0, *key);
                }
            }
        }
        pos += 1;
    } else {
        proof {
            assert forall|x: int| pos <= x < run.len() implies !key_lt(#[trigger] run[x].0, *key) by {
                if pos < x && key_lt(run[x].0, *key) {
                    lemma_key_lt_transitive(run[pos as int].0, run[x].0, *key);
                }
            }
        }
    }
    pos
}

/// The keys of the entries fall strictly from each entry to the next.
pub open spec fn falling_entries<K: Ord, V>(s: Seq<(K, V)>) -> bool {
    forall|i: int, j: int| 0 <= i < j < s.len() ==> key_lt(#[trigger] s[j].0, #[trigger] s[i].0)
}

/// Merges two sorted runs of entries into one: the keys of both, and at a
/// key that both hold the join of the two values.
pub fn merge_entries<K: Ord + Clone, V: SemiLattice>(a: Vec<(K, V)>, b: Vec<(K, V)>) -> (r: Vec<
    (K, V),
>)
    requires
        total_order::<K>(),
        V::lawful(),
        sorted_entries(a@),
        values_wf(a@),
        sorted_entries(b@),
        values_wf(b@),
    ensures
        sorted_entries(r@),
        values_wf(r@),
        entries_model(r@) == map_lub::<K, V>(entries_model(a@), entries_model(b@)),
{
    let ghost a0 = a@;
    let ghost b0 = b@;
    let ghost ma = entries_model(a0);
    let ghost mb = entries_model(b0);
    let mut a = a;
    let mut b = b;
    // The greatest keys leave first, so `out` falls; it is turned round at the end.
    let mut out: Vec<(K, V)> = Vec::new();
    while a.len() > 0 || b.len() > 0
        invariant
            total_order::<K>(),
            V::lawful(),
            sorted_entries(a0),
            values_wf(a0),
            sorted_entries(b0),
            values_wf(b0),
            ma == entries_model(a0),
            mb == entries_model(b0),
            a@ == a0.take(a@.len() as int),
            b@ == b0.take(b@.len() as int),
            a@.len() <= a0.len(),
            b@.len() <= b0.len(),
            falling_entries(out@),
            values_wf(out@),
            forall|p: int|
                0 <= p < out.len() ==> (ma.dom().contains((#[trigger] out[p]).0) || mb.dom().contains(
                    out[p].0,
                )) && out[p].1.model() == map_lub_at::<K, V>(ma, mb, out[p].0),
            forall|x: int| a@.len() <= x < a0.len() ==> has_key(out@, (#[trigger] a0[x]).0),
            forall|y: int| b@.len() <= y < b0.len() ==> has_key(out@, (#[trigger] b0[y]).0),
            out.len() > 0 ==> forall|x: int|
                0 <= x < a@.len() ==> key_lt((#[trigger] a0[x]).0, out[out.len() - 1].0),
            out.len() > 0 ==> forall|y: int|
                0 <= y < b@.len() ==> key_lt((#[trigger] b0[y]).0, out[out.len() - 1].0),
        decreases a.len() + b.len(),
    {
        let ghost out0 = out@;
        let ghost i = a@.len() - 1;
        let ghost j = b@.len() - 1;
        let side: Order = if b.len() == 0 {
            Order::Greater
        } else if a.len() == 0 {
            Order::Less
        } else {
            key_order(&a[a.len() - 1].0, &b[b.len() - 1].0)
        };
        match side {
            Order::Equal => {
                let (k, v) = a.pop().unwrap();
                let (_, w) = b.pop().unwrap();
                proof {
                    lemma_entry_at(a0, i);
                    lemma_entry_at(b0, j);
                }
                out.push((k, v.join(w)));
                proof {
                    assert(out@.drop_last() =~= out0);
                    assert forall|x: int| 0 <= x < i implies key_lt((#[trigger] a0[x]).0, k) by {
                        assert(key_lt(a0[x].0, a0[i].0));
                    }
                    assert forall|y: int| 0 <= y < j implies key_lt((#[trigger] b0[y]).0, k) by {
                        assert(key_lt(b0[y].0, b0[j].0));
                    }
                    lemma_merge_step(a0, b0, out0, out@, i, j, k);
                }
            },
            Order::Greater => {
                let (k, v) = a.pop().unwrap();
                proof {
                    lemma_entry_at(a0, i);
                    if mb.dom().contains(k) {
                        let y = index_of(b0, k);
                        lemma_key_trichotomy(b0[y].0, k);
                        if y <= j {
                            if y < j {
                                lemma_key_lt_transitive(b0[y].0, b0[j].0, k);
                            }
                        } else {
                            let q = choose|q: int| 0 <= q < out0.len() && (#[trigger] out0[q]).0 == k;
                            if q < out0.len() - 1 {
                                assert(key_lt(out0[out0.len() - 1].0, out0[q].0));
                                lemma_key_lt_transitive(k, out0[out0.len() - 1].0, out0[q].0);
                            }
                        }
                    }
                }
                out.push((k, v));
                proof {
                    assert(out@.drop_last() =~= out0);
                    assert forall|x: int| 0 <= x < i implies key_lt((#[trigger] a0[x]).0, k) by {
                        assert(key_lt(a0[x].0, a0[i].0));
                    }
                    assert forall|y: int| 0 <= y < j + 1 implies key_lt((#[trigger] b0[y]).0, k) by {
                        if y < j {
                            assert(key_lt(b0[y].0, b0[j].0));
                            lemma_key_lt_transitive(b0[y].0, b0[j].0, k);
                        }
                    }
                    lemma_merge_step(a0, b0, out0, out@, i, j + 1, k);
                }
            },
            Order::Less => {
                let (k, w) = b.pop().unwrap();
                proof {
                    lemma_entry_at(b0, j);
                    if ma.dom().contains(k) {
                        let x = index_of(a0, k);
                        lemma_key_trichotomy(a0[x].0, k);
                        if x <= i {
                            if x < i {
                                lemma_key_lt_transitive(a0[x].0, a0[i].0, k);
                            }
                        } else {
                            let q = choose|q: int| 0 <= q < out0.len() && (#[trigger] out0[q]).0 == k;
                            if q < out0.len() - 1 {
                                assert(key_lt(out0[out0.len() - 1].0, out0[q].0));
                                lemma_key_lt_transitive(k, out0[out0.len() - 1].0, out0[q].0);
                            }
                        }
                    }
                }
                out.push((k, w));
                proof {
                    assert(out@.drop_last() =~= out0);
                    assert forall|y: int| 0 <= y < j implies key_lt((#[trigger] b0[y]).0, k) by {
                        assert(key_lt(b0[y].0, b0[j].0));
                    }
                    assert forall|x: int| 0 <= x < i + 1 implies key_lt((#[trigger] a0[x]).0, k) by {
                        if x < i {
                            assert(key_lt(a0[x].0, a0[i].0));
                            lemma_key_lt_transitive(a0[x].0, a0[i].0, k);
                        }
                    }
                    lemma_merge_step(a0, b0, out0, out@, i + 1, j, k);
                }
            },
        }
    }
    let ghost fallen = out@;
    let mut r: Vec<(K, V)> = Vec::new();
    while out.len() > 0
        invariant
            out@ == fallen.take(out@.len() as int),
            out@.len() <= fallen.len(),
            r@.len() == fallen.len() - out@.len(),
            forall|p: int| 0 <= p < r@.len() ==> #[trigger] r@[p] == fallen[fallen.len() - 1 - p],
        decreases out.len(),
    {
        let e = out.pop().unwrap();
        r.push(e);
    }
    proof {
        let s = r@;
        assert forall|p: int, q: int| 0 <= p < q < s.len() implies key_lt(
            #[trigger] s[p].0,
            #[trigger] s[q].0,
        ) by {
            assert(key_lt(fallen[fallen.len() - 1 - p].0, fallen[fallen.len() - 1 - q].0));
        }
        assert forall|p: int| 0 <= p < s.len() implies (#[trigger] s[p]).1.wf() by {
            assert(fallen[fallen.len() - 1 - p].1.wf());
        }
        let m = map_lub::<K, V>(ma, mb);
        let got = entries_model(s);
        assert forall|k: K| got.dom().contains(k) <==> m.dom().contains(k) by {
            if got.dom().contains(k) {
                let p = index_of(s, k);
                assert(fallen[fallen.len() - 1 - p].0 == k);
            }
            if ma.dom().contains(k) {
                let x = index_of(a0, k);
                let q = choose|q: int| 0 <= q < fallen.len() && (#[trigger] fallen[q]).0 == a0[x].0;
                assert(s[fallen.len() - 1 - q].0 == k);
            }
            if mb.dom().contains(k) {
                let y = index_of(b0, k);
                let q = choose|q: int| 0 <= q < fallen.len() && (#[trigger] fallen[q]).0 == b0[y].0;
                assert(s[fallen.len() - 1 - q].0 == k);
            }
        }
        assert forall|k: K| got.dom().contains(k) implies #[trigger] got[k] == m[k] by {
            let p = index_of(s, k);
            lemma_entry_at(s, p);
            assert(fallen[fallen.len() - 1 - p].0 == k);
        }
        assert(got =~= m);
    }
    r
}

/// One step of the merge keeps what is known of the entries that have left:
/// `late` is `early` with one entry for the key `k`, and `i`, `j` are the
/// numbers of entries of `a0`, `b0` that have not left yet.
proof fn lemma_merge_step<K: Ord + Clone, V: SemiLattice>(
    a0: Seq<(K, V)>,
    b0: Seq<(K, V)>,
    early: Seq<(K, V)>,
    late: Seq<(K, V)>,
    i: int,
    j: int,
    k: K,
)
    requires
        total_order::<K>(),
        sorted_entries(a0),
        sorted_entries(b0),
        0 <= i <= a0.len(),
        0 <= j <= b0.len(),
        late.len() == early.len() + 1,
        late.drop_last() == early,
        late.last().0 == k,
        falling_entries(early),
        early.len() > 0 ==> key_lt(k, early.last().0),
        forall|x: int|
            i <= x < a0.len() ==> (#[trigger] a0[x]).0 == k || has_key(early, a0[x].0),
        forall|y: int|
            j <= y < b0.len() ==> (#[trigger] b0[y]).0 == k || has_key(early, b0[y].0),
        forall|x: int| 0 <= x < i ==> key_lt((#[trigger] a0[x]).0, k),
        forall|y: int| 0 <= y < j ==> key_lt((#[trigger] b0[y]).0, k),
    ensures
        falling_entries(late),
        forall|x: int| i <= x < a0.len() ==> has_key(late, (#[trigger] a0[x]).0),
        forall|y: int| j <= y < b0.len() ==> has_key(late, (#[trigger] b0[y]).0),
{
    assert forall|p: int, q: int| 0 <= p < q < late.len() implies key_lt(
        #[trigger] late[q].0,
        #[trigger] late[p].0,
    ) by {
        assert(late[p] == early[p]);
        if q < early.len() {
            assert(late[q] == early[q]);
        } else if p < early.len() - 1 {
            assert(key_lt(early[early.len() - 1].0, early[p].0));
            lemma_key_lt_transitive(k, early.last().0, early[p].0);
        }
    }
    assert(late[late.len() - 1].0 == k);
    assert forall|x: int| i <= x < a0.len() implies has_key(late, (#[trigger] a0[x]).0) by {
        if a0[x].0 != k {
            let q = choose|q: int| 0 <= q < early.len() && (#[trigger] early[q]).0 == a0[x].0;
            assert(late[q] == early[q]);
        }
    }
    assert forall|y: int| j <= y < b0.len() implies has_key(late, (#[trigger] b0[y]).0) by {
        if b0[y].0 != k {
            let q = choose|q: int| 0 <= q < early.len() && (#[trigger] early[q]).0 == b0[y].0;
            assert(late[q] == early[q]);
        }
    }
}

/// A key that lies between the entries before `j` and those from `j` on is
/// no key of the run.
pub proof fn lemma_key_absent<K: Ord + Clone, V: SemiLattice>(s: Seq<(K, V)>, k: K, j: int)
    requires
        total_order::<K>(),
        sorted_entries(s),
        0 <= j <= s.len(),
        forall|y: int| 0 <= y < j ==> key_lt((#[trigger] s[y]).0, k),
        j < s.len() ==> key_lt(k, s[j].0),
    ensures
        !has_key(s, k),
        !entries_model(s).dom().contains(k),
{
    if has_key(s, k) {
        let y = index_of(s, k);
        lemma_key_trichotomy(s[y].0, k);
        if y >= j {
            if y > j {
                lemma_key_lt_transitive(k, s[j].0, s[y].0);
            }
        }
    }
}

/// Moving on in one run, past entries whose keys come before the key at
/// which the other run stands, keeps the two runs apart.
proof fn lemma_compare_advance<K: Ord + Clone, V: SemiLattice>(
    a: Seq<(K, V)>,
    b: Seq<(K, V)>,
    i: int,
    j: int,
    i2: int,
    j2: int,
)
    requires
        total_order::<K>(),
        sorted_entries(a),
        sorted_entries(b),
        0 <= i <= i2 <= a.len(),
        0 <= j <= j2 <= b.len(),
        i < a.len(),
        j < b.len(),
        forall|x: int, y: int|
            0 <= x < i && j <= y < b.len() ==> key_lt(#[trigger] a[x].0, #[trigger] b[y].0),
        forall|x: int, y: int|
            i <= x < a.len() && 0 <= y < j ==> key_lt(#[trigger] b[y].0, #[trigger] a[x].0),
        forall|x: int| i <= x < i2 ==> key_lt((#[trigger] a[x]).0, b[j].0) || (a[x].0 == b[j].0
            && j2 > j),
        forall|y: int| j <= y < j2 ==> key_lt((#[trigger] b[y]).0, a[i].0) || (b[y].0 == a[i].0
            && i2 > i),
    ensures
        forall|x: int, y: int|
            0 <= x < i2 && j2 <= y < b.len() ==> key_lt(#[trigger] a[x].0, #[trigger] b[y].0),
        forall|x: int, y: int|
            i2 <= x < a.len() && 0 <= y < j2 ==> key_lt(#[trigger] b[y].0, #[trigger] a[x].0),
{
    assert forall|x: int, y: int| 0 <= x < i2 && j2 <= y < b.len() implies key_lt(
        #[trigger] a[x].0,
        #[trigger] b[y].0,
    ) by {
        if x >= i {
            if key_lt(a[x].0, b[j].0) {
                if y > j {
                    lemma_key_lt_transitive(a[x].0, b[j].0, b[y].0);
                }
            } else {
                assert(key_lt(b[j].0, b[y].0));
            }
        }
    }
    assert forall|x: int, y: int| i2 <= x < a.len() && 0 <= y < j2 implies key_lt(
        #[trigger] b[y].0,
        #[trigger] a[x].0,
    ) by {
        if y >= j {
            if key_lt(b[y].0, a[i].0) {
                if x > i {
                    lemma_key_lt_transitive(b[y].0, a[i].0, a[x].0);
                }
            } else {
                assert(key_lt(a[i].0, a[x].0));
            }
        }
    }
}

/// Two sorted sequences with the same keys and the same values at each
/// place have the same model.
pub proof fn lemma_same_entries<K: Ord + Clone, V: SemiLattice>(s: Seq<(K, V)>, t: Seq<(K, V)>)
    requires
        total_order::<K>(),
        sorted_entries(s),
        s.len() == t.len(),
        forall|x: int|
            0 <= x < s.len() ==> (#[trigger] t[x]).0 == s[x].0 && t[x].1.wf() && t[x].1.model()
                == s[x].1.model(),
    ensures
        sorted_entries(t),
        values_wf(t),
        entries_model(t) == entries_model(s),
{
    assert forall|i: int, j: int| 0 <= i < j < t.len() implies key_lt(
        #[trigger] t[i].0,
        #[trigger] t[j].0,
    ) by {
        assert(key_lt(s[i].0, s[j].0));
    }
    let ms = entries_model(s);
    let mt = entries_model(t);
    assert forall|k: K| ms.dom().contains(k) <==> mt.dom().contains(k) by {
        if ms.dom().contains(k) {
            let x = index_of(s, k);
            assert(t[x].0 == k);
        }
        if mt.dom().contains(k) {
            let x = index_of(t, k);
            assert(s[x].0 == k);
        }
    }
    assert forall|k: K| ms.dom().contains(k) implies #[trigger] ms[k] == mt[k] by {
        let x = index_of(s, k);
        lemma_entry_at(s, x);
        lemma_entry_at(t, x);
    }
    assert(ms =~= mt);
}

/// Replacing the value of one entry of a sorted sequence changes the model
/// at the key of that entry only.
pub proof fn lemma_entry_changed<K: Ord + Clone, V: SemiLattice>(
    s: Seq<(K, V)>,
    t: Seq<(K, V)>,
    i: int,
)
    requires
        total_order::<K>(),
        sorted_entries(s),
        values_wf(s),
        0 <= i < s.len(),
        t.len() == s.len(),
        t[i].0 == s[i].0,
        forall|x: int| 0 <= x < s.len() && x != i ==> #[trigger] t[x] == s[x],
    ensures
        sorted_entries(t),
        t[i].1.wf() ==> values_wf(t),
        entries_model(t) == entries_model(s).insert(s[i].0, t[i].1.model()),
{
    assert forall|x: int| 0 <= x < s.len() implies (#[trigger] t[x]).0 == s[x].0 by {}
    assert forall|p: int, q: int| 0 <= p < q < t.len() implies key_lt(
        #[trigger] t[p].0,
        #[trigger] t[q].0,
    ) by {
        assert(key_lt(s[p].0, s[q].0));
    }
    let ms = entries_model(s);
    let mt = entries_model(t);
    let want = ms.insert(s[i].0, t[i].1.model());
    assert forall|k: K| mt.dom().contains(k) <==> want.dom().contains(k) by {
        if mt.dom().contains(k) {
            let x = index_of(t, k);
            assert(s[x].0 == k);
        }
        if ms.dom().contains(k) {
            let x = index_of(s, k);
            assert(t[x].0 == k);
        }
        lemma_entry_at(s, i);
        lemma_entry_at(t, i);
    }
    assert forall|k: K| mt.dom().contains(k) implies #[trigger] mt[k] == want[k] by {
        let x = index_of(t, k);
        lemma_entry_at(t, x);
        lemma_entry_at(s, x);
        lemma_entry_at(s, i);
        if x != i {
            assert(t[x] == s[x]);
        }
    }
    assert(mt =~= want);
}

/// Putting an entry with a new key at its place in a sorted sequence adds
/// that entry to the model.
pub proof fn lemma_entry_added<K: Ord + Clone, V: SemiLattice>(
    s: Seq<(K, V)>,
    t: Seq<(K, V)>,
    i: int,
)
    requires
        total_order::<K>(),
        sorted_entries(s),
        values_wf(s),
        0 <= i <= s.len(),
        t.len() == s.len() + 1,
        t[i].1.wf(),
        forall|x: int| 0 <= x < i ==> #[trigger] t[x] == s[x],
        forall|x: int| i <= x < s.len() ==> #[trigger] t[x + 1] == s[x],
        forall|x: int| 0 <= x < i ==> key_lt((#[trigger] s[x]).0, t[i].0),
        forall|x: int| i <= x < s.len() ==> key_lt(t[i].0, (#[trigger] s[x]).0),
    ensures
        sorted_entries(t),
        values_wf(t),
        !entries_model(s).dom().contains(t[i].0),
        entries_model(t) == entries_model(s).insert(t[i].0, t[i].1.model()),
{
    assert forall|p: int, q: int| 0 <= p < q < t.len() implies key_lt(
        #[trigger] t[p].0,
        #[trigger] t[q].0,
    ) by {
        if p < i {
            assert(t[p] == s[p]);
            if q > i {
                assert(t[q - 1 + 1] == s[q - 1]);
                assert(key_lt(s[p].0, s[q - 1].0));
            }
        } else if p == i {
            assert(t[q - 1 + 1] == s[q - 1]);
        } else {
            assert(t[p - 1 + 1] == s[p - 1]);
            assert(t[q - 1 + 1] == s[q - 1]);
            assert(key_lt(s[p - 1].0, s[q - 1].0));
        }
    }
    assert forall|x: int| 0 <= x < t.len() implies (#[trigger] t[x]).1.wf() by {
        if x < i {
            assert(t[x] == s[x]);
        } else if x > i {
            assert(t[x - 1 + 1] == s[x - 1]);
        }
    }
    let ms = entries_model(s);
    let mt = entries_model(t);
    let want = ms.insert(t[i].0, t[i].1.model());
    if ms.dom().contains(t[i].0) {
        let x = index_of(s, t[i].0);
        lemma_key_trichotomy(s[x].0, t[i].0);
    }
    assert forall|k: K| mt.dom().contains(k) <==> want.dom().contains(k) by {
        if mt.dom().contains(k) {
            let x = index_of(t, k);
            if x < i {
                assert(t[x] == s[x]);
            } else if x > i {
                assert(t[x - 1 + 1] == s[x - 1]);
            }
        }
        if ms.dom().contains(k) {
            let x = index_of(s, k);
            if x < i {
                assert(t[x] == s[x]);
            } else {
                assert(t[x + 1] == s[x]);
            }
        }
        lemma_entry_at(t, i);
    }
    assert forall|k: K| mt.dom().contains(k) implies #[trigger] mt[k] == want[k] by {
        let x = index_of(t, k);
        lemma_entry_at(t, x);
        lemma_key_trichotomy(k, t[i].0);
        if x < i {
            assert(t[x] == s[x]);
            assert(key_lt(s[x].0, t[i].0));
            lemma_entry_at(s, x);
        } else if x > i {
            assert(t[x - 1 + 1] == s[x - 1]);
            assert(key_lt(t[i].0, s[x - 1].0));
            lemma_entry_at(s, x - 1);
        }
    }
    assert(mt =~= want);
}

/// A map from keys to lattice values, kept as a vector of entries sorted by
/// key.
#[derive(Debug, Clone, PartialEq)]
pub struct MapLattice<K, V> {
    pub inner: Vec<(K, V)>,
}

impl<K: Ord + Clone, V: SemiLattice> MapLattice<K, V> {
    /// The map with the one entry `key`, `val`.
    pub fn singleton(key: K, val: V) -> (r: Self)
        requires
            val.wf(),
        ensures
            r.wf(),
            r.model() == Map::<K, V::Model>::empty().insert(key, val.model()),
    {
        let r = MapLattice { inner: vec![(key, val)] };
        proof {
            let s = r.inner@;
            assert(s[0] == (key, val));
            assert(r.model() =~= Map::<K, V::Model>::empty().insert(key, val.model())) by {
                assert forall|k: K| has_key(s, k) <==> k == key by {
                    if k == key {
                        assert(s[0].0 == k);
                    }
                }
                assert(has_key(s, key));
                assert(index_of(s, key) == 0);
            }
        }
        r
    }

    /// Looks `key` up by bisection: `Ok` with the place of its entry, or
    /// `Err` with the place where such an entry would have to stand.
    pub fn search(&self, key: &K) -> (r: Result<usize, usize>)
        requires
            total_order::<K>(),
            sorted_entries(self.inner@),
        ensures
            match r {
                Ok(i) => i < self.inner.len() && self.inner[i as int].0 == *key,
                Err(i) => {
                    &&& i <= self.inner.len()
                    &&& !has_key(self.inner@, *key)
                    &&& forall|j: int| 0 <= j < i ==> key_lt(#[trigger] self.inner[j].0, *key)
                    &&& forall|j: int|
                        i <= j < self.inner.len() ==> key_lt(*key, #[trigger] self.inner[j].0)
                },
            },
    {
        let mut lo: usize = 0;
        let mut hi: usize = self.inner.len();
        while lo < hi
            invariant
                total_order::<K>(),
                sorted_entries(self.inner@),
                lo <= hi <= self.inner.len(),
                forall|j: int| 0 <= j < lo ==> key_lt(#[trigger] self.inner[j].0, *key),
                forall|j: int| hi <= j < self.inner.len() ==> key_lt(*key, #[trigger] self.inner[j].0),
            decreases hi - lo,
        {
            let mid = lo + (hi - lo) / 2;
            match key_order(&self.inner[mid].0, key) {
                Order::Equal => {
                    return Ok(mid);
                },
                Order::Less => {
                    proof {
                        assert forall|j: int| 0 <= j < mid + 1 implies key_lt(
                            #[trigger] self.inner[j].0,
                            *key,
                        ) by {
                            if j < mid {
                                lemma_key_lt_transitive(
                                    self.inner[j].0,
                                    self.inner[mid as int].0,
                                    *key,
                                );
                            }
                        }
                    }
                    lo = mid + 1;
                },
                Order::Greater => {
                    proof {
                        assert forall|j: int| mid <= j < self.inner.len() implies key_lt(
                            *key,
                            #[trigger] self.inner[j].0,
                        ) by {
                            if mid < j {
                                lemma_key_lt_transitive(
                                    *key,
                                    self.inner[mid as int].0,
                                    self.inner[j].0,
                                );
                            }
                        }
                    }
                    hi = mid;
                },
            }
        }
        proof {
            if has_key(self.inner@, *key) {
                let j = index_of(self.inner@, *key);
                lemma_key_trichotomy(self.inner[j].0, *key);
                if j < lo {
                    assert(key_lt(self.inner[j].0, *key));
                } else {
                    assert(key_lt(*key, self.inner[j].0));
                }
            }
        }
        Err(lo)
    }

    /// Puts `val` at `key`; where the key has a value already, `val` is
    /// joined to it.
    pub fn insert(&mut self, key: K, val: V)
        requires
            total_order::<K>(),
            V::lawful(),
            old(self).wf(),
            val.wf(),
        ensures
            final(self).wf(),
            final(self).model() == absorb::<K, V>(old(self).model(), key, val.model()),
    {
        let ghost before = self.inner@;
        match self.search(&key) {
            Ok(i) => {
                proof {
                    lemma_entry_at(before, i as int);
                }
                self.inner[i].1.join_assign(val);
                proof {
                    lemma_entry_changed(before, self.inner@, i as int);
                }
            },
            Err(i) => {
                self.inner.insert(i, (key, val));
                proof {
                    lemma_entry_added(before, self.inner@, i as int);
                }
            },
        }
    }

    /// The map that the entries build up, taken in one after the other.
    pub fn from_entries(entries: Vec<(K, V)>) -> (r: Self)
        requires
            total_order::<K>(),
            V::lawful(),
            values_wf(entries@),
        ensures
            r.wf(),
            r.model() == collect(entries@),
    {
        let ghost all = entries@;
        let mut r = MapLattice { inner: Vec::new() };
        assert(r.model() =~= Map::<K, V::Model>::empty());
        assert(all.take(0) =~= Seq::<(K, V)>::empty());
        for entry in it: entries
            invariant
                total_order::<K>(),
                V::lawful(),
                it.seq() == all,
                values_wf(all),
                r.wf(),
                r.model() == collect(all.take(it.index() as int)),
        {
            proof {
                let n = it.index() as int;
                assert(all.take(n + 1).drop_last() =~= all.take(n));
                assert(all.take(n + 1).last() == all[n]);
                assert(all[n].1.wf());
            }
            let (k, v) = entry;
            r.insert(k, v);
        }
        assert(all.take(all.len() as int) =~= all);
        r
    }

    /// The value at `key`, to be changed in place; a key that the map lacks
    /// enters it with the bottom element first.
    pub fn entry_mut(&mut self, key: &K) -> (r: &mut V)
        requires
            total_order::<K>(),
            old(self).wf(),
        ensures
            r.wf(),
            r.model() == if old(self).model().dom().contains(*key) {
                old(self).model()[*key]
            } else {
                V::bottom_model()
            },
            final(r).wf() ==> final(self).wf() && final(self).model() == old(self).model().insert(
                *key,
                final(r).model(),
            ),
    {
        let ghost before = self.inner@;
        let i = match self.search(key) {
            Ok(i) => {
                proof {
                    lemma_entry_at(before, i as int);
                }
                i
            },
            Err(i) => {
                self.inner.insert(i, (key_copy(key), V::bottom()));
                proof {
                    lemma_entry_added(before, self.inner@, i as int);
                }
                i
            },
        };
        let ghost mid = self.inner@;
        proof {
            lemma_entry_at(mid, i as int);
        }
        proof {
            assert forall|v: V| #![trigger mid.update(i as int, (mid[i as int].0, v))] {
                let t = mid.update(i as int, (mid[i as int].0, v));
                &&& sorted_entries(t)
                &&& v.wf() ==> values_wf(t)
                &&& entries_model(t) == old(self).model().insert(*key, v.model())
            } by {
                let t = mid.update(i as int, (mid[i as int].0, v));
                lemma_entry_changed(mid, t, i as int);
                assert(entries_model(t) =~= old(self).model().insert(*key, v.model()));
            }
        }
        &mut self.inner[i].1
    }

    /// The value that stands at `key`, if any.
    pub fn entry(&self, key: &K) -> (r: Option<&V>)
        requires
            total_order::<K>(),
            self.wf(),
        ensures
            r is Some <==> self.model().dom().contains(*key),
            r matches Some(v) ==> v.wf() && v.model() == self.model()[*key],
    {
        match self.search(key) {
            Ok(i) => {
                proof {
                    lemma_entry_at(self.inner@, i as int);
                }
                Some(&self.inner[i].1)
            },
            Err(_) => None,
        }
    }
}

/// The default value is the bottom element.
impl<K: Ord + Clone, V: SemiLattice> Default for MapLattice<K, V> {
    fn default() -> (r: Self)
        ensures
            r.wf(),
            r.model() == <Self as SemiLattice>::bottom_model(),
    {
        <Self as SemiLattice>::bottom()
    }
}

impl<K: Ord + Clone, V: SemiLattice> SemiLattice for MapLattice<K, V> {
    type Model = Map<K, V::Model>;

    open spec fn model(&self) -> Map<K, V::Model> {
        entries_model(self.inner@)
    }

    open spec fn wf(&self) -> bool {
        sorted_entries(self.inner@) && values_wf(self.inner@)
    }

    open spec fn lawful() -> bool {
        total_order::<K>() && V::lawful()
    }

    open spec fn valid(m: Map<K, V::Model>) -> bool {
        map_valid::<K, V>(m)
    }

    open spec fn bottom_model() -> Map<K, V::Model> {
        Map::empty()
    }

    open spec fn leq(a: Map<K, V::Model>, b: Map<K, V::Model>) -> bool {
        map_leq::<K, V>(a, b)
    }

    open spec fn lub(a: Map<K, V::Model>, b: Map<K, V::Model>) -> Map<K, V::Model> {
        map_lub::<K, V>(a, b)
    }

    open spec fn associative() -> bool {
        V::associative()
    }

    proof fn lemma_wf_valid(v: Self) {
        lemma_entries_valid(v.inner@);
        assert(Self::valid(v.model()) == map_valid::<K, V>(v.model()));
    }

    proof fn lemma_bottom_valid() {
    }

    proof fn lemma_lub_valid(a: Map<K, V::Model>, b: Map<K, V::Model>) {
        lemma_map_lub_valid::<K, V>(a, b);
    }

    proof fn lemma_leq_reflexive(a: Map<K, V::Model>) {
        lemma_map_leq_reflexive::<K, V>(a);
    }

    proof fn lemma_leq_antisymmetric(a: Map<K, V::Model>, b: Map<K, V::Model>) {
        lemma_map_leq_antisymmetric::<K, V>(a, b);
    }

    proof fn lemma_leq_transitive(a: Map<K, V::Model>, b: Map<K, V::Model>, c: Map<K, V::Model>) {
        lemma_map_leq_transitive::<K, V>(a, b, c);
    }

    proof fn lemma_bottom_least(a: Map<K, V::Model>) {
    }

    proof fn lemma_join_associative(
        a: Map<K, V::Model>,
        b: Map<K, V::Model>,
        c: Map<K, V::Model>,
    ) {
        lemma_map_join_associative::<K, V>(a, b, c);
    }

    proof fn lemma_join_commutative(a: Map<K, V::Model>, b: Map<K, V::Model>) {
        lemma_map_join_commutative::<K, V>(a, b);
    }

    proof fn lemma_join_idempotent(a: Map<K, V::Model>) {
        lemma_map_join_idempotent::<K, V>(a);
    }

    proof fn lemma_join_order(a: Map<K, V::Model>, b: Map<K, V::Model>) {
        lemma_map_join_order::<K, V>(a, b);
    }

    fn bottom() -> (r: Self) {
        let r = MapLattice { inner: Vec::new() };
        assert(r.model() =~= Map::<K, V::Model>::empty());
        assert(Self::bottom_model() == Map::<K, V::Model>::empty());
        r
    }

    fn compare(&self, other: &Self) -> (r: Option<Order>) {
        let ghost a = self.inner@;
        let ghost b = other.inner@;
        let ghost ma = self.model();
        let ghost mb = other.model();
        proof {
            lemma_leq_by_entries(a, mb);
            lemma_leq_by_entries(b, ma);
            assert(Self::leq(ma, mb) == map_leq::<K, V>(ma, mb));
            assert(Self::leq(mb, ma) == map_leq::<K, V>(mb, ma));
        }
        let n = self.inner.len();
        let m = other.inner.len();
        let mut greater = false;
        let mut less = false;
        let mut i: usize = 0;
        let mut j: usize = 0;
        while i < n && j < m
            invariant
                Self::lawful(),
                self.wf(),
                other.wf(),
                a == self.inner@,
                b == other.inner@,
                ma == entries_model(a),
                mb == entries_model(b),
                ma == self.model(),
                mb == other.model(),
                Self::leq(ma, mb) == map_leq::<K, V>(ma, mb),
                Self::leq(mb, ma) == map_leq::<K, V>(mb, ma),
                n == a.len(),
                m == b.len(),
                i <= n,
                j <= m,
                !(greater && less),
                greater <==> exists|x: int| 0 <= x < i && !entry_below(#[trigger] a[x], mb),
                less <==> exists|y: int| 0 <= y < j && !entry_below(#[trigger] b[y], ma),
                forall|x: int, y: int|
                    0 <= x < i && j <= y < m ==> key_lt(#[trigger] a[x].0, #[trigger] b[y].0),
                forall|x: int, y: int|
                    i <= x < n && 0 <= y < j ==> key_lt(#[trigger] b[y].0, #[trigger] a[x].0),
                map_leq::<K, V>(ma, mb) <==> forall|x: int|
                    0 <= x < a.len() ==> entry_below(#[trigger] a[x], mb),
                map_leq::<K, V>(mb, ma) <==> forall|y: int|
                    0 <= y < b.len() ==> entry_below(#[trigger] b[y], ma),
            decreases (n - i) + (m - j),
        {
            match key_order(&self.inner[i].0, &other.inner[j].0) {
                Order::Equal => {
                    proof {
                        lemma_entry_at(a, i as int);
                        lemma_entry_at(b, j as int);
                    }
                    match self.inner[i].1.compare(&other.inner[j].1) {
                        Some(Order::Equal) => {},
                        Some(Order::Less) => {
                            assert(!entry_below(b[j as int], ma));
                            if greater {
                                return None;
                            }
                            less = true;
                        },
                        Some(Order::Greater) => {
                            assert(!entry_below(a[i as int], mb));
                            if less {
                                return None;
                            }
                            greater = true;
                        },
                        None => {
                            assert(!entry_below(a[i as int], mb));
                            assert(!entry_below(b[j as int], ma));
                            return None;
                        },
                    }
                    proof {
                        lemma_compare_advance(a, b, i as int, j as int, i + 1, j + 1);
                    }
                    i += 1;
                    j += 1;
                },
                Order::Less => {
                    // `self` holds keys that `other` lacks.
                    let next = gallop(&self.inner, i, &other.inner[j].0);
                    proof {
                        lemma_key_absent(b, a[i as int].0, j as int);
                        assert(!entry_below(a[i as int], mb));
                        lemma_compare_advance(a, b, i as int, j as int, next as int, j as int);
                    }
                    if less {
                        return None;
                    }
                    greater = true;
                    i = next;
                },
                Order::Greater => {
                    // `other` holds keys that `self` lacks.
                    let next = gallop(&other.inner, j, &self.inner[i].0);
                    proof {
                        lemma_key_absent(a, b[j as int].0, i as int);
                        assert(!entry_below(b[j as int], ma));
                        lemma_compare_advance(a, b, i as int, j as int, i as int, next as int);
                    }
                    if greater {
                        return None;
                    }
                    less = true;
                    j = next;
                },
            }
        }
        if i < n {
            proof {
                lemma_key_absent(b, a[i as int].0, j as int);
                assert(!entry_below(a[i as int], mb));
            }
            if less {
                return None;
            }
            greater = true;
        }
        if j < m {
            proof {
                lemma_key_absent(a, b[j as int].0, i as int);
                assert(!entry_below(b[j as int], ma));
            }
            if greater {
                return None;
            }
            less = true;
        }
        proof {
            if !greater {
                assert forall|x: int| 0 <= x < a.len() implies entry_below(#[trigger] a[x], mb) by {
                    if x >= i {
                        assert(i == n);
                    }
                }
            }
            if !less {
                assert forall|y: int| 0 <= y < b.len() implies entry_below(#[trigger] b[y], ma) by {
                    if y >= j {
                        assert(j == m);
                    }
                }
            }
        }
        if greater {
            Some(Order::Greater)
        } else if less {
            Some(Order::Less)
        } else {
            Some(Order::Equal)
        }
    }

    fn join(self, other: Self) -> (r: Self) {
        proof {
            let ma = self.model();
            let mb = other.model();
            lemma_entries_valid(self.inner@);
            lemma_entries_valid(other.inner@);
            lemma_map_join_order::<K, V>(ma, mb);
            assert(Self::leq(ma, mb) == map_leq::<K, V>(ma, mb));
            assert(Self::leq(mb, ma) == map_leq::<K, V>(mb, ma));
            assert(Self::lub(ma, mb) == map_lub::<K, V>(ma, mb));
        }
        match self.compare(&other) {
            Some(Order::Greater) | Some(Order::Equal) => self,
            Some(Order::Less) => other,
            None => MapLattice { inner: merge_entries(self.inner, other.inner) },
        }
    }

    fn replicate(&self) -> (r: Self) {
        let mut inner: Vec<(K, V)> = Vec::new();
        let mut i: usize = 0;
        while i < self.inner.len()
            invariant
                Self::lawful(),
                self.wf(),
                i <= self.inner.len(),
                inner.len() == i,
                forall|x: int|
                    0 <= x < i ==> (#[trigger] inner[x]).0 == self.inner[x].0 && inner[x].1.wf()
                        && inner[x].1.model() == self.inner[x].1.model(),
            decreases self.inner.len() - i,
        {
            let k = key_copy(&self.inner[i].0);
            let v = self.inner[i].1.replicate();
            inner.push((k, v));
            i += 1;
        }
        let r = MapLattice { inner };
        proof {
            lemma_same_entries(self.inner@, r.inner@);
        }
        r
    }
}

} // verus!
