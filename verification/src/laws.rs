use crate::lattice::{fold, lub_all, lub_onto, models, Order, SemiLattice};
use vstd::prelude::*;

verus! {

/// Joining an element to the bottom element gives that element.
pub proof fn lemma_bottom_identity<S: SemiLattice>(a: S::Model)
    requires
        S::valid(a),
    ensures
        S::lub(S::bottom_model(), a) == a,
{
    S::lemma_bottom_valid();
    S::lemma_bottom_least(a);
    S::lemma_join_order(S::bottom_model(), a);
}

/// The elements that a fold starts from and runs over are elements of the
/// lattice, and so is what it gives.
pub proof fn lemma_fold_valid<S: SemiLattice>(start: S::Model, ms: Seq<S::Model>)
    requires
        S::valid(start),
        forall|i: int| 0 <= i < ms.len() ==> S::valid(#[trigger] ms[i]),
    ensures
        S::valid(lub_onto::<S>(start, ms)),
    decreases ms.len(),
{
    if ms.len() > 0 {
        lemma_fold_valid::<S>(start, ms.drop_last());
        S::lemma_lub_valid(lub_onto::<S>(start, ms.drop_last()), ms.last());
    }
}

/// A fold lies above the element that it starts from and above each element
/// that it runs over: joining never lowers a value.
pub proof fn lemma_fold_upper_bound<S: SemiLattice>(start: S::Model, ms: Seq<S::Model>)
    requires
        S::valid(start),
        forall|i: int| 0 <= i < ms.len() ==> S::valid(#[trigger] ms[i]),
    ensures
        S::leq(start, lub_onto::<S>(start, ms)),
        forall|i: int| 0 <= i < ms.len() ==> S::leq(#[trigger] ms[i], lub_onto::<S>(start, ms)),
    decreases ms.len(),
{
    if ms.len() == 0 {
        S::lemma_leq_reflexive(start);
    } else {
        let front = ms.drop_last();
        let before = lub_onto::<S>(start, front);
        let all = lub_onto::<S>(start, ms);
        lemma_fold_upper_bound::<S>(start, front);
        lemma_fold_valid::<S>(start, front);
        lemma_fold_valid::<S>(start, ms);
        crate::lattice::lemma_join_upper_bound::<S>(before, ms.last());
        S::lemma_leq_transitive(start, before, all);
        assert forall|i: int| 0 <= i < ms.len() implies S::leq(#[trigger] ms[i], all) by {
            if i < front.len() {
                assert(front[i] == ms[i]);
                S::lemma_leq_transitive(ms[i], before, all);
            }
        }
    }
}

/// The fold of two elements is their join.
pub proof fn lemma_fold_of_two<S: SemiLattice>(a: S::Model, b: S::Model)
    requires
        S::valid(a),
        S::valid(b),
    ensures
        lub_all::<S>(seq![a, b]) == S::lub(a, b),
{
    let s = seq![a, b];
    assert(s.drop_last() =~= seq![a]);
    assert(seq![a].drop_last() =~= Seq::<S::Model>::empty());
    assert(s.last() == b);
    assert(seq![a].last() == a);
    assert(lub_onto::<S>(S::bottom_model(), seq![a]) == S::lub(
        lub_onto::<S>(S::bottom_model(), Seq::<S::Model>::empty()),
        a,
    ));
    lemma_bottom_identity::<S>(a);
}

/// The join of two values, by way of `fold`.
pub fn fold_pair<S: SemiLattice>(a: &S, b: &S) -> (r: S)
    requires
        S::lawful(),
        a.wf(),
        b.wf(),
    ensures
        r.wf(),
        r.model() == S::lub(a.model(), b.model()),
{
    let items = vec![a.replicate(), b.replicate()];
    proof {
        S::lemma_wf_valid(*a);
        S::lemma_wf_valid(*b);
        lemma_fold_of_two::<S>(a.model(), b.model());
        assert(models(items@) =~= seq![a.model(), b.model()]);
    }
    fold(items)
}

/// Whether two values stand for the same element.
pub fn same_element<S: SemiLattice>(a: &S, b: &S) -> (r: bool)
    requires
        S::lawful(),
        a.wf(),
        b.wf(),
    ensures
        r == (a.model() == b.model()),
{
    proof {
        S::lemma_wf_valid(*a);
        S::lemma_wf_valid(*b);
        S::lemma_leq_reflexive(a.model());
        if S::leq(a.model(), b.model()) && S::leq(b.model(), a.model()) {
            S::lemma_leq_antisymmetric(a.model(), b.model());
        }
    }
    match a.compare(b) {
        Some(Order::Equal) => true,
        _ => false,
    }
}

/// Joins of the three elements associate.
pub open spec fn associates<S: SemiLattice>(a: S::Model, b: S::Model, c: S::Model) -> bool {
    S::lub(S::lub(a, b), c) == S::lub(a, S::lub(b, c))
}

/// Joins associate on the first `n` samples as first operand, with every
/// sample as second and third.
pub open spec fn associates_upto<S: SemiLattice>(samples: Seq<S>, n: int) -> bool {
    forall|i: int, j: int, k: int|
        0 <= i < n && 0 <= j < samples.len() && 0 <= k < samples.len() ==> #[trigger] associates::<S>(
            samples[i].model(),
            samples[j].model(),
            samples[k].model(),
        )
}

/// Checks the lattice laws on the samples by running the operations: the
/// bottom element is below each sample; joins are associative, commutative
/// and idempotent; and join agrees with the order. The result says whether
/// every check came out.
///
/// All of these but associativity are proved of every lattice, so the check
/// comes out exactly when joins associate on the samples.
pub fn partially_verify_semilattice_laws<S: SemiLattice>(samples: &Vec<S>) -> (ok: bool)
    requires
        S::lawful(),
        forall|i: int| 0 <= i < samples.len() ==> (#[trigger] samples[i]).wf(),
    ensures
        ok == associates_upto::<S>(samples@, samples@.len() as int),
        S::associative() ==> ok,
{
    let bottom = S::bottom();
    let mut ok = true;
    let n = samples.len();
    let mut i: usize = 0;
    while i < n
        invariant
            S::lawful(),
            n == samples.len(),
            forall|x: int| 0 <= x < samples.len() ==> (#[trigger] samples[x]).wf(),
            bottom.wf(),
            bottom.model() == S::bottom_model(),
            i <= n,
            ok == associates_upto::<S>(samples@, i as int),
        decreases n - i,
    {
        let a = &samples[i];
        proof {
            S::lemma_wf_valid(*a);
            S::lemma_bottom_least(a.model());
            S::lemma_join_idempotent(a.model());
        }
        // The bottom element is below every sample.
        match bottom.compare(a) {
            Some(Order::Less) | Some(Order::Equal) => {},
            _ => {
                ok = false;
            },
        }
        let mut row = true;
        let mut j: usize = 0;
        while j < n
            invariant
                S::lawful(),
                n == samples.len(),
                forall|x: int| 0 <= x < samples.len() ==> (#[trigger] samples[x]).wf(),
                i < n,
                *a == samples[i as int],
                j <= n,
                row == forall|y: int, k: int|
                    0 <= y < j && 0 <= k < n ==> #[trigger] associates::<S>(
                        a.model(),
                        samples[y].model(),
                        samples[k].model(),
                    ),
            decreases n - j,
        {
            let b = &samples[j];
            let ab = fold_pair(a, b);
            proof {
                S::lemma_wf_valid(*a);
                S::lemma_wf_valid(*b);
                S::lemma_join_commutative(a.model(), b.model());
                S::lemma_join_order(a.model(), b.model());
                S::lemma_lub_valid(a.model(), b.model());
                S::lemma_leq_reflexive(a.model());
                S::lemma_leq_reflexive(b.model());
                S::lemma_leq_reflexive(ab.model());
            }
            let mut cell = true;
            let mut k: usize = 0;
            while k < n
                invariant
                    S::lawful(),
                    n == samples.len(),
                    forall|x: int| 0 <= x < samples.len() ==> (#[trigger] samples[x]).wf(),
                    i < n,
                    j < n,
                    *a == samples[i as int],
                    *b == samples[j as int],
                    ab.wf(),
                    ab.model() == S::lub(a.model(), b.model()),
                    k <= n,
                    cell == forall|z: int|
                        0 <= z < k ==> #[trigger] associates::<S>(
                            a.model(),
                            b.model(),
                            samples[z].model(),
                        ),
                decreases n - k,
            {
                let c = &samples[k];
                // Associativity.
                let bc = fold_pair(b, c);
                let left = fold_pair(&ab, c);
                let right = fold_pair(a, &bc);
                let same = same_element(&left, &right);
                assert(same == associates::<S>(a.model(), b.model(), samples[k as int].model()));
                if !same {
                    cell = false;
                }
                k += 1;
            }
            if !cell {
                row = false;
            }
            // Commutativity.
            let ba = fold_pair(b, a);
            if !same_element(&ab, &ba) {
                row = false;
            }
            // Join agrees with the order.
            match a.compare(b) {
                Some(Order::Greater) | Some(Order::Equal) => {
                    if !same_element(&ab, a) {
                        row = false;
                    }
                },
                Some(Order::Less) => {
                    if !same_element(&ab, b) {
                        row = false;
                    }
                },
                None => {
                    match ab.compare(a) {
                        Some(Order::Greater) => {},
                        _ => {
                            row = false;
                        },
                    }
                    match ab.compare(b) {
                        Some(Order::Greater) => {},
                        _ => {
                            row = false;
                        },
                    }
                },
            }
            j += 1;
        }
        if !row {
            ok = false;
        }
        // Idempotence.
        let aa = fold_pair(a, a);
        if !same_element(a, &aa) {
            ok = false;
        }
        i += 1;
    }
    proof {
        if S::associative() {
            assert forall|x: int, y: int, z: int|
                0 <= x < samples.len() && 0 <= y < samples.len() && 0 <= z < samples.len()
                    implies #[trigger] associates::<S>(
                samples[x].model(),
                samples[y].model(),
                samples[z].model(),
            ) by {
                S::lemma_wf_valid(samples[x]);
                S::lemma_wf_valid(samples[y]);
                S::lemma_wf_valid(samples[z]);
                S::lemma_join_associative(
                    samples[x].model(),
                    samples[y].model(),
                    samples[z].model(),
                );
            }
        }
    }
    ok
}

} // verus!
