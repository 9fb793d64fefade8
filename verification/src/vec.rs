use crate::lattice::{
    all_at_least, all_at_most, lemma_join_absorbs, lemma_join_upper_bound, order_of,
    partial_ord_helper, Order, SemiLattice,
};
use crate::pair::lemma_two_orders;
use vstd::prelude::*;

verus! {

/// Every element of the sequence is an element of the lattice.
pub open spec fn seq_valid<T: SemiLattice>(s: Seq<T::Model>) -> bool {
    forall|i: int| 0 <= i < s.len() ==> T::valid(#[trigger] s[i])
}

/// `a` is below `b`: it is no longer, and place by place no greater.
pub open spec fn seq_leq<T: SemiLattice>(a: Seq<T::Model>, b: Seq<T::Model>) -> bool {
    &&& a.len() <= b.len()
    &&& forall|i: int| 0 <= i < a.len() ==> T::leq(#[trigger] a[i], b[i])
}

/// The join of two sequences at a place that one of them has.
pub open spec fn seq_lub_at<T: SemiLattice>(a: Seq<T::Model>, b: Seq<T::Model>, i: int) -> T::Model {
    if i < a.len() {
        if i < b.len() {
            T::lub(a[i], b[i])
        } else {
            a[i]
        }
    } else {
        b[i]
    }
}

/// The join of two sequences: the places that both have are joined, and the
/// rest of the longer one is kept as it is.
pub open spec fn seq_lub<T: SemiLattice>(a: Seq<T::Model>, b: Seq<T::Model>) -> Seq<T::Model> {
    Seq::new(
        if a.len() >= b.len() {
            a.len()
        } else {
            b.len()
        },
        |i: int| seq_lub_at::<T>(a, b, i),
    )
}

/// The sequence `s`, made at least `n` long with bottom elements.
pub open spec fn padded<T: SemiLattice>(s: Seq<T::Model>, n: nat) -> Seq<T::Model> {
    if s.len() >= n {
        s
    } else {
        s + Seq::new((n - s.len()) as nat, |i: int| T::bottom_model())
    }
}

/// A sequence of lattice values with positional join.
#[derive(Debug, Clone, PartialEq)]
pub struct VecLattice<T> {
    pub inner: Vec<T>,
}

/// The models of the values of a vector lattice.
pub open spec fn seq_models<T: SemiLattice>(s: Seq<T>) -> Seq<T::Model> {
    Seq::new(s.len(), |i: int| s[i].model())
}

/// Every value is well-formed.
pub open spec fn seq_wf<T: SemiLattice>(s: Seq<T>) -> bool {
    forall|i: int| 0 <= i < s.len() ==> (#[trigger] s[i]).wf()
}

impl<T: SemiLattice> VecLattice<T> {
    /// The sequence with the one value `v`.
    pub fn singleton(v: T) -> (r: Self)
        requires
            v.wf(),
        ensures
            r.wf(),
            r.model() == seq![v.model()],
    {
        let r = VecLattice { inner: vec![v] };
        assert(r.model() =~= seq![v.model()]);
        r
    }

    /// Puts `v` at the end.
    pub fn push(&mut self, v: T)
        requires
            old(self).wf(),
            v.wf(),
        ensures
            final(self).wf(),
            final(self).model() == old(self).model().push(v.model()),
    {
        self.inner.push(v);
        assert(self.model() =~= old(self).model().push(v.model()));
    }

    /// The value at the place `key`, if the sequence is that long.
    pub fn entry(&self, key: u64) -> (r: Option<&T>)
        requires
            self.wf(),
        ensures
            r is Some <==> key < self.model().len(),
            r matches Some(v) ==> v.wf() && v.model() == self.model()[key as int],
    {
        if key < self.inner.len() as u64 {
            Some(&self.inner[key as usize])
        } else {
            None
        }
    }

    /// The value at the place `key`, to be changed in place; a sequence that
    /// is too short grows to that place with bottom elements first.
    pub fn entry_mut(&mut self, key: u64) -> (r: &mut T)
        requires
            old(self).wf(),
            key < usize::MAX,
        ensures
            r.wf(),
            r.model() == padded::<T>(old(self).model(), (key + 1) as nat)[key as int],
            final(r).wf() ==> final(self).wf(),
            final(self).model() == padded::<T>(old(self).model(), (key + 1) as nat).update(
                key as int,
                final(r).model(),
            ),
    {
        let ghost before = self.model();
        while self.inner.len() as u64 <= key
            invariant
                self.wf(),
                key < usize::MAX,
                before.len() <= self.inner@.len(),
                self.inner@.len() <= before.len() || self.inner@.len() <= key + 1,
                self.model() == padded::<T>(before, self.inner@.len() as nat),
            decreases key + 1 - self.inner.len(),
        {
            let ghost was = self.model();
            self.inner.push(T::bottom());
            assert(self.model() =~= was.push(T::bottom_model()));
            assert(self.model() =~= padded::<T>(before, self.inner@.len() as nat));
        }
        let ghost mid = self.inner@;
        let i = key as usize;
        proof {
            assert(self.model() =~= padded::<T>(before, (key + 1) as nat));
            assert forall|v: T| #![trigger mid.update(i as int, v)] {
                let t = mid.update(i as int, v);
                &&& v.wf() ==> seq_wf(t)
                &&& seq_models(t) == padded::<T>(before, (key + 1) as nat).update(
                    key as int,
                    v.model(),
                )
            } by {
                let t = mid.update(i as int, v);
                assert(seq_models(t) =~= seq_models(mid).update(key as int, v.model()));
            }
        }
        &mut self.inner[i]
    }
}

/// The sequence lattice orders as its model does, in the terms of the
/// comparison of lengths and the comparison place by place.
proof fn lemma_seq_order<T: SemiLattice>(a: Seq<T::Model>, b: Seq<T::Model>, places: Seq<Option<Order>>)
    requires
        places.len() == if a.len() <= b.len() {
            a.len()
        } else {
            b.len()
        },
        forall|i: int|
            0 <= i < places.len() ==> #[trigger] places[i] == order_of(
                T::leq(a[i], b[i]),
                T::leq(b[i], a[i]),
            ),
    ensures
        order_of(
            a.len() <= b.len() && all_at_most(places),
            b.len() <= a.len() && all_at_least(places),
        ) == order_of(seq_leq::<T>(a, b), seq_leq::<T>(b, a)),
{
    if a.len() <= b.len() {
        if all_at_most(places) {
            assert forall|i: int| 0 <= i < a.len() implies T::leq(#[trigger] a[i], b[i]) by {
                assert(places[i] == Some(Order::Less) || places[i] == Some(Order::Equal));
            }
        }
        if seq_leq::<T>(a, b) {
            assert forall|i: int| 0 <= i < places.len() implies (#[trigger] places[i] == Some(
                Order::Less,
            ) || places[i] == Some(Order::Equal)) by {
                assert(T::leq(a[i], b[i]));
            }
        }
    }
    if b.len() <= a.len() {
        if all_at_least(places) {
            assert forall|i: int| 0 <= i < b.len() implies T::leq(#[trigger] b[i], a[i]) by {
                assert(places[i] == Some(Order::Greater) || places[i] == Some(Order::Equal));
            }
        }
        if seq_leq::<T>(b, a) {
            assert forall|i: int| 0 <= i < places.len() implies (#[trigger] places[i] == Some(
                Order::Greater,
            ) || places[i] == Some(Order::Equal)) by {
                assert(T::leq(b[i], a[i]));
            }
        }
    }
}

/// The default value is the bottom element.
impl<T: SemiLattice> Default for VecLattice<T> {
    fn default() -> (r: Self)
        ensures
            r.wf(),
            r.model() == <Self as SemiLattice>::bottom_model(),
    {
        <Self as SemiLattice>::bottom()
    }
}

impl<T: SemiLattice> SemiLattice for VecLattice<T> {
    type Model = Seq<T::Model>;

    open spec fn model(&self) -> Seq<T::Model> {
        seq_models(self.inner@)
    }

    open spec fn wf(&self) -> bool {
        seq_wf(self.inner@)
    }

    open spec fn lawful() -> bool {
        T::lawful()
    }

    open spec fn valid(m: Seq<T::Model>) -> bool {
        seq_valid::<T>(m)
    }

    open spec fn bottom_model() -> Seq<T::Model> {
        Seq::empty()
    }

    open spec fn leq(a: Seq<T::Model>, b: Seq<T::Model>) -> bool {
        seq_leq::<T>(a, b)
    }

    open spec fn lub(a: Seq<T::Model>, b: Seq<T::Model>) -> Seq<T::Model> {
        seq_lub::<T>(a, b)
    }

    open spec fn associative() -> bool {
        T::associative()
    }

    proof fn lemma_wf_valid(v: Self) {
        assert forall|i: int| 0 <= i < v.model().len() implies T::valid(#[trigger] v.model()[i]) by {
            T::lemma_wf_valid(v.inner@[i]);
        }
        assert(Self::valid(v.model()) == seq_valid::<T>(v.model()));
    }

    proof fn lemma_bottom_valid() {
    }

    proof fn lemma_lub_valid(a: Seq<T::Model>, b: Seq<T::Model>) {
        let m = seq_lub::<T>(a, b);
        assert forall|i: int| 0 <= i < m.len() implies T::valid(#[trigger] m[i]) by {
            if i < a.len() && i < b.len() {
                T::lemma_lub_valid(a[i], b[i]);
            }
        }
    }

    proof fn lemma_leq_reflexive(a: Seq<T::Model>) {
        assert forall|i: int| 0 <= i < a.len() implies T::leq(#[trigger] a[i], a[i]) by {
            T::lemma_leq_reflexive(a[i]);
        }
    }

    proof fn lemma_leq_antisymmetric(a: Seq<T::Model>, b: Seq<T::Model>) {
        assert forall|i: int| 0 <= i < a.len() implies #[trigger] a[i] == b[i] by {
            T::lemma_leq_antisymmetric(a[i], b[i]);
        }
        assert(a =~= b);
    }

    proof fn lemma_leq_transitive(a: Seq<T::Model>, b: Seq<T::Model>, c: Seq<T::Model>) {
        assert forall|i: int| 0 <= i < a.len() implies T::leq(#[trigger] a[i], c[i]) by {
            T::lemma_leq_transitive(a[i], b[i], c[i]);
        }
    }

    proof fn lemma_bottom_least(a: Seq<T::Model>) {
    }

    proof fn lemma_join_associative(a: Seq<T::Model>, b: Seq<T::Model>, c: Seq<T::Model>) {
        let l = seq_lub::<T>(seq_lub::<T>(a, b), c);
        let r = seq_lub::<T>(a, seq_lub::<T>(b, c));
        assert forall|i: int| 0 <= i < l.len() implies #[trigger] l[i] == r[i] by {
            if i < a.len() && i < b.len() && i < c.len() {
                T::lemma_join_associative(a[i], b[i], c[i]);
            }
        }
        assert(l =~= r);
    }

    proof fn lemma_join_commutative(a: Seq<T::Model>, b: Seq<T::Model>) {
        let l = seq_lub::<T>(a, b);
        let r = seq_lub::<T>(b, a);
        assert forall|i: int| 0 <= i < l.len() implies #[trigger] l[i] == r[i] by {
            if i < a.len() && i < b.len() {
                T::lemma_join_commutative(a[i], b[i]);
            }
        }
        assert(l =~= r);
    }

    proof fn lemma_join_idempotent(a: Seq<T::Model>) {
        let l = seq_lub::<T>(a, a);
        assert forall|i: int| 0 <= i < l.len() implies #[trigger] l[i] == a[i] by {
            T::lemma_join_idempotent(a[i]);
        }
        assert(l =~= a);
    }

    proof fn lemma_join_order(a: Seq<T::Model>, b: Seq<T::Model>) {
        assert(Self::valid(a) == seq_valid::<T>(a));
        assert(Self::valid(b) == seq_valid::<T>(b));
        assert(Self::lub(a, b) == seq_lub::<T>(a, b));
        assert(Self::leq(a, b) == seq_leq::<T>(a, b));
        assert(Self::leq(b, a) == seq_leq::<T>(b, a));
        assert(Self::leq(a, seq_lub::<T>(a, b)) == seq_leq::<T>(a, seq_lub::<T>(a, b)));
        assert(Self::leq(b, seq_lub::<T>(a, b)) == seq_leq::<T>(b, seq_lub::<T>(a, b)));
        assert(Self::leq(seq_lub::<T>(a, b), a) == seq_leq::<T>(seq_lub::<T>(a, b), a));
        assert(Self::leq(seq_lub::<T>(a, b), b) == seq_leq::<T>(seq_lub::<T>(a, b), b));
        lemma_seq_join_absorbs::<T>(a, b);
        lemma_seq_join_absorbs::<T>(b, a);
        Self::lemma_join_commutative(a, b);
        let m = seq_lub::<T>(a, b);
        assert forall|i: int| 0 <= i < a.len() implies T::leq(#[trigger] a[i], m[i]) by {
            if i < b.len() {
                lemma_join_upper_bound::<T>(a[i], b[i]);
            } else {
                T::lemma_leq_reflexive(a[i]);
            }
        }
        assert forall|i: int| 0 <= i < b.len() implies T::leq(#[trigger] b[i], m[i]) by {
            if i < a.len() {
                lemma_join_upper_bound::<T>(a[i], b[i]);
            } else {
                T::lemma_leq_reflexive(b[i]);
            }
        }
    }

    fn bottom() -> (r: Self) {
        let r = VecLattice { inner: Vec::new() };
        assert(Self::bottom_model() == Seq::<T::Model>::empty());
        assert(r.model() =~= Seq::<T::Model>::empty());
        r
    }

    fn compare(&self, other: &Self) -> (r: Option<Order>) {
        let n = self.inner.len();
        let m = other.inner.len();
        let shared = if n <= m {
            n
        } else {
            m
        };
        let mut places: Vec<Option<Order>> = Vec::new();
        let mut i: usize = 0;
        while i < shared
            invariant
                Self::lawful(),
                self.wf(),
                other.wf(),
                shared <= self.inner.len(),
                shared <= other.inner.len(),
                i <= shared,
                places@.len() == i,
                forall|x: int|
                    0 <= x < i ==> #[trigger] places@[x] == order_of(
                        T::leq(self.model()[x], other.model()[x]),
                        T::leq(other.model()[x], self.model()[x]),
                    ),
            decreases shared - i,
        {
            places.push(self.inner[i].compare(&other.inner[i]));
            i += 1;
        }
        let by_place = partial_ord_helper(places.as_slice());
        let by_length = if n < m {
            Some(Order::Less)
        } else if n > m {
            Some(Order::Greater)
        } else {
            Some(Order::Equal)
        };
        let both = vec![by_length, by_place];
        proof {
            lemma_seq_order::<T>(self.model(), other.model(), places@);
            lemma_two_orders(n <= m, m <= n, all_at_most(places@), all_at_least(places@));
            assert(both@ =~= seq![
                order_of(n <= m, m <= n),
                order_of(all_at_most(places@), all_at_least(places@)),
            ]);
            assert(Self::leq(self.model(), other.model()) == seq_leq::<T>(
                self.model(),
                other.model(),
            ));
            assert(Self::leq(other.model(), self.model()) == seq_leq::<T>(
                other.model(),
                self.model(),
            ));
        }
        partial_ord_helper(both.as_slice())
    }

    fn join(self, other: Self) -> (r: Self) {
        proof {
            let a = self.model();
            let b = other.model();
            Self::lemma_wf_valid(self);
            Self::lemma_wf_valid(other);
            assert(Self::valid(a) == seq_valid::<T>(a));
            assert(Self::valid(b) == seq_valid::<T>(b));
            Self::lemma_join_order(a, b);
            assert(Self::leq(a, b) == seq_leq::<T>(a, b));
            assert(Self::leq(b, a) == seq_leq::<T>(b, a));
            assert(Self::lub(a, b) == seq_lub::<T>(a, b));
        }
        match self.compare(&other) {
            Some(Order::Greater) | Some(Order::Equal) => self,
            Some(Order::Less) => other,
            None => VecLattice { inner: join_places(self.inner, other.inner) },
        }
    }

    fn replicate(&self) -> (r: Self) {
        let mut inner: Vec<T> = Vec::new();
        let mut i: usize = 0;
        while i < self.inner.len()
            invariant
                Self::lawful(),
                self.wf(),
                i <= self.inner.len(),
                inner@.len() == i,
                forall|x: int|
                    0 <= x < i ==> (#[trigger] inner@[x]).wf() && inner@[x].model()
                        == self.inner@[x].model(),
            decreases self.inner.len() - i,
        {
            inner.push(self.inner[i].replicate());
            i += 1;
        }
        let r = VecLattice { inner };
        assert(r.model() =~= self.model());
        r
    }
}

/// The join of two sequences is the first one exactly when the second lies
/// below the first.
proof fn lemma_seq_join_absorbs<T: SemiLattice>(a: Seq<T::Model>, b: Seq<T::Model>)
    requires
        seq_valid::<T>(a),
        seq_valid::<T>(b),
    ensures
        seq_leq::<T>(b, a) ==> seq_lub::<T>(a, b) == a,
        seq_leq::<T>(seq_lub::<T>(a, b), a) ==> seq_leq::<T>(b, a),
{
    let m = seq_lub::<T>(a, b);
    if seq_leq::<T>(b, a) {
        assert forall|i: int| 0 <= i < m.len() implies #[trigger] m[i] == a[i] by {
            if i < b.len() {
                assert(T::leq(b[i], a[i]));
                T::lemma_join_order(a[i], b[i]);
            }
        }
        assert(m =~= a);
    }
    if seq_leq::<T>(m, a) {
        assert forall|i: int| 0 <= i < b.len() implies T::leq(#[trigger] b[i], a[i]) by {
            assert(T::leq(m[i], a[i]));
            lemma_join_absorbs::<T>(a[i], b[i]);
        }
    }
}

/// Joins two vectors place by place; the rest of the longer one is kept.
pub fn join_places<T: SemiLattice>(a: Vec<T>, b: Vec<T>) -> (r: Vec<T>)
    requires
        T::lawful(),
        seq_wf(a@),
        seq_wf(b@),
    ensures
        seq_wf(r@),
        seq_models(r@) == seq_lub::<T>(seq_models(a@), seq_models(b@)),
{
    let ghost a0 = a@;
    let ghost b0 = b@;
    let ghost want = seq_lub::<T>(seq_models(a0), seq_models(b0));
    let mut a = a;
    let mut b = b;
    // The last places leave first; `out` is turned round at the end.
    let mut out: Vec<T> = Vec::new();
    while a.len() > 0 || b.len() > 0
        invariant
            T::lawful(),
            seq_wf(a0),
            seq_wf(b0),
            want == seq_lub::<T>(seq_models(a0), seq_models(b0)),
            a@ == a0.take(a@.len() as int),
            b@ == b0.take(b@.len() as int),
            a@.len() <= a0.len(),
            b@.len() <= b0.len(),
            a@.len() == a0.len() || b@.len() == b0.len() || a@.len() == b@.len(),
            a@.len() < a0.len() ==> a@.len() >= b@.len(),
            b@.len() < b0.len() ==> b@.len() >= a@.len(),
            out@.len() + (if a@.len() >= b@.len() {
                a@.len()
            } else {
                b@.len()
            }) == want.len(),
            forall|p: int|
                0 <= p < out@.len() ==> (#[trigger] out@[p]).wf() && out@[p].model()
                    == want[want.len() - 1 - p],
        decreases a.len() + b.len(),
    {
        let ghost place = want.len() - 1 - out@.len();
        if a.len() > b.len() {
            let v = a.pop().unwrap();
            assert(v == a0[place]);
            out.push(v);
        } else if b.len() > a.len() {
            let w = b.pop().unwrap();
            assert(w == b0[place]);
            out.push(w);
        } else {
            let v = a.pop().unwrap();
            let w = b.pop().unwrap();
            assert(v == a0[place]);
            assert(w == b0[place]);
            out.push(v.join(w));
        }
    }
    let ghost fallen = out@;
    let mut r: Vec<T> = Vec::new();
    while out.len() > 0
        invariant
            out@ == fallen.take(out@.len() as int),
            out@.len() <= fallen.len(),
            r@.len() == fallen.len() - out@.len(),
            forall|p: int| 0 <= p < r@.len() ==> #[trigger] r@[p] == fallen[fallen.len() - 1 - p],
        decreases out.len(),
    {
        let e = out.pop().unwrap();
        r.push(e);
    }
    proof {
        assert forall|p: int| 0 <= p < r@.len() implies (#[trigger] r@[p]).wf() && r@[p].model()
            == want[p] by {
            assert(fallen[fallen.len() - 1 - p].wf());
        }
        assert(seq_models(r@) =~= want);
    }
    r
}

} // verus!
