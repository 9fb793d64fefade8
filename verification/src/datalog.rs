use crate::lattice::{join_all, lub_onto, models, Order, SemiLattice};
use vstd::prelude::*;

verus! {

/// The values behind a sequence of references.
pub open spec fn deref_all<A>(refs: Seq<&A>) -> Seq<A> {
    refs.map_values(|r: &A| *r)
}

/// `func` may be called on each value of `xs` with each value of `ys`.
pub open spec fn callable_on<A, B, Y, F: Fn(&A, &B) -> Y>(func: F, xs: Seq<A>, ys: Seq<B>) -> bool {
    forall|i: int, j: int|
        0 <= i < xs.len() && 0 <= j < ys.len() ==> call_requires(
            func,
            (&#[trigger] xs[i], &#[trigger] ys[j]),
        )
}

/// `out` holds what `func` gave for `a` with each value of `ys`, in order.
pub open spec fn row<A, B, Y, F: Fn(&A, &B) -> Y>(func: F, a: A, ys: Seq<B>, out: Seq<Y>) -> bool {
    &&& out.len() == ys.len()
    &&& forall|j: int| 0 <= j < ys.len() ==> call_ensures(func, (&a, &ys[j]), #[trigger] out[j])
}

/// `out` holds what `func` gave for each value of `xs` with each value of
/// `ys`: one row for each value of `xs`, in order.
pub open spec fn cross<A, B, Y, F: Fn(&A, &B) -> Y>(
    func: F,
    xs: Seq<A>,
    ys: Seq<B>,
    out: Seq<Y>,
) -> bool
    decreases xs.len(),
{
    if xs.len() == 0 {
        out.len() == 0
    } else {
        &&& out.len() >= ys.len()
        &&& cross(func, xs.drop_last(), ys, out.take(out.len() - ys.len()))
        &&& row(func, xs.last(), ys, out.skip(out.len() - ys.len()))
    }
}

/// Calls `func` on each value of `xs` with each value of `ys`, row by row,
/// and puts the results at the end of `out`.
pub fn cross_apply<A, B, Y, F: Fn(&A, &B) -> Y>(
    xs: &Vec<&A>,
    ys: &Vec<&B>,
    func: &F,
    out: &mut Vec<Y>,
)
    requires
        callable_on(*func, deref_all(xs@), deref_all(ys@)),
    ensures
        exists|d: Seq<Y>|
            #![trigger cross(*func, deref_all(xs@), deref_all(ys@), d)]
            cross(*func, deref_all(xs@), deref_all(ys@), d) && final(out)@ == old(out)@ + d,
{
    let ghost gx = deref_all(xs@);
    let ghost gy = deref_all(ys@);
    let ghost out0 = out@;
    let ghost mut d: Seq<Y> = Seq::empty();
    let mut i: usize = 0;
    assert(out@ =~= out0 + d);
    assert(gx.take(0) =~= Seq::<A>::empty());
    while i < xs.len()
        invariant
            gx == deref_all(xs@),
            gy == deref_all(ys@),
            callable_on(*func, gx, gy),
            i <= xs.len(),
            out@ == out0 + d,
            cross(*func, gx.take(i as int), gy, d),
        decreases xs.len() - i,
    {
        let ghost mut part: Seq<Y> = Seq::empty();
        let mut j: usize = 0;
        assert(out@ =~= out0 + d + part);
        while j < ys.len()
            invariant
                gx == deref_all(xs@),
                gy == deref_all(ys@),
                callable_on(*func, gx, gy),
                i < xs.len(),
                j <= ys.len(),
                out@ == out0 + d + part,
                part.len() == j,
                forall|q: int|
                    0 <= q < j ==> call_ensures(*func, (&gx[i as int], &gy[q]), #[trigger] part[q]),
            decreases ys.len() - j,
        {
            assert(gx[i as int] == *xs@[i as int]);
            assert(gy[j as int] == *ys@[j as int]);
            let y = func(xs[i], ys[j]);
            out.push(y);
            proof {
                let before = part;
                part = part.push(y);
                assert(out@ =~= out0 + d + part);
                assert forall|q: int| 0 <= q < j + 1 implies call_ensures(
                    *func,
                    (&gx[i as int], &gy[q]),
                    #[trigger] part[q],
                ) by {
                    if q < j {
                        assert(part[q] == before[q]);
                    }
                }
            }
            j += 1;
        }
        proof {
            let next = d + part;
            let front = gx.take(i + 1);
            assert(front.drop_last() =~= gx.take(i as int));
            assert(front.last() == gx[i as int]);
            assert(next.take(next.len() - gy.len()) =~= d);
            assert(next.skip(next.len() - gy.len()) =~= part);
            assert(row(*func, gx[i as int], gy, part));
            assert(cross(*func, front, gy, next));
            d = next;
        }
        i += 1;
    }
    assert(gx.take(xs@.len() as int) =~= gx);
}

/// `out` holds what `func` gave for each value of `xs` with `b`, in order.
pub open spec fn column<A, B, Y, F: Fn(&A, &B) -> Y>(func: F, xs: Seq<A>, b: B, out: Seq<Y>) -> bool {
    &&& out.len() == xs.len()
    &&& forall|i: int| 0 <= i < xs.len() ==> call_ensures(func, (&xs[i], &b), #[trigger] out[i])
}

/// `out` holds what `func` gave for each value of `xs` with each value of
/// `ys`: one column for each value of `ys`, in order.
pub open spec fn cross_columns<A, B, Y, F: Fn(&A, &B) -> Y>(
    func: F,
    xs: Seq<A>,
    ys: Seq<B>,
    out: Seq<Y>,
) -> bool
    decreases ys.len(),
{
    if ys.len() == 0 {
        out.len() == 0
    } else {
        &&& out.len() >= xs.len()
        &&& cross_columns(func, xs, ys.drop_last(), out.take(out.len() - xs.len()))
        &&& column(func, xs, ys.last(), out.skip(out.len() - xs.len()))
    }
}

/// Calls `func` on each value of `xs` with each value of `ys`, column by
/// column, and puts the results at the end of `out`.
pub fn cross_apply_columns<A, B, Y, F: Fn(&A, &B) -> Y>(
    xs: &Vec<&A>,
    ys: &Vec<&B>,
    func: &F,
    out: &mut Vec<Y>,
)
    requires
        callable_on(*func, deref_all(xs@), deref_all(ys@)),
    ensures
        exists|d: Seq<Y>|
            #![trigger cross_columns(*func, deref_all(xs@), deref_all(ys@), d)]
            cross_columns(*func, deref_all(xs@), deref_all(ys@), d) && final(out)@ == old(out)@ + d,
{
    let ghost gx = deref_all(xs@);
    let ghost gy = deref_all(ys@);
    let ghost out0 = out@;
    let ghost mut d: Seq<Y> = Seq::empty();
    let mut j: usize = 0;
    assert(out@ =~= out0 + d);
    assert(gy.take(0) =~= Seq::<B>::empty());
    while j < ys.len()
        invariant
            gx == deref_all(xs@),
            gy == deref_all(ys@),
            callable_on(*func, gx, gy),
            j <= ys.len(),
            out@ == out0 + d,
            cross_columns(*func, gx, gy.take(j as int), d),
        decreases ys.len() - j,
    {
        let ghost mut part: Seq<Y> = Seq::empty();
        let mut i: usize = 0;
        assert(out@ =~= out0 + d + part);
        while i < xs.len()
            invariant
                gx == deref_all(xs@),
                gy == deref_all(ys@),
                callable_on(*func, gx, gy),
                j < ys.len(),
                i <= xs.len(),
                out@ == out0 + d + part,
                part.len() == i,
                forall|q: int|
                    0 <= q < i ==> call_ensures(*func, (&gx[q], &gy[j as int]), #[trigger] part[q]),
            decreases xs.len() - i,
        {
            assert(gx[i as int] == *xs@[i as int]);
            assert(gy[j as int] == *ys@[j as int]);
            let y = func(xs[i], ys[j]);
            out.push(y);
            proof {
                let before = part;
                part = part.push(y);
                assert(out@ =~= out0 + d + part);
                assert forall|q: int| 0 <= q < i + 1 implies call_ensures(
                    *func,
                    (&gx[q], &gy[j as int]),
                    #[trigger] part[q],
                ) by {
                    if q < i {
                        assert(part[q] == before[q]);
                    }
                }
            }
            i += 1;
        }
        proof {
            let next = d + part;
            let front = gy.take(j + 1);
            assert(front.drop_last() =~= gy.take(j as int));
            assert(front.last() == gy[j as int]);
            assert(next.take(next.len() - gx.len()) =~= d);
            assert(next.skip(next.len() - gx.len()) =~= part);
            assert(column(*func, gx, gy[j as int], part));
            assert(cross_columns(*func, gx, front, next));
            d = next;
        }
        j += 1;
    }
    assert(gy.take(ys@.len() as int) =~= gy);
}

/// A growing collection that takes insertions at once and reconciles them
/// later, round by round.
///
/// A value that is inserted waits in a pending partition. `restore` ends a
/// round: what was recent becomes stable, and what was pending becomes
/// recent, as far as it says anything new. Readers see the stable and the
/// recent partition only.
pub trait DeferredRestore: Sized {
    /// What the collection holds.
    type Value;

    /// The collection is as its type wants it.
    spec fn wf(&self) -> bool;

    /// What the collection needs to know of the types inside its values.
    spec fn lawful() -> bool;

    /// The values that may be inserted.
    spec fn value_wf(v: Self::Value) -> bool;

    /// The values of the stable partition, in the order in which they are
    /// handed out.
    spec fn stable_view(&self) -> Seq<Self::Value>;

    /// The values of the recent partition, in the order in which they are
    /// handed out.
    spec fn recent_view(&self) -> Seq<Self::Value>;

    /// The recent partition holds nothing that the next round would have to
    /// work on.
    spec fn settled(&self) -> bool;

    /// `after` is the collection once `val` has been staged in it.
    spec fn staged(&self, val: Self::Value, after: &Self) -> bool;

    /// `after` is the collection at the end of the round.
    spec fn restored(&self, after: &Self) -> bool;

    /// The values of the stable partition.
    fn stable(&self) -> (r: Vec<&Self::Value>)
        requires
            Self::lawful(),
            self.wf(),
        ensures
            deref_all(r@) == self.stable_view(),
            forall|i: int| 0 <= i < r@.len() ==> Self::value_wf(*(#[trigger] r@[i])),
    ;

    /// The values of the recent partition.
    fn recent(&self) -> (r: Vec<&Self::Value>)
        requires
            Self::lawful(),
            self.wf(),
        ensures
            deref_all(r@) == self.recent_view(),
            forall|i: int| 0 <= i < r@.len() ==> Self::value_wf(*(#[trigger] r@[i])),
    ;

    /// Stages a value. Readers do not see it before the next `restore`.
    fn insert(&mut self, val: Self::Value)
        requires
            Self::lawful(),
            old(self).wf(),
            Self::value_wf(val),
        ensures
            final(self).wf(),
            final(self).stable_view() == old(self).stable_view(),
            final(self).recent_view() == old(self).recent_view(),
            old(self).staged(val, final(self)),
    ;

    /// Ends a round: merges the recent partition into the stable one and
    /// promotes what is pending to recent. The result says whether another
    /// round is due.
    fn restore(&mut self) -> (changed: bool)
        requires
            Self::lawful(),
            old(self).wf(),
        ensures
            final(self).wf(),
            changed == !final(self).settled(),
            old(self).restored(final(self)),
    ;
}

/// A budget of rounds for driving collections to a fixpoint.
pub struct Iteration {
    rounds: usize,
    changed: bool,
}

/// The state of a driver: the rounds that are left, and whether the last
/// round changed anything.
pub struct DriverState {
    pub rounds: nat,
    pub changed: bool,
}

/// The state in which one call of `unfinished` leaves the driver.
pub open spec fn driver_next(s: DriverState) -> DriverState {
    let left = if s.rounds == 0 {
        0nat
    } else {
        (s.rounds - 1) as nat
    };
    DriverState { rounds: left, changed: if left > 0 {
        false
    } else {
        s.changed
    } }
}

/// What one call of `unfinished` answers in the state `s`.
pub open spec fn driver_answer(s: DriverState) -> bool {
    driver_next(s).rounds > 0 && s.changed
}

/// The state of a driver with a budget of `budget` rounds after `calls`
/// calls of `unfinished`, where every round changes something.
pub open spec fn driven(budget: nat, calls: nat) -> DriverState
    decreases calls,
{
    if calls == 0 {
        DriverState { rounds: budget, changed: true }
    } else {
        let before = driven(budget, (calls - 1) as nat);
        driver_next(DriverState { rounds: before.rounds, changed: true })
    }
}

/// A derivation that changes something in every round is stopped by the
/// budget: of the calls of `unfinished` the first `budget - 1` answer true,
/// and every later one answers false.
pub proof fn lemma_budget_ends_iteration(budget: nat, calls: nat)
    ensures
        driven(budget, calls).rounds == if calls <= budget {
            (budget - calls) as nat
        } else {
            0nat
        },
        driver_answer(DriverState { rounds: driven(budget, calls).rounds, changed: true }) == (
        calls + 1 < budget),
    decreases calls,
{
    if calls > 0 {
        lemma_budget_ends_iteration(budget, (calls - 1) as nat);
    }
}

impl Iteration {
    /// The state of the driver.
    pub closed spec fn state(&self) -> DriverState {
        DriverState { rounds: self.rounds as nat, changed: self.changed }
    }

    /// A driver that allows `rounds` calls of `unfinished`, the last of
    /// which answers false.
    pub fn new(rounds: usize) -> (r: Self)
        ensures
            r.state() == (DriverState { rounds: rounds as nat, changed: true }),
    {
        Iteration { rounds, changed: true }
    }

    /// The rounds that are left.
    pub fn rounds(&self) -> (r: usize)
        ensures
            r == self.state().rounds,
    {
        self.rounds
    }

    /// Spends one round of the budget and says whether another round is
    /// due: the budget is not used up and the last round changed something.
    pub fn unfinished(&mut self) -> (r: bool)
        ensures
            final(self).state() == driver_next(old(self).state()),
            r == driver_answer(old(self).state()),
    {
        self.rounds = if self.rounds == 0 {
            0
        } else {
            self.rounds - 1
        };
        if self.rounds > 0 {
            let changed = self.changed;
            self.changed = false;
            changed
        } else {
            false
        }
    }

    /// Takes a collection into the round. The guard hands the collection
    /// out, and `release` ends the round for it.
    pub fn guard<'a, T: DeferredRestore>(&self, inner: &'a mut T) -> (g: Guard<'a, T>)
        ensures
            *g.inner == *old(inner),
            *final(g.inner) == *final(inner),
    {
        Guard { inner }
    }
}

/// A collection that takes part in a round.
pub struct Guard<'a, T: DeferredRestore> {
    pub inner: &'a mut T,
}

impl<'a, T: DeferredRestore> Guard<'a, T> {
    /// Ends the round for the collection: restores it, and tells the driver
    /// if that changed anything.
    pub fn release(self, iteration: &mut Iteration)
        requires
            T::lawful(),
            self.inner.wf(),
        ensures
            final(self.inner).wf(),
            old(self.inner).restored(final(self.inner)),
            final(iteration).state().rounds == old(iteration).state().rounds,
            final(iteration).state().changed == (old(iteration).state().changed
                || !final(self.inner).settled()),
    {
        if self.inner.restore() {
            iteration.changed = true;
        }
    }
}

/// The model `m` lies strictly above the bottom element.
pub open spec fn above_bottom<S: SemiLattice>(m: S::Model) -> bool {
    S::leq(S::bottom_model(), m) && !S::leq(m, S::bottom_model())
}

/// The value as a sequence: empty where it is the bottom element.
pub open spec fn unless_bottom<S: SemiLattice>(v: S) -> Seq<S> {
    if above_bottom::<S>(v.model()) {
        seq![v]
    } else {
        Seq::empty()
    }
}

/// A single lattice value for incremental evaluation: what has been
/// reconciled, what the last round promoted, and what has been staged since.
#[derive(Debug)]
pub struct Simple<S> {
    pub stable: S,
    pub recent: S,
    pub pending: S,
}

/// Whether `v` lies strictly above the bottom element.
fn is_above_bottom<S: SemiLattice>(v: &S) -> (r: bool)
    requires
        S::lawful(),
        v.wf(),
    ensures
        r == above_bottom::<S>(v.model()),
{
    let bottom = S::bottom();
    match v.compare(&bottom) {
        Some(Order::Greater) => true,
        _ => false,
    }
}

/// The value behind a reference, in a vector, unless it is the bottom
/// element.
fn listed<S: SemiLattice>(v: &S) -> (r: Vec<&S>)
    requires
        S::lawful(),
        v.wf(),
    ensures
        deref_all(r@) == unless_bottom(*v),
        forall|i: int| 0 <= i < r@.len() ==> (#[trigger] r@[i]).wf(),
{
    let mut r: Vec<&S> = Vec::new();
    if is_above_bottom(v) {
        r.push(v);
        assert(deref_all(r@) =~= seq![*v]);
    } else {
        assert(deref_all(r@) =~= Seq::<S>::empty());
    }
    r
}

impl<S: SemiLattice> Simple<S> {
    /// The relation whose three partitions hold the bottom element.
    pub fn new() -> (r: Self)
        ensures
            r.wf(),
            r.stable.model() == S::bottom_model(),
            r.recent.model() == S::bottom_model(),
            r.pending.model() == S::bottom_model(),
    {
        Simple { stable: S::bottom(), recent: S::bottom(), pending: S::bottom() }
    }

    /// The relational join with `other`. `func` is called on the recent
    /// value with each stable value of `other`; then, for each recent value
    /// of `other`, on the stable and on the recent value with it. What it
    /// gives is joined into the pending value. A partition that holds the
    /// bottom element takes no part, and the stable value does not meet the
    /// stable values of `other`.
    pub fn join<T: DeferredRestore, F: Fn(&S, &T::Value) -> S>(&mut self, other: &T, func: F)
        requires
            S::lawful(),
            T::lawful(),
            old(self).wf(),
            other.wf(),
            callable_on(func, old(self).recent_view(), other.stable_view()),
            callable_on(
                func,
                old(self).stable_view() + old(self).recent_view(),
                other.recent_view(),
            ),
            forall|a: S, b: T::Value, y: S|
                a.wf() && T::value_wf(b) && call_ensures(func, (&a, &b), y) ==> y.wf(),
        ensures
            final(self).wf(),
            final(self).stable == old(self).stable,
            final(self).recent == old(self).recent,
            exists|d1: Seq<S>, d2: Seq<S>|
                {
                    &&& #[trigger] cross(func, old(self).recent_view(), other.stable_view(), d1)
                    &&& #[trigger] cross_columns(
                        func,
                        old(self).stable_view() + old(self).recent_view(),
                        other.recent_view(),
                        d2,
                    )
                    &&& final(self).pending.model() == lub_onto::<S>(
                        old(self).pending.model(),
                        models(d1 + d2),
                    )
                },
    {
        let mut derived: Vec<S> = Vec::new();
        let others_stable = other.stable();
        let others_recent = other.recent();
        let own_recent = listed(&self.recent);
        let mut own = listed(&self.stable);
        let mut more = listed(&self.recent);
        proof {
            assert(deref_all(own@ + more@) =~= deref_all(own@) + deref_all(more@));
        }
        own.append(&mut more);
        cross_apply(&own_recent, &others_stable, &func, &mut derived);
        let ghost d1 = derived@;
        cross_apply_columns(&own, &others_recent, &func, &mut derived);
        let ghost d2 = derived@.skip(d1.len() as int);
        proof {
            assert(cross(func, self.recent_view(), other.stable_view(), d1)) by {
                let d = choose|d: Seq<S>|
                    #![trigger cross(func, deref_all(own_recent@), deref_all(others_stable@), d)]
                    cross(func, deref_all(own_recent@), deref_all(others_stable@), d) && d1
                        == Seq::<S>::empty() + d;
                assert(d1 =~= d);
            }
            assert(cross_columns(
                func,
                self.stable_view() + self.recent_view(),
                other.recent_view(),
                d2,
            )) by {
                let d = choose|d: Seq<S>|
                    #![trigger cross_columns(func, deref_all(own@), deref_all(others_recent@), d)]
                    cross_columns(func, deref_all(own@), deref_all(others_recent@), d) && derived@
                        == d1 + d;
                assert(d2 =~= d);
            }
            assert(derived@ =~= d1 + d2);
            lemma_derived_wf::<S, T, F>(func, self.recent_view(), other.stable_view(), d1);
            lemma_columns_wf::<S, T, F>(
                func,
                self.stable_view() + self.recent_view(),
                other.recent_view(),
                d2,
            );
        }
        join_all(&mut self.pending, derived);
    }
}

/// What `func` derives from well-formed values, column by column, is
/// well-formed.
proof fn lemma_columns_wf<S: SemiLattice, T: DeferredRestore, F: Fn(&S, &T::Value) -> S>(
    func: F,
    xs: Seq<S>,
    ys: Seq<T::Value>,
    out: Seq<S>,
)
    requires
        cross_columns(func, xs, ys, out),
        forall|i: int| 0 <= i < xs.len() ==> (#[trigger] xs[i]).wf(),
        forall|j: int| 0 <= j < ys.len() ==> T::value_wf(#[trigger] ys[j]),
        forall|a: S, b: T::Value, y: S|
            a.wf() && T::value_wf(b) && call_ensures(func, (&a, &b), y) ==> y.wf(),
    ensures
        forall|q: int| 0 <= q < out.len() ==> (#[trigger] out[q]).wf(),
    decreases ys.len(),
{
    if ys.len() > 0 {
        let cut = out.len() - xs.len();
        lemma_columns_wf::<S, T, F>(func, xs, ys.drop_last(), out.take(cut));
        assert forall|q: int| 0 <= q < out.len() implies (#[trigger] out[q]).wf() by {
            if q < cut {
                assert(out.take(cut)[q] == out[q]);
            } else {
                assert(out.skip(cut)[q - cut] == out[q]);
                assert(call_ensures(func, (&xs[q - cut], &ys.last()), out.skip(cut)[q - cut]));
            }
        }
    }
}

/// What `func` derives from well-formed values is well-formed.
proof fn lemma_derived_wf<S: SemiLattice, T: DeferredRestore, F: Fn(&S, &T::Value) -> S>(
    func: F,
    xs: Seq<S>,
    ys: Seq<T::Value>,
    out: Seq<S>,
)
    requires
        cross(func, xs, ys, out),
        forall|i: int| 0 <= i < xs.len() ==> (#[trigger] xs[i]).wf(),
        forall|j: int| 0 <= j < ys.len() ==> T::value_wf(#[trigger] ys[j]),
        forall|a: S, b: T::Value, y: S|
            a.wf() && T::value_wf(b) && call_ensures(func, (&a, &b), y) ==> y.wf(),
    ensures
        forall|q: int| 0 <= q < out.len() ==> (#[trigger] out[q]).wf(),
    decreases xs.len(),
{
    if xs.len() > 0 {
        let cut = out.len() - ys.len();
        lemma_derived_wf::<S, T, F>(func, xs.drop_last(), ys, out.take(cut));
        assert forall|q: int| 0 <= q < out.len() implies (#[trigger] out[q]).wf() by {
            if q < cut {
                assert(out.take(cut)[q] == out[q]);
            } else {
                assert(out.skip(cut)[q - cut] == out[q]);
                assert(call_ensures(func, (&xs.last(), &ys[q - cut]), out.skip(cut)[q - cut]));
            }
        }
    }
}

/// The default value holds the bottom element in each partition.
impl<S: SemiLattice> Default for Simple<S> {
    fn default() -> (r: Self)
        ensures
            r.wf(),
            r.stable.model() == S::bottom_model(),
            r.recent.model() == S::bottom_model(),
            r.pending.model() == S::bottom_model(),
    {
        Simple::new()
    }
}

impl<S: SemiLattice> DeferredRestore for Simple<S> {
    type Value = S;

    open spec fn wf(&self) -> bool {
        self.stable.wf() && self.recent.wf() && self.pending.wf()
    }

    open spec fn lawful() -> bool {
        S::lawful()
    }

    open spec fn value_wf(v: S) -> bool {
        v.wf()
    }

    open spec fn stable_view(&self) -> Seq<S> {
        unless_bottom(self.stable)
    }

    open spec fn recent_view(&self) -> Seq<S> {
        unless_bottom(self.recent)
    }

    open spec fn settled(&self) -> bool {
        S::leq(self.recent.model(), self.stable.model())
    }

    open spec fn staged(&self, val: S, after: &Self) -> bool {
        &&& after.stable == self.stable
        &&& after.recent == self.recent
        &&& after.pending.model() == S::lub(self.pending.model(), val.model())
    }

    open spec fn restored(&self, after: &Self) -> bool {
        &&& after.stable.model() == S::lub(self.stable.model(), self.recent.model())
        &&& after.recent == self.pending
        &&& after.pending.model() == S::bottom_model()
    }

    fn stable(&self) -> (r: Vec<&S>) {
        listed(&self.stable)
    }

    fn recent(&self) -> (r: Vec<&S>) {
        listed(&self.recent)
    }

    fn insert(&mut self, val: S) {
        self.pending.join_assign(val);
    }

    fn restore(&mut self) -> (changed: bool) {
        let mut promoted = S::bottom();
        core::mem::swap(&mut self.pending, &mut promoted);
        core::mem::swap(&mut self.recent, &mut promoted);
        self.stable.join_assign(promoted);
        match self.stable.compare(&self.recent) {
            None | Some(Order::Less) => true,
            _ => false,
        }
    }
}

} // verus!
