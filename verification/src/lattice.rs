use vstd::prelude::*;

verus! {

/// How two comparable lattice elements stand to each other.
#[derive(Clone, Copy, Debug, PartialEq, Eq, Structural)]
pub enum Order {
    Less,
    Equal,
    Greater,
}

/// The three-way outcome that belongs to the two halves of a partial order:
/// `below` says that the left element is at most the right one, `above` the
/// converse. Neither means that the elements are incomparable.
pub open spec fn order_of(below: bool, above: bool) -> Option<Order> {
    if below && above {
        Some(Order::Equal)
    } else if below {
        Some(Order::Less)
    } else if above {
        Some(Order::Greater)
    } else {
        None
    }
}

/// A bounded join-semilattice.
///
/// The lattice lives on `Model`: `leq` is its partial order, `lub` its join
/// and `bottom_model` its least element. `valid` singles out the models that
/// are elements of the lattice, and `wf` the executable values that stand for
/// one. What the executable functions need to know of the key types inside a
/// value (that they order totally) is `lawful`.
pub trait SemiLattice: Sized {
    /// The mathematical values that the lattice is made of.
    type Model;

    /// The element that the value stands for.
    spec fn model(&self) -> Self::Model;

    /// The value is as its type wants it: it stands for an element of the
    /// lattice, and the functions of the type can work on it.
    spec fn wf(&self) -> bool;

    /// The types of the keys and of the plain data inside a value compare as
    /// the executable functions expect: keys order totally, and equal is
    /// identical.
    spec fn lawful() -> bool;

    /// The model is an element of the lattice.
    spec fn valid(m: Self::Model) -> bool;

    /// The least element.
    spec fn bottom_model() -> Self::Model;

    /// The partial order: `a` is below `b`, or is `b`.
    spec fn leq(a: Self::Model, b: Self::Model) -> bool;

    /// The join: the least upper bound of `a` and `b`.
    spec fn lub(a: Self::Model, b: Self::Model) -> Self::Model;

    /// Whether `lub` associates on this type. It does unless a guarded pair
    /// whose guards can be incomparable occurs in it.
    spec fn associative() -> bool;

    /// A well-formed value stands for an element of the lattice.
    proof fn lemma_wf_valid(v: Self)
        requires
            v.wf(),
        ensures
            Self::valid(v.model()),
    ;

    /// The bottom element is an element of the lattice.
    proof fn lemma_bottom_valid()
        ensures
            Self::valid(Self::bottom_model()),
    ;

    /// The lattice is closed under join.
    proof fn lemma_lub_valid(a: Self::Model, b: Self::Model)
        requires
            Self::valid(a),
            Self::valid(b),
        ensures
            Self::valid(Self::lub(a, b)),
    ;

    /// The order is reflexive.
    proof fn lemma_leq_reflexive(a: Self::Model)
        requires
            Self::valid(a),
        ensures
            Self::leq(a, a),
    ;

    /// The order is antisymmetric.
    proof fn lemma_leq_antisymmetric(a: Self::Model, b: Self::Model)
        requires
            Self::valid(a),
            Self::valid(b),
            Self::leq(a, b),
            Self::leq(b, a),
        ensures
            a == b,
    ;

    /// The order is transitive.
    proof fn lemma_leq_transitive(a: Self::Model, b: Self::Model, c: Self::Model)
        requires
            Self::valid(a),
            Self::valid(b),
            Self::valid(c),
            Self::leq(a, b),
            Self::leq(b, c),
        ensures
            Self::leq(a, c),
    ;

    /// The bottom element is below every element.
    proof fn lemma_bottom_least(a: Self::Model)
        requires
            Self::valid(a),
        ensures
            Self::leq(Self::bottom_model(), a),
    ;

    /// Join is associative.
    proof fn lemma_join_associative(a: Self::Model, b: Self::Model, c: Self::Model)
        requires
            Self::associative(),
            Self::valid(a),
            Self::valid(b),
            Self::valid(c),
        ensures
            Self::lub(Self::lub(a, b), c) == Self::lub(a, Self::lub(b, c)),
    ;

    /// Join is commutative.
    proof fn lemma_join_commutative(a: Self::Model, b: Self::Model)
        requires
            Self::valid(a),
            Self::valid(b),
        ensures
            Self::lub(a, b) == Self::lub(b, a),
    ;

    /// Join is idempotent.
    proof fn lemma_join_idempotent(a: Self::Model)
        requires
            Self::valid(a),
        ensures
            Self::lub(a, a) == a,
    ;

    /// Join agrees with the order: the join of two comparable elements is the
    /// greater one, and the join of two incomparable elements lies strictly
    /// above both.
    proof fn lemma_join_order(a: Self::Model, b: Self::Model)
        requires
            Self::valid(a),
            Self::valid(b),
        ensures
            Self::leq(b, a) ==> Self::lub(a, b) == a,
            Self::leq(a, b) ==> Self::lub(a, b) == b,
            !Self::leq(a, b) && !Self::leq(b, a) ==> {
                &&& Self::leq(a, Self::lub(a, b)) && !Self::leq(Self::lub(a, b), a)
                &&& Self::leq(b, Self::lub(a, b)) && !Self::leq(Self::lub(a, b), b)
            },
    ;

    /// The least element.
    fn bottom() -> (r: Self)
        ensures
            r.wf(),
            r.model() == Self::bottom_model(),
    ;

    /// Compares two elements: `None` where neither is below the other.
    fn compare(&self, other: &Self) -> (r: Option<Order>)
        requires
            Self::lawful(),
            self.wf(),
            other.wf(),
        ensures
            r == order_of(
                Self::leq(self.model(), other.model()),
                Self::leq(other.model(), self.model()),
            ),
    ;

    /// The least upper bound of two elements.
    fn join(self, other: Self) -> (r: Self)
        requires
            Self::lawful(),
            self.wf(),
            other.wf(),
        ensures
            r.wf(),
            r.model() == Self::lub(self.model(), other.model()),
    ;

    /// A second value that stands for the same element.
    fn replicate(&self) -> (r: Self)
        requires
            Self::lawful(),
            self.wf(),
        ensures
            r.wf(),
            r.model() == self.model(),
    ;

    /// Joins `other` into `self` in place.
    fn join_assign(&mut self, other: Self)
        requires
            Self::lawful(),
            old(self).wf(),
            other.wf(),
        ensures
            final(self).wf(),
            final(self).model() == Self::lub(old(self).model(), other.model()),
    {
        let mut current = Self::bottom();
        core::mem::swap(self, &mut current);
        *self = current.join(other);
    }
}

/// Every entry says "less" or "equal".
pub open spec fn all_at_most(orders: Seq<Option<Order>>) -> bool {
    forall|i: int|
        0 <= i < orders.len() ==> (#[trigger] orders[i] == Some(Order::Less) || orders[i] == Some(
            Order::Equal,
        ))
}

/// Every entry says "greater" or "equal".
pub open spec fn all_at_least(orders: Seq<Option<Order>>) -> bool {
    forall|i: int|
        0 <= i < orders.len() ==> (#[trigger] orders[i] == Some(Order::Greater) || orders[i]
            == Some(Order::Equal))
}

/// Folds the orders of the fields of a product into the order of the
/// product: the fields must agree in direction. One field without an order,
/// or two fields that point in opposite directions, leave the product
/// without an order; fields that are equal do not count.
pub fn partial_ord_helper(orders: &[Option<Order>]) -> (r: Option<Order>)
    ensures
        r == order_of(all_at_most(orders@), all_at_least(orders@)),
{
    let mut greater = false;
    let mut less = false;
    let mut i: usize = 0;
    while i < orders.len()
        invariant
            i <= orders.len(),
            !(greater && less),
            less <==> exists|j: int| 0 <= j < i && #[trigger] orders@[j] == Some(Order::Less),
            greater <==> exists|j: int| 0 <= j < i && #[trigger] orders@[j] == Some(Order::Greater),
            forall|j: int| 0 <= j < i ==> (#[trigger] orders@[j]) is Some,
        decreases orders.len() - i,
    {
        match orders[i] {
            Some(Order::Less) => {
                if greater {
                    return None;
                }
                less = true;
            },
            Some(Order::Greater) => {
                if less {
                    return None;
                }
                greater = true;
            },
            Some(Order::Equal) => {},
            None => {
                return None;
            },
        }
        i += 1;
    }
    proof {
        let s = orders@;
        if greater {
            let j = choose|j: int| 0 <= j < i && #[trigger] s[j] == Some(Order::Greater);
            assert(s[j] == Some(Order::Greater));
            assert(!all_at_most(s));
        }
        if less {
            let j = choose|j: int| 0 <= j < i && #[trigger] s[j] == Some(Order::Less);
            assert(s[j] == Some(Order::Less));
            assert(!all_at_least(s));
        }
        assert forall|k: int| 0 <= k < s.len() && !greater implies (#[trigger] s[k] == Some(
            Order::Less,
        ) || s[k] == Some(Order::Equal)) by {
            assert(s[k] is Some);
            assert(!(s[k] == Some(Order::Greater)));
        }
        assert forall|k: int| 0 <= k < s.len() && !less implies (#[trigger] s[k] == Some(
            Order::Greater,
        ) || s[k] == Some(Order::Equal)) by {
            assert(s[k] is Some);
            assert(!(s[k] == Some(Order::Less)));
        }
    }
    if greater {
        Some(Order::Greater)
    } else if less {
        Some(Order::Less)
    } else {
        Some(Order::Equal)
    }
}

/// The models of a sequence of values.
pub open spec fn models<S: SemiLattice>(items: Seq<S>) -> Seq<S::Model> {
    items.map_values(|v: S| v.model())
}

/// The element `start` after the elements of `ms` have been joined to it,
/// one after the other.
pub open spec fn lub_onto<S: SemiLattice>(start: S::Model, ms: Seq<S::Model>) -> S::Model
    decreases ms.len(),
{
    if ms.len() == 0 {
        start
    } else {
        S::lub(lub_onto::<S>(start, ms.drop_last()), ms.last())
    }
}

/// The join of a sequence of elements, taken from the bottom element on,
/// left to right.
pub open spec fn lub_all<S: SemiLattice>(ms: Seq<S::Model>) -> S::Model {
    lub_onto::<S>(S::bottom_model(), ms)
}

/// Joins the values of `items` into `acc`, one after the other.
pub fn join_all<S: SemiLattice>(acc: &mut S, items: Vec<S>)
    requires
        S::lawful(),
        old(acc).wf(),
        forall|i: int| 0 <= i < items.len() ==> (#[trigger] items[i]).wf(),
    ensures
        final(acc).wf(),
        final(acc).model() == lub_onto::<S>(old(acc).model(), models(items@)),
{
    let ghost all = items@;
    let ghost start = acc.model();
    assert(models(all).take(0) =~= Seq::<S::Model>::empty());
    for item in it: items
        invariant
            S::lawful(),
            it.seq() == all,
            forall|i: int| 0 <= i < all.len() ==> (#[trigger] all[i]).wf(),
            acc.wf(),
            acc.model() == lub_onto::<S>(start, models(all).take(it.index() as int)),
    {
        proof {
            let k = it.index() as int;
            assert(models(all).take(k + 1).drop_last() =~= models(all).take(k));
            assert(models(all).take(k + 1).last() == all[k].model());
        }
        acc.join_assign(item);
    }
    assert(models(all).take(all.len() as int) =~= models(all));
}

/// Reduces a sequence of lattice values to its least upper bound.
pub fn fold<S: SemiLattice>(items: Vec<S>) -> (r: S)
    requires
        S::lawful(),
        forall|i: int| 0 <= i < items.len() ==> (#[trigger] items[i]).wf(),
    ensures
        r.wf(),
        r.model() == lub_all::<S>(models(items@)),
{
    let mut acc = S::bottom();
    join_all(&mut acc, items);
    acc
}

/// The lattice with one element.
impl SemiLattice for () {
    type Model = ();

    open spec fn model(&self) -> () {
        ()
    }

    open spec fn wf(&self) -> bool {
        true
    }

    open spec fn lawful() -> bool {
        true
    }

    open spec fn valid(m: ()) -> bool {
        true
    }

    open spec fn bottom_model() -> () {
        ()
    }

    open spec fn leq(a: (), b: ()) -> bool {
        true
    }

    open spec fn lub(a: (), b: ()) -> () {
        ()
    }

    open spec fn associative() -> bool {
        true
    }

    proof fn lemma_wf_valid(v: Self) {
    }

    proof fn lemma_bottom_valid() {
    }

    proof fn lemma_lub_valid(a: (), b: ()) {
    }

    proof fn lemma_leq_reflexive(a: ()) {
    }

    proof fn lemma_leq_antisymmetric(a: (), b: ()) {
    }

    proof fn lemma_leq_transitive(a: (), b: (), c: ()) {
    }

    proof fn lemma_bottom_least(a: ()) {
    }

    proof fn lemma_join_associative(a: (), b: (), c: ()) {
    }

    proof fn lemma_join_commutative(a: (), b: ()) {
    }

    proof fn lemma_join_idempotent(a: ()) {
    }

    proof fn lemma_join_order(a: (), b: ()) {
    }

    fn bottom() -> (r: Self) {
        ()
    }

    fn compare(&self, other: &Self) -> (r: Option<Order>) {
        Some(Order::Equal)
    }

    fn join(self, other: Self) -> (r: Self) {
        ()
    }

    fn replicate(&self) -> (r: Self) {
        ()
    }
}

/// A join lies above both of its operands.
pub proof fn lemma_join_upper_bound<S: SemiLattice>(a: S::Model, b: S::Model)
    requires
        S::valid(a),
        S::valid(b),
    ensures
        S::leq(a, S::lub(a, b)),
        S::leq(b, S::lub(a, b)),
{
    S::lemma_join_order(a, b);
    S::lemma_leq_reflexive(a);
    S::lemma_leq_reflexive(b);
}

/// An element that lies below another adds nothing to it: the join is above
/// an operand only if it is that operand.
pub proof fn lemma_join_absorbs<S: SemiLattice>(a: S::Model, b: S::Model)
    requires
        S::valid(a),
        S::valid(b),
    ensures
        S::leq(S::lub(a, b), a) <==> S::leq(b, a),
{
    S::lemma_join_order(a, b);
    S::lemma_leq_reflexive(a);
    if S::leq(S::lub(a, b), a) {
        lemma_join_upper_bound::<S>(a, b);
        S::lemma_lub_valid(a, b);
        S::lemma_leq_transitive(b, S::lub(a, b), a);
    }
}

} // verus!
