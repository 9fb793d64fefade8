use crate::key::key_copy;
use crate::lattice::{all_at_least, all_at_most, order_of, partial_ord_helper, Order, SemiLattice};
use crate::map::MapLattice;
use crate::map_model::{collect, map_lub};
use crate::ord::Max;
use crate::redactable::Redactable;
use crate::set::SetLattice;
use crate::vec::{padded, VecLattice};
use vstd::prelude::*;

verus! {

/// The name of an actor. Probably a public key.
pub type ActorID = String;

/// The name of a message: the actor who wrote it, and a number that the
/// actor chose for it.
pub type MessageID = (ActorID, u64);

/// The name of a reaction to a message.
pub type Reaction = String;

/// The name of a tag of a thread.
pub type Tag = String;

/// The name of an object in a repository.
pub type Oid = Vec<u8>;

/// A range of commits, from `start` to `end`, that is proposed for a target.
pub type Patchset = (Option<String>, Oid, Oid);

/// What an actor says of one message of its own: the titles and the
/// content, each by version, and the patches that come with it.
#[derive(Debug, Clone, PartialEq)]
pub struct Owned {
    pub titles: VecLattice<SetLattice<String>>,
    pub content: VecLattice<Redactable<String>>,
    pub commits: VecLattice<SetLattice<Patchset>>,
}

/// The fields of `Owned`, as the product that they form.
pub type OwnedFields = (
    VecLattice<SetLattice<String>>,
    (VecLattice<Redactable<String>>, VecLattice<SetLattice<Patchset>>),
);

/// The default value is the bottom element.
impl Default for Owned {
    fn default() -> (r: Self)
        ensures
            r.wf(),
            r.model() == <Self as SemiLattice>::bottom_model(),
    {
        <Self as SemiLattice>::bottom()
    }
}

impl SemiLattice for Owned {
    type Model = <OwnedFields as SemiLattice>::Model;

    open spec fn model(&self) -> <OwnedFields as SemiLattice>::Model {
        (self.titles.model(), (self.content.model(), self.commits.model()))
    }

    open spec fn wf(&self) -> bool {
        self.titles.wf() && self.content.wf() && self.commits.wf()
    }

    open spec fn lawful() -> bool {
        <OwnedFields as SemiLattice>::lawful()
    }

    open spec fn valid(m: <OwnedFields as SemiLattice>::Model) -> bool {
        <OwnedFields as SemiLattice>::valid(m)
    }

    open spec fn bottom_model() -> <OwnedFields as SemiLattice>::Model {
        <OwnedFields as SemiLattice>::bottom_model()
    }

    open spec fn leq(
        a: <OwnedFields as SemiLattice>::Model,
        b: <OwnedFields as SemiLattice>::Model,
    ) -> bool {
        <OwnedFields as SemiLattice>::leq(a, b)
    }

    open spec fn lub(
        a: <OwnedFields as SemiLattice>::Model,
        b: <OwnedFields as SemiLattice>::Model,
    ) -> <OwnedFields as SemiLattice>::Model {
        <OwnedFields as SemiLattice>::lub(a, b)
    }

    open spec fn associative() -> bool {
        <OwnedFields as SemiLattice>::associative()
    }

    proof fn lemma_wf_valid(v: Self) {
        <OwnedFields as SemiLattice>::lemma_wf_valid((v.titles, (v.content, v.commits)));
    }

    proof fn lemma_bottom_valid() {
        <OwnedFields as SemiLattice>::lemma_bottom_valid();
    }

    proof fn lemma_lub_valid(
        a: <OwnedFields as SemiLattice>::Model,
        b: <OwnedFields as SemiLattice>::Model,
    ) {
        <OwnedFields as SemiLattice>::lemma_lub_valid(a, b);
    }

    proof fn lemma_leq_reflexive(a: <OwnedFields as SemiLattice>::Model) {
        <OwnedFields as SemiLattice>::lemma_leq_reflexive(a);
    }

    proof fn lemma_leq_antisymmetric(
        a: <OwnedFields as SemiLattice>::Model,
        b: <OwnedFields as SemiLattice>::Model,
    ) {
        <OwnedFields as SemiLattice>::lemma_leq_antisymmetric(a, b);
    }

    proof fn lemma_leq_transitive(
        a: <OwnedFields as SemiLattice>::Model,
        b: <OwnedFields as SemiLattice>::Model,
        c: <OwnedFields as SemiLattice>::Model,
    ) {
        <OwnedFields as SemiLattice>::lemma_leq_transitive(a, b, c);
    }

    proof fn lemma_bottom_least(a: <OwnedFields as SemiLattice>::Model) {
        <OwnedFields as SemiLattice>::lemma_bottom_least(a);
    }

    proof fn lemma_join_associative(
        a: <OwnedFields as SemiLattice>::Model,
        b: <OwnedFields as SemiLattice>::Model,
        c: <OwnedFields as SemiLattice>::Model,
    ) {
        <OwnedFields as SemiLattice>::lemma_join_associative(a, b, c);
    }

    proof fn lemma_join_commutative(
        a: <OwnedFields as SemiLattice>::Model,
        b: <OwnedFields as SemiLattice>::Model,
    ) {
        <OwnedFields as SemiLattice>::lemma_join_commutative(a, b);
    }

    proof fn lemma_join_idempotent(a: <OwnedFields as SemiLattice>::Model) {
        <OwnedFields as SemiLattice>::lemma_join_idempotent(a);
    }

    proof fn lemma_join_order(
        a: <OwnedFields as SemiLattice>::Model,
        b: <OwnedFields as SemiLattice>::Model,
    ) {
        <OwnedFields as SemiLattice>::lemma_join_order(a, b);
    }

    fn bottom() -> (r: Self) {
        let r = Owned {
            titles: <VecLattice<SetLattice<String>> as SemiLattice>::bottom(),
            content: <VecLattice<Redactable<String>> as SemiLattice>::bottom(),
            commits: <VecLattice<SetLattice<Patchset>> as SemiLattice>::bottom(),
        };
        assert(r.model() == <OwnedFields as SemiLattice>::bottom_model());
        assert(Self::bottom_model() == <OwnedFields as SemiLattice>::bottom_model());
        r
    }

    fn compare(&self, other: &Self) -> (r: Option<Order>) {
        let orders = vec![
            self.titles.compare(&other.titles),
            self.content.compare(&other.content),
            self.commits.compare(&other.commits),
        ];
        proof {
            let a = self.model();
            let b = other.model();
            let le0 = <VecLattice<SetLattice<String>> as SemiLattice>::leq(a.0, b.0);
            let ge0 = <VecLattice<SetLattice<String>> as SemiLattice>::leq(b.0, a.0);
            assert(orders@[0] == order_of(le0, ge0));
            let le1 = <VecLattice<Redactable<String>> as SemiLattice>::leq(a.1.0, b.1.0);
            let ge1 = <VecLattice<Redactable<String>> as SemiLattice>::leq(b.1.0, a.1.0);
            assert(orders@[1] == order_of(le1, ge1));
            let le2 = <VecLattice<SetLattice<Patchset>> as SemiLattice>::leq(a.1.1, b.1.1);
            let ge2 = <VecLattice<SetLattice<Patchset>> as SemiLattice>::leq(b.1.1, a.1.1);
            assert(orders@[2] == order_of(le2, ge2));
            assert(all_at_most(orders@) == (le0 && le1 && le2));
            assert(all_at_least(orders@) == (ge0 && ge1 && ge2));
            assert(Self::leq(a, b) == (le0 && le1 && le2));
            assert(Self::leq(b, a) == (ge0 && ge1 && ge2));
        }
        partial_ord_helper(orders.as_slice())
    }

    fn join(self, other: Self) -> (r: Self) {
        Owned {
            titles: self.titles.join(other.titles),
            content: self.content.join(other.content),
            commits: self.commits.join(other.commits),
        }
    }

    fn replicate(&self) -> (r: Self) {
        Owned {
            titles: self.titles.replicate(),
            content: self.content.replicate(),
            commits: self.commits.replicate(),
        }
    }
}

/// What an actor says of a message of anybody: the replies that the actor
/// wrote to it, and the actor's votes on its tags and on reactions to it.
#[derive(Debug, Clone, PartialEq)]
pub struct Shared {
    pub responses: SetLattice<u64>,
    pub tags: MapLattice<Tag, Max<u64>>,
    pub reactions: MapLattice<Tag, Max<u64>>,
}

/// The fields of `Shared`, as the product that they form.
pub type SharedFields = (SetLattice<u64>, (MapLattice<Tag, Max<u64>>, MapLattice<Tag, Max<u64>>));

/// The default value is the bottom element.
impl Default for Shared {
    fn default() -> (r: Self)
        ensures
            r.wf(),
            r.model() == <Self as SemiLattice>::bottom_model(),
    {
        <Self as SemiLattice>::bottom()
    }
}

impl SemiLattice for Shared {
    type Model = <SharedFields as SemiLattice>::Model;

    open spec fn model(&self) -> <SharedFields as SemiLattice>::Model {
        (self.responses.model(), (self.tags.model(), self.reactions.model()))
    }

    open spec fn wf(&self) -> bool {
        self.responses.wf() && self.tags.wf() && self.reactions.wf()
    }

    open spec fn lawful() -> bool {
        <SharedFields as SemiLattice>::lawful()
    }

    open spec fn valid(m: <SharedFields as SemiLattice>::Model) -> bool {
        <SharedFields as SemiLattice>::valid(m)
    }

    open spec fn bottom_model() -> <SharedFields as SemiLattice>::Model {
        <SharedFields as SemiLattice>::bottom_model()
    }

    open spec fn leq(
        a: <SharedFields as SemiLattice>::Model,
        b: <SharedFields as SemiLattice>::Model,
    ) -> bool {
        <SharedFields as SemiLattice>::leq(a, b)
    }

    open spec fn lub(
        a: <SharedFields as SemiLattice>::Model,
        b: <SharedFields as SemiLattice>::Model,
    ) -> <SharedFields as SemiLattice>::Model {
        <SharedFields as SemiLattice>::lub(a, b)
    }

    open spec fn associative() -> bool {
        <SharedFields as SemiLattice>::associative()
    }

    proof fn lemma_wf_valid(v: Self) {
        <SharedFields as SemiLattice>::lemma_wf_valid((v.responses, (v.tags, v.reactions)));
    }

    proof fn lemma_bottom_valid() {
        <SharedFields as SemiLattice>::lemma_bottom_valid();
    }

    proof fn lemma_lub_valid(
        a: <SharedFields as SemiLattice>::Model,
        b: <SharedFields as SemiLattice>::Model,
    ) {
        <SharedFields as SemiLattice>::lemma_lub_valid(a, b);
    }

    proof fn lemma_leq_reflexive(a: <SharedFields as SemiLattice>::Model) {
        <SharedFields as SemiLattice>::lemma_leq_reflexive(a);
    }

    proof fn lemma_leq_antisymmetric(
        a: <SharedFields as SemiLattice>::Model,
        b: <SharedFields as SemiLattice>::Model,
    ) {
        <SharedFields as SemiLattice>::lemma_leq_antisymmetric(a, b);
    }

    proof fn lemma_leq_transitive(
        a: <SharedFields as SemiLattice>::Model,
        b: <SharedFields as SemiLattice>::Model,
        c: <SharedFields as SemiLattice>::Model,
    ) {
        <SharedFields as SemiLattice>::lemma_leq_transitive(a, b, c);
    }

    proof fn lemma_bottom_least(a: <SharedFields as SemiLattice>::Model) {
        <SharedFields as SemiLattice>::lemma_bottom_least(a);
    }

    proof fn lemma_join_associative(
        a: <SharedFields as SemiLattice>::Model,
        b: <SharedFields as SemiLattice>::Model,
        c: <SharedFields as SemiLattice>::Model,
    ) {
        <SharedFields as SemiLattice>::lemma_join_associative(a, b, c);
    }

    proof fn lemma_join_commutative(
        a: <SharedFields as SemiLattice>::Model,
        b: <SharedFields as SemiLattice>::Model,
    ) {
        <SharedFields as SemiLattice>::lemma_join_commutative(a, b);
    }

    proof fn lemma_join_idempotent(a: <SharedFields as SemiLattice>::Model) {
        <SharedFields as SemiLattice>::lemma_join_idempotent(a);
    }

    proof fn lemma_join_order(
        a: <SharedFields as SemiLattice>::Model,
        b: <SharedFields as SemiLattice>::Model,
    ) {
        <SharedFields as SemiLattice>::lemma_join_order(a, b);
    }

    fn bottom() -> (r: Self) {
        let r = Shared {
            responses: <SetLattice<u64> as SemiLattice>::bottom(),
            tags: <MapLattice<Tag, Max<u64>> as SemiLattice>::bottom(),
            reactions: <MapLattice<Tag, Max<u64>> as SemiLattice>::bottom(),
        };
        assert(r.model() == <SharedFields as SemiLattice>::bottom_model());
        assert(Self::bottom_model() == <SharedFields as SemiLattice>::bottom_model());
        r
    }

    fn compare(&self, other: &Self) -> (r: Option<Order>) {
        let orders = vec![
            self.responses.compare(&other.responses),
            self.tags.compare(&other.tags),
            self.reactions.compare(&other.reactions),
        ];
        proof {
            let a = self.model();
            let b = other.model();
            let le0 = <SetLattice<u64> as SemiLattice>::leq(a.0, b.0);
            let ge0 = <SetLattice<u64> as SemiLattice>::leq(b.0, a.0);
            assert(orders@[0] == order_of(le0, ge0));
            let le1 = <MapLattice<Tag, Max<u64>> as SemiLattice>::leq(a.1.0, b.1.0);
            let ge1 = <MapLattice<Tag, Max<u64>> as SemiLattice>::leq(b.1.0, a.1.0);
            assert(orders@[1] == order_of(le1, ge1));
            let le2 = <MapLattice<Tag, Max<u64>> as SemiLattice>::leq(a.1.1, b.1.1);
            let ge2 = <MapLattice<Tag, Max<u64>> as SemiLattice>::leq(b.1.1, a.1.1);
            assert(orders@[2] == order_of(le2, ge2));
            assert(all_at_most(orders@) == (le0 && le1 && le2));
            assert(all_at_least(orders@) == (ge0 && ge1 && ge2));
            assert(Self::leq(a, b) == (le0 && le1 && le2));
            assert(Self::leq(b, a) == (ge0 && ge1 && ge2));
        }
        partial_ord_helper(orders.as_slice())
    }

    fn join(self, other: Self) -> (r: Self) {
        Shared {
            responses: self.responses.join(other.responses),
            tags: self.tags.join(other.tags),
            reactions: self.reactions.join(other.reactions),
        }
    }

    fn replicate(&self) -> (r: Self) {
        Shared {
            responses: self.responses.replicate(),
            tags: self.tags.replicate(),
            reactions: self.reactions.replicate(),
        }
    }
}

/// All that one actor has written: the actor's own messages by number, and
/// what the actor says of the messages of each actor.
#[derive(Debug, Clone, PartialEq)]
pub struct Slice {
    pub owned: VecLattice<Owned>,
    pub shared: MapLattice<ActorID, MapLattice<u64, Shared>>,
}

/// The fields of `Slice`, as the product that they form.
pub type SliceFields = (VecLattice<Owned>, MapLattice<ActorID, MapLattice<u64, Shared>>);

/// The default value is the bottom element.
impl Default for Slice {
    fn default() -> (r: Self)
        ensures
            r.wf(),
            r.model() == <Self as SemiLattice>::bottom_model(),
    {
        <Self as SemiLattice>::bottom()
    }
}

impl SemiLattice for Slice {
    type Model = <SliceFields as SemiLattice>::Model;

    open spec fn model(&self) -> <SliceFields as SemiLattice>::Model {
        (self.owned.model(), self.shared.model())
    }

    open spec fn wf(&self) -> bool {
        self.owned.wf() && self.shared.wf()
    }

    open spec fn lawful() -> bool {
        <SliceFields as SemiLattice>::lawful()
    }

    open spec fn valid(m: <SliceFields as SemiLattice>::Model) -> bool {
        <SliceFields as SemiLattice>::valid(m)
    }

    open spec fn bottom_model() -> <SliceFields as SemiLattice>::Model {
        <SliceFields as SemiLattice>::bottom_model()
    }

    open spec fn leq(
        a: <SliceFields as SemiLattice>::Model,
        b: <SliceFields as SemiLattice>::Model,
    ) -> bool {
        <SliceFields as SemiLattice>::leq(a, b)
    }

    open spec fn lub(
        a: <SliceFields as SemiLattice>::Model,
        b: <SliceFields as SemiLattice>::Model,
    ) -> <SliceFields as SemiLattice>::Model {
        <SliceFields as SemiLattice>::lub(a, b)
    }

    open spec fn associative() -> bool {
        <SliceFields as SemiLattice>::associative()
    }

    proof fn lemma_wf_valid(v: Self) {
        <SliceFields as SemiLattice>::lemma_wf_valid((v.owned, v.shared));
    }

    proof fn lemma_bottom_valid() {
        <SliceFields as SemiLattice>::lemma_bottom_valid();
    }

    proof fn lemma_lub_valid(
        a: <SliceFields as SemiLattice>::Model,
        b: <SliceFields as SemiLattice>::Model,
    ) {
        <SliceFields as SemiLattice>::lemma_lub_valid(a, b);
    }

    proof fn lemma_leq_reflexive(a: <SliceFields as SemiLattice>::Model) {
        <SliceFields as SemiLattice>::lemma_leq_reflexive(a);
    }

    proof fn lemma_leq_antisymmetric(
        a: <SliceFields as SemiLattice>::Model,
        b: <SliceFields as SemiLattice>::Model,
    ) {
        <SliceFields as SemiLattice>::lemma_leq_antisymmetric(a, b);
    }

    proof fn lemma_leq_transitive(
        a: <SliceFields as SemiLattice>::Model,
        b: <SliceFields as SemiLattice>::Model,
        c: <SliceFields as SemiLattice>::Model,
    ) {
        <SliceFields as SemiLattice>::lemma_leq_transitive(a, b, c);
    }

    proof fn lemma_bottom_least(a: <SliceFields as SemiLattice>::Model) {
        <SliceFields as SemiLattice>::lemma_bottom_least(a);
    }

    proof fn lemma_join_associative(
        a: <SliceFields as SemiLattice>::Model,
        b: <SliceFields as SemiLattice>::Model,
        c: <SliceFields as SemiLattice>::Model,
    ) {
        <SliceFields as SemiLattice>::lemma_join_associative(a, b, c);
    }

    proof fn lemma_join_commutative(
        a: <SliceFields as SemiLattice>::Model,
        b: <SliceFields as SemiLattice>::Model,
    ) {
        <SliceFields as SemiLattice>::lemma_join_commutative(a, b);
    }

    proof fn lemma_join_idempotent(a: <SliceFields as SemiLattice>::Model) {
        <SliceFields as SemiLattice>::lemma_join_idempotent(a);
    }

    proof fn lemma_join_order(
        a: <SliceFields as SemiLattice>::Model,
        b: <SliceFields as SemiLattice>::Model,
    ) {
        <SliceFields as SemiLattice>::lemma_join_order(a, b);
    }

    fn bottom() -> (r: Self) {
        let r = Slice {
            owned: <VecLattice<Owned> as SemiLattice>::bottom(),
            shared: <MapLattice<ActorID, MapLattice<u64, Shared>> as SemiLattice>::bottom(),
        };
        assert(r.model() == <SliceFields as SemiLattice>::bottom_model());
        assert(Self::bottom_model() == <SliceFields as SemiLattice>::bottom_model());
        r
    }

    fn compare(&self, other: &Self) -> (r: Option<Order>) {
        let orders = vec![
            self.owned.compare(&other.owned),
            self.shared.compare(&other.shared),
        ];
        proof {
            let a = self.model();
            let b = other.model();
            let le0 = <VecLattice<Owned> as SemiLattice>::leq(a.0, b.0);
            let ge0 = <VecLattice<Owned> as SemiLattice>::leq(b.0, a.0);
            assert(orders@[0] == order_of(le0, ge0));
            let le1 = <MapLattice<ActorID, MapLattice<u64, Shared>> as SemiLattice>::leq(a.1, b.1);
            let ge1 = <MapLattice<ActorID, MapLattice<u64, Shared>> as SemiLattice>::leq(b.1, a.1);
            assert(orders@[1] == order_of(le1, ge1));
            assert(all_at_most(orders@) == (le0 && le1));
            assert(all_at_least(orders@) == (ge0 && ge1));
            assert(Self::leq(a, b) == (le0 && le1));
            assert(Self::leq(b, a) == (ge0 && ge1));
        }
        partial_ord_helper(orders.as_slice())
    }

    fn join(self, other: Self) -> (r: Self) {
        Slice { owned: self.owned.join(other.owned), shared: self.shared.join(other.shared) }
    }

    fn replicate(&self) -> (r: Self) {
        Slice { owned: self.owned.replicate(), shared: self.shared.replicate() }
    }
}

/// The slices of all actors.
#[derive(Debug, Clone, PartialEq)]
pub struct Root {
    pub inner: MapLattice<ActorID, Slice>,
}

/// The fields of `Root`, as the product that they form.
pub type RootFields = MapLattice<ActorID, Slice>;

/// The default value is the bottom element.
impl Default for Root {
    fn default() -> (r: Self)
        ensures
            r.wf(),
            r.model() == <Self as SemiLattice>::bottom_model(),
    {
        <Self as SemiLattice>::bottom()
    }
}

impl SemiLattice for Root {
    type Model = <RootFields as SemiLattice>::Model;

    open spec fn model(&self) -> <RootFields as SemiLattice>::Model {
        self.inner.model()
    }

    open spec fn wf(&self) -> bool {
        self.inner.wf()
    }

    open spec fn lawful() -> bool {
        <RootFields as SemiLattice>::lawful()
    }

    open spec fn valid(m: <RootFields as SemiLattice>::Model) -> bool {
        <RootFields as SemiLattice>::valid(m)
    }

    open spec fn bottom_model() -> <RootFields as SemiLattice>::Model {
        <RootFields as SemiLattice>::bottom_model()
    }

    open spec fn leq(
        a: <RootFields as SemiLattice>::Model,
        b: <RootFields as SemiLattice>::Model,
    ) -> bool {
        <RootFields as SemiLattice>::leq(a, b)
    }

    open spec fn lub(
        a: <RootFields as SemiLattice>::Model,
        b: <RootFields as SemiLattice>::Model,
    ) -> <RootFields as SemiLattice>::Model {
        <RootFields as SemiLattice>::lub(a, b)
    }

    open spec fn associative() -> bool {
        <RootFields as SemiLattice>::associative()
    }

    proof fn lemma_wf_valid(v: Self) {
        <RootFields as SemiLattice>::lemma_wf_valid(v.inner);
    }

    proof fn lemma_bottom_valid() {
        <RootFields as SemiLattice>::lemma_bottom_valid();
    }

    proof fn lemma_lub_valid(
        a: <RootFields as SemiLattice>::Model,
        b: <RootFields as SemiLattice>::Model,
    ) {
        <RootFields as SemiLattice>::lemma_lub_valid(a, b);
    }

    proof fn lemma_leq_reflexive(a: <RootFields as SemiLattice>::Model) {
        <RootFields as SemiLattice>::lemma_leq_reflexive(a);
    }

    proof fn lemma_leq_antisymmetric(
        a: <RootFields as SemiLattice>::Model,
        b: <RootFields as SemiLattice>::Model,
    ) {
        <RootFields as SemiLattice>::lemma_leq_antisymmetric(a, b);
    }

    proof fn lemma_leq_transitive(
        a: <RootFields as SemiLattice>::Model,
        b: <RootFields as SemiLattice>::Model,
        c: <RootFields as SemiLattice>::Model,
    ) {
        <RootFields as SemiLattice>::lemma_leq_transitive(a, b, c);
    }

    proof fn lemma_bottom_least(a: <RootFields as SemiLattice>::Model) {
        <RootFields as SemiLattice>::lemma_bottom_least(a);
    }

    proof fn lemma_join_associative(
        a: <RootFields as SemiLattice>::Model,
        b: <RootFields as SemiLattice>::Model,
        c: <RootFields as SemiLattice>::Model,
    ) {
        <RootFields as SemiLattice>::lemma_join_associative(a, b, c);
    }

    proof fn lemma_join_commutative(
        a: <RootFields as SemiLattice>::Model,
        b: <RootFields as SemiLattice>::Model,
    ) {
        <RootFields as SemiLattice>::lemma_join_commutative(a, b);
    }

    proof fn lemma_join_idempotent(a: <RootFields as SemiLattice>::Model) {
        <RootFields as SemiLattice>::lemma_join_idempotent(a);
    }

    proof fn lemma_join_order(
        a: <RootFields as SemiLattice>::Model,
        b: <RootFields as SemiLattice>::Model,
    ) {
        <RootFields as SemiLattice>::lemma_join_order(a, b);
    }

    fn bottom() -> (r: Self) {
        let r = Root { inner: <MapLattice<ActorID, Slice> as SemiLattice>::bottom() };
        assert(r.model() == <RootFields as SemiLattice>::bottom_model());
        assert(Self::bottom_model() == <RootFields as SemiLattice>::bottom_model());
        r
    }

    fn compare(&self, other: &Self) -> (r: Option<Order>) {
        self.inner.compare(&other.inner)
    }

    fn join(self, other: Self) -> (r: Self) {
        Root { inner: self.inner.join(other.inner) }
    }

    fn replicate(&self) -> (r: Self) {
        Root { inner: self.inner.replicate() }
    }
}

/// The model of a `Shared`.
pub type SharedModel = <Shared as SemiLattice>::Model;

/// The model of an `Owned`.
pub type OwnedModel = <Owned as SemiLattice>::Model;

/// The model of a `Slice`.
pub type SliceModel = <Slice as SemiLattice>::Model;

/// What the slice says of the message `msg` of the actor `who`; the bottom
/// element where it says nothing.
pub open spec fn shared_at(s: SliceModel, who: ActorID, msg: u64) -> SharedModel {
    if s.1.dom().contains(who) && s.1[who].dom().contains(msg) {
        s.1[who][msg]
    } else {
        <Shared as SemiLattice>::bottom_model()
    }
}

/// The slice `s`, saying `said` of the message `msg` of the actor `who`.
pub open spec fn with_shared(s: SliceModel, who: ActorID, msg: u64, said: SharedModel) -> SliceModel {
    let of_actor = if s.1.dom().contains(who) {
        s.1[who]
    } else {
        Map::empty()
    };
    (s.0, s.1.insert(who, of_actor.insert(msg, said)))
}

/// The model of a new message with the titles `titles` and the content
/// `message` in its first version.
pub open spec fn new_message(titles: Seq<Set<String>>, message: String) -> OwnedModel {
    (titles, (seq![Redactable::Data(message)], Seq::empty()))
}

/// The vote that follows `vote` and says `choice`, where votes count up and
/// a vote says its remainder by `states`: the least number from `vote` on
/// with the remainder `choice`. A vote that cannot count up so far stays.
pub open spec fn vote_after(vote: u64, states: u64, choice: u64) -> u64 {
    let step = ((choice + states) - (vote as int) % (states as int)) % (states as int);
    if vote + step <= u64::MAX {
        (vote + step) as u64
    } else {
        vote
    }
}

/// Counts the vote up until it says `choice`.
pub fn cast_vote(vote: u64, states: u64, choice: u64) -> (r: u64)
    requires
        0 < states <= 4,
        choice < states,
    ensures
        r == vote_after(vote, states, choice),
        vote <= r,
        r - vote < states,
        r != vote || r % states == choice || vote > u64::MAX - states,
        vote <= u64::MAX - states ==> r % states == choice,
{
    let said = vote % states;
    let step = ((choice + states) - said) % states;
    if vote <= u64::MAX - step {
        let r = vote + step;
        assert((vote + step) % (states as int) == choice as int) by (nonlinear_arith)
            requires
                0 < states <= 4,
                choice < states,
                step as int == ((choice + states) - (vote as int) % (states as int)) % (
                states as int),
        ;
        r
    } else {
        vote
    }
}

/// The votes that put each of the tags at `vote`.
pub open spec fn tag_votes(tags: Seq<String>, vote: u64) -> Seq<(Tag, Max<u64>)> {
    tags.map_values(|t: String| (t, Max(vote)))
}

/// An actor at work on its slice.
pub struct Actor<'a> {
    pub id: ActorID,
    pub slice: &'a mut Slice,
}

impl<'a> Actor<'a> {
    /// The actor `id`, at work on `slice`.
    pub fn new(slice: &'a mut Slice, id: ActorID) -> (r: Actor<'a>)
        ensures
            r.id == id,
            *r.slice == *old(slice),
            *final(r.slice) == *final(slice),
    {
        Actor { id, slice }
    }

    /// Starts a thread with a title, a first message and tags. The message
    /// gets the next free number of the actor, and the actor votes for each
    /// of the tags.
    pub fn new_thread(&mut self, title: String, message: String, tags: Vec<String>) -> (r: MessageID)
        requires
            Slice::lawful(),
            old(self).slice.wf(),
            old(self).slice.owned.inner@.len() < usize::MAX,
        ensures
            final(self).slice.wf(),
            final(self).id == old(self).id,
            r == (old(self).id, old(self).slice.owned.inner@.len() as u64),
            final(self).slice.model() == ({
                let before = old(self).slice.model();
                let grown = (before.0.push(new_message(seq![set![title]], message)), before.1);
                let said = shared_at(grown, r.0, r.1);
                with_shared(
                    grown,
                    r.0,
                    r.1,
                    (
                        said.0,
                        (
                            map_lub::<String, Max<u64>>(said.1.0, collect(tag_votes(tags@, 1))),
                            said.1.1,
                        ),
                    ),
                )
            }),
    {
        let id = self.slice.owned.inner.len() as u64;
        let owned = Owned {
            titles: VecLattice::singleton(SetLattice::singleton(title)),
            content: VecLattice::singleton(Redactable::Data(message)),
            commits: VecLattice::bottom(),
        };
        proof {
            assert(owned.model() == new_message(seq![set![title]], message)) by {
                assert(owned.titles.model() =~= seq![set![title]]);
                assert(set![title] =~= Set::<String>::empty().insert(title));
                assert(owned.commits.model() == Seq::<Set<Patchset>>::empty());
            }
        }
        self.slice.owned.push(owned);
        let ghost all = tags@;
        let mut votes: Vec<(Tag, Max<u64>)> = Vec::new();
        for tag in it: tags
            invariant
                it.seq() == all,
                votes@ == tag_votes(all.take(it.index() as int), 1),
        {
            proof {
                let n = it.index() as int;
                assert(tag_votes(all.take(n + 1), 1) =~= tag_votes(all.take(n), 1).push(
                    (all[n], Max(1u64)),
                ));
            }
            votes.push((tag, Max(1)));
        }
        assert(all.take(all.len() as int) =~= all);
        let voted = MapLattice::from_entries(votes);
        let who = key_copy(&self.id);
        let said = self.slice.shared.entry_mut(&self.id).entry_mut(&id);
        said.tags.join_assign(voted);
        proof {
            let before = old(self).slice.model();
            let grown = (before.0.push(new_message(seq![set![title]], message)), before.1);
            assert(self.slice.model().1 =~= with_shared(
                grown,
                who,
                id,
                (
                    shared_at(grown, who, id).0,
                    (
                        map_lub::<String, Max<u64>>(
                            shared_at(grown, who, id).1.0,
                            collect(tag_votes(tags@, 1)),
                        ),
                        shared_at(grown, who, id).1.1,
                    ),
                ),
            ).1);
        }
        (who, id)
    }

    /// Writes a reply to the message `parent`. The reply gets the next free
    /// number of the actor, and the actor says of `parent` that the reply
    /// answers it.
    pub fn reply(&mut self, parent: MessageID, message: String) -> (r: MessageID)
        requires
            Slice::lawful(),
            old(self).slice.wf(),
            old(self).slice.owned.inner@.len() < usize::MAX,
        ensures
            final(self).slice.wf(),
            final(self).id == old(self).id,
            r == (old(self).id, old(self).slice.owned.inner@.len() as u64),
            final(self).slice.model() == ({
                let before = old(self).slice.model();
                let grown = (before.0.push(new_message(Seq::empty(), message)), before.1);
                let said = shared_at(grown, parent.0, parent.1);
                with_shared(grown, parent.0, parent.1, (said.0.insert(r.1), said.1))
            }),
    {
        let id = self.slice.owned.inner.len() as u64;
        let owned = Owned {
            titles: VecLattice::bottom(),
            content: VecLattice::singleton(Redactable::Data(message)),
            commits: VecLattice::bottom(),
        };
        proof {
            assert(owned.model() == new_message(Seq::empty(), message)) by {
                assert(owned.titles.model() == Seq::<Set<String>>::empty());
                assert(owned.commits.model() == Seq::<Set<Patchset>>::empty());
            }
        }
        self.slice.owned.push(owned);
        let said = self.slice.shared.entry_mut(&parent.0).entry_mut(&parent.1);
        said.responses.insert(id);
        proof {
            let before = old(self).slice.model();
            let grown = (before.0.push(new_message(Seq::empty(), message)), before.1);
            assert(self.slice.model().1 =~= with_shared(
                grown,
                parent.0,
                parent.1,
                (shared_at(grown, parent.0, parent.1).0.insert(id), shared_at(
                    grown,
                    parent.0,
                    parent.1,
                ).1),
            ).1);
        }
        (key_copy(&self.id), id)
    }

    /// Writes a new version of the actor's message `id`; the result is the
    /// number of the version.
    pub fn edit(&mut self, id: u64, message: String) -> (version: u64)
        requires
            Slice::lawful(),
            old(self).slice.wf(),
            id < usize::MAX,
            message_at(old(self).slice.model(), id).1.0.len() < usize::MAX,
        ensures
            final(self).slice.wf(),
            final(self).id == old(self).id,
            version == message_at(old(self).slice.model(), id).1.0.len(),
            final(self).slice.model() == ({
                let before = old(self).slice.model();
                let own = message_at(before, id);
                with_message(
                    before,
                    id,
                    (own.0, (own.1.0.push(Redactable::Data(message)), own.1.1)),
                )
            }),
    {
        let own = self.slice.owned.entry_mut(id);
        let version = own.content.inner.len() as u64;
        own.content.push(Redactable::Data(message));
        version
    }

    /// Redacts the version `version` of the actor's message `id`.
    pub fn redact(&mut self, id: u64, version: u64)
        requires
            Slice::lawful(),
            old(self).slice.wf(),
            id < usize::MAX,
            version < usize::MAX,
        ensures
            final(self).slice.wf(),
            final(self).id == old(self).id,
            final(self).slice.model() == ({
                let before = old(self).slice.model();
                let own = message_at(before, id);
                let content = padded::<Redactable<String>>(own.1.0, (version + 1) as nat);
                with_message(
                    before,
                    id,
                    (own.0, (content.update(version as int, Redactable::Redacted), own.1.1)),
                )
            }),
    {
        let text = self.slice.owned.entry_mut(id).content.entry_mut(version);
        text.join_assign(Redactable::Redacted);
    }

    /// Votes for or against a reaction to the message `id`.
    pub fn react(&mut self, id: MessageID, reaction: Reaction, vote: bool)
        requires
            Slice::lawful(),
            old(self).slice.wf(),
        ensures
            final(self).slice.wf(),
            final(self).id == old(self).id,
            final(self).slice.model() == ({
                let before = old(self).slice.model();
                let said = shared_at(before, id.0, id.1);
                let choice = if vote {
                    1u64
                } else {
                    0u64
                };
                with_shared(
                    before,
                    id.0,
                    id.1,
                    (
                        said.0,
                        (
                            said.1.0,
                            said.1.1.insert(
                                reaction,
                                vote_after(vote_at(said.1.1, reaction), 2, choice),
                            ),
                        ),
                    ),
                )
            }),
    {
        let choice: u64 = if vote {
            1
        } else {
            0
        };
        let stored = self.slice.shared.entry_mut(&id.0).entry_mut(&id.1).reactions.entry_mut(
            &reaction,
        );
        stored.0 = cast_vote(stored.0, 2, choice);
        proof {
            let before = old(self).slice.model();
            let said = shared_at(before, id.0, id.1);
            assert(self.slice.model().1 =~= with_shared(
                before,
                id.0,
                id.1,
                (
                    said.0,
                    (
                        said.1.0,
                        said.1.1.insert(reaction, vote_after(vote_at(said.1.1, reaction), 2, choice)),
                    ),
                ),
            ).1);
        }
    }

    /// Puts the actor's vote on the tag `tag` of the message `id` at
    /// `choice`: 1 is for the tag, 2 against it.
    pub fn vote_tag(&mut self, id: &MessageID, tag: &Tag, choice: u64)
        requires
            Slice::lawful(),
            old(self).slice.wf(),
            choice < 4,
        ensures
            final(self).slice.wf(),
            final(self).id == old(self).id,
            final(self).slice.model() == tag_voted(old(self).slice.model(), *id, *tag, choice),
    {
        let stored = self.slice.shared.entry_mut(&id.0).entry_mut(&id.1).tags.entry_mut(tag);
        stored.0 = cast_vote(stored.0, 4, choice);
        proof {
            let before = old(self).slice.model();
            assert(self.slice.model().1 =~= tag_voted(before, *id, *tag, choice).1);
        }
    }

    /// Votes for the tags in `add` and against the tags in `remove`, on the
    /// message `id`.
    pub fn adjust_tags(&mut self, id: MessageID, add: Vec<Reaction>, remove: Vec<Reaction>)
        requires
            Slice::lawful(),
            old(self).slice.wf(),
        ensures
            final(self).slice.wf(),
            final(self).id == old(self).id,
            final(self).slice.model() == tags_voted(
                tags_voted(old(self).slice.model(), id, add@, 1),
                id,
                remove@,
                2,
            ),
    {
        let ghost before = self.slice.model();
        let mut i: usize = 0;
        assert(add@.take(0) =~= Seq::<Tag>::empty());
        while i < add.len()
            invariant
                Slice::lawful(),
                self.slice.wf(),
                self.id == old(self).id,
                i <= add.len(),
                self.slice.model() == tags_voted(before, id, add@.take(i as int), 1),
            decreases add.len() - i,
        {
            proof {
                assert(add@.take(i + 1).drop_last() =~= add@.take(i as int));
                assert(add@.take(i + 1).last() == add@[i as int]);
            }
            self.vote_tag(&id, &add[i], 1);
            i += 1;
        }
        assert(add@.take(add@.len() as int) =~= add@);
        let ghost added = self.slice.model();
        let mut j: usize = 0;
        assert(remove@.take(0) =~= Seq::<Tag>::empty());
        while j < remove.len()
            invariant
                Slice::lawful(),
                self.slice.wf(),
                self.id == old(self).id,
                j <= remove.len(),
                self.slice.model() == tags_voted(added, id, remove@.take(j as int), 2),
            decreases remove.len() - j,
        {
            proof {
                assert(remove@.take(j + 1).drop_last() =~= remove@.take(j as int));
                assert(remove@.take(j + 1).last() == remove@[j as int]);
            }
            self.vote_tag(&id, &remove[j], 2);
            j += 1;
        }
        assert(remove@.take(remove@.len() as int) =~= remove@);
    }
}

/// The actor's message `id` in the slice; the bottom element where the
/// actor has not come to that number yet.
pub open spec fn message_at(s: SliceModel, id: u64) -> OwnedModel {
    padded::<Owned>(s.0, (id + 1) as nat)[id as int]
}

/// The slice `s`, with `own` as the actor's message `id`.
pub open spec fn with_message(s: SliceModel, id: u64, own: OwnedModel) -> SliceModel {
    (padded::<Owned>(s.0, (id + 1) as nat).update(id as int, own), s.1)
}

/// The vote that `votes` holds under `name`; the vote that says nothing
/// where it holds none.
pub open spec fn vote_at(votes: Map<String, u64>, name: String) -> u64 {
    if votes.dom().contains(name) {
        votes[name]
    } else {
        0
    }
}

/// The slice `s` after a vote on the tag `tag` of the message `id` has been
/// put at `choice`.
pub open spec fn tag_voted(s: SliceModel, id: MessageID, tag: Tag, choice: u64) -> SliceModel {
    let said = shared_at(s, id.0, id.1);
    with_shared(
        s,
        id.0,
        id.1,
        (said.0, (said.1.0.insert(tag, vote_after(vote_at(said.1.0, tag), 4, choice)), said.1.1)),
    )
}

/// The slice `s` after the votes on the tags `tags` of the message `id` have
/// been put at `choice`, one tag after the other.
pub open spec fn tags_voted(s: SliceModel, id: MessageID, tags: Seq<Tag>, choice: u64) -> SliceModel
    decreases tags.len(),
{
    if tags.len() == 0 {
        s
    } else {
        tag_voted(tags_voted(s, id, tags.drop_last(), choice), id, tags.last(), choice)
    }
}

} // verus!
