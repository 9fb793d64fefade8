use crate::key::{key_copy, key_lt, total_order};
use crate::lattice::{all_at_least, all_at_most, order_of, partial_ord_helper, Order, SemiLattice};
use crate::map::{has_key, index_of, lemma_entry_at, MapLattice};
use crate::ord::Max;
use crate::redactable::Redactable;
use crate::set::SetLattice;
use crate::threads::{
    ActorID, MessageID, Owned, OwnedModel, Patchset, Reaction, Root, Shared, SharedModel, Slice, Tag,
};
use crate::vec::{padded, VecLattice};
use vstd::prelude::*;

verus! {

/// The votes of the actors on one matter. A vote counts up, and says its
/// remainder by `N`.
#[derive(Debug, Clone, PartialEq)]
pub struct Vote<const N: usize>(pub MapLattice<ActorID, Max<u64>>);

/// The fields of `Vote`, as the product that they form.
pub type VoteFields = MapLattice<ActorID, Max<u64>>;

/// The default value is the bottom element.
impl<const N: usize> Default for Vote<N> {
    fn default() -> (r: Self)
        ensures
            r.wf(),
            r.model() == <Self as SemiLattice>::bottom_model(),
    {
        <Self as SemiLattice>::bottom()
    }
}

impl<const N: usize> SemiLattice for Vote<N> {
    type Model = <VoteFields as SemiLattice>::Model;

    open spec fn model(&self) -> <VoteFields as SemiLattice>::Model {
        self.0.model()
    }

    open spec fn wf(&self) -> bool {
        self.0.wf()
    }

    open spec fn lawful() -> bool {
        <VoteFields as SemiLattice>::lawful()
    }

    open spec fn valid(m: <VoteFields as SemiLattice>::Model) -> bool {
        <VoteFields as SemiLattice>::valid(m)
    }

    open spec fn bottom_model() -> <VoteFields as SemiLattice>::Model {
        <VoteFields as SemiLattice>::bottom_model()
    }

    open spec fn leq(
        a: <VoteFields as SemiLattice>::Model,
        b: <VoteFields as SemiLattice>::Model,
    ) -> bool {
        <VoteFields as SemiLattice>::leq(a, b)
    }

    open spec fn lub(
        a: <VoteFields as SemiLattice>::Model,
        b: <VoteFields as SemiLattice>::Model,
    ) -> <VoteFields as SemiLattice>::Model {
        <VoteFields as SemiLattice>::lub(a, b)
    }

    open spec fn associative() -> bool {
        <VoteFields as SemiLattice>::associative()
    }

    proof fn lemma_wf_valid(v: Self) {
        <VoteFields as SemiLattice>::lemma_wf_valid(v.0);
    }

    proof fn lemma_bottom_valid() {
        <VoteFields as SemiLattice>::lemma_bottom_valid();
    }

    proof fn lemma_lub_valid(
        a: <VoteFields as SemiLattice>::Model,
        b: <VoteFields as SemiLattice>::Model,
    ) {
        <VoteFields as SemiLattice>::lemma_lub_valid(a, b);
    }

    proof fn lemma_leq_reflexive(a: <VoteFields as SemiLattice>::Model) {
        <VoteFields as SemiLattice>::lemma_leq_reflexive(a);
    }

    proof fn lemma_leq_antisymmetric(
        a: <VoteFields as SemiLattice>::Model,
        b: <VoteFields as SemiLattice>::Model,
    ) {
        <VoteFields as SemiLattice>::lemma_leq_antisymmetric(a, b);
    }

    proof fn lemma_leq_transitive(
        a: <VoteFields as SemiLattice>::Model,
        b: <VoteFields as SemiLattice>::Model,
        c: <VoteFields as SemiLattice>::Model,
    ) {
        <VoteFields as SemiLattice>::lemma_leq_transitive(a, b, c);
    }

    proof fn lemma_bottom_least(a: <VoteFields as SemiLattice>::Model) {
        <VoteFields as SemiLattice>::lemma_bottom_least(a);
    }

    proof fn lemma_join_associative(
        a: <VoteFields as SemiLattice>::Model,
        b: <VoteFields as SemiLattice>::Model,
        c: <VoteFields as SemiLattice>::Model,
    ) {
        <VoteFields as SemiLattice>::lemma_join_associative(a, b, c);
    }

    proof fn lemma_join_commutative(
        a: <VoteFields as SemiLattice>::Model,
        b: <VoteFields as SemiLattice>::Model,
    ) {
        <VoteFields as SemiLattice>::lemma_join_commutative(a, b);
    }

    proof fn lemma_join_idempotent(a: <VoteFields as SemiLattice>::Model) {
        <VoteFields as SemiLattice>::lemma_join_idempotent(a);
    }

    proof fn lemma_join_order(
        a: <VoteFields as SemiLattice>::Model,
        b: <VoteFields as SemiLattice>::Model,
    ) {
        <VoteFields as SemiLattice>::lemma_join_order(a, b);
    }

    fn bottom() -> (r: Self) {
        let r = Vote(<MapLattice<ActorID, Max<u64>> as SemiLattice>::bottom());
        assert(r.model() == <VoteFields as SemiLattice>::bottom_model());
        assert(Self::bottom_model() == <VoteFields as SemiLattice>::bottom_model());
        r
    }

    fn compare(&self, other: &Self) -> (r: Option<Order>) {
        self.0.compare(&other.0)
    }

    fn join(self, other: Self) -> (r: Self) {
        Vote(self.0.join(other.0))
    }

    fn replicate(&self) -> (r: Self) {
        Vote(self.0.replicate())
    }
}

/// All that the actors say of one message.
#[derive(Debug, Clone, PartialEq)]
pub struct Comment {
    pub titles: VecLattice<SetLattice<String>>,
    pub content: VecLattice<Redactable<String>>,
    pub responses: SetLattice<MessageID>,
    pub tags: MapLattice<Tag, Vote<4>>,
    pub reactions: MapLattice<Reaction, Vote<2>>,
    pub commits: VecLattice<SetLattice<Patchset>>,
}

/// The fields of `Comment`, as the product that they form.
pub type CommentFields = (
    VecLattice<SetLattice<String>>,
    (
        VecLattice<Redactable<String>>,
        (
            SetLattice<MessageID>,
            (
                MapLattice<Tag, Vote<4>>,
                (MapLattice<Reaction, Vote<2>>, VecLattice<SetLattice<Patchset>>),
            ),
        ),
    ),
);

/// The default value is the bottom element.
impl Default for Comment {
    fn default() -> (r: Self)
        ensures
            r.wf(),
            r.model() == <Self as SemiLattice>::bottom_model(),
    {
        <Self as SemiLattice>::bottom()
    }
}

impl SemiLattice for Comment {
    type Model = <CommentFields as SemiLattice>::Model;

    open spec fn model(&self) -> <CommentFields as SemiLattice>::Model {
        (
            self.titles.model(),
            (
                self.content.model(),
                (
                    self.responses.model(),
                    (self.tags.model(), (self.reactions.model(), self.commits.model())),
                ),
            ),
        )
    }

    open spec fn wf(&self) -> bool {
        &&& self.titles.wf()
        &&& self.content.wf()
        &&& self.responses.wf()
        &&& self.tags.wf()
        &&& self.reactions.wf()
        &&& self.commits.wf()
    }

    open spec fn lawful() -> bool {
        <CommentFields as SemiLattice>::lawful()
    }

    open spec fn valid(m: <CommentFields as SemiLattice>::Model) -> bool {
        <CommentFields as SemiLattice>::valid(m)
    }

    open spec fn bottom_model() -> <CommentFields as SemiLattice>::Model {
        <CommentFields as SemiLattice>::bottom_model()
    }

    open spec fn leq(
        a: <CommentFields as SemiLattice>::Model,
        b: <CommentFields as SemiLattice>::Model,
    ) -> bool {
        <CommentFields as SemiLattice>::leq(a, b)
    }

    open spec fn lub(
        a: <CommentFields as SemiLattice>::Model,
        b: <CommentFields as SemiLattice>::Model,
    ) -> <CommentFields as SemiLattice>::Model {
        <CommentFields as SemiLattice>::lub(a, b)
    }

    open spec fn associative() -> bool {
        <CommentFields as SemiLattice>::associative()
    }

    proof fn lemma_wf_valid(v: Self) {
        <CommentFields as SemiLattice>::lemma_wf_valid(
            (v.titles, (v.content, (v.responses, (v.tags, (v.reactions, v.commits))))),
        );
    }

    proof fn lemma_bottom_valid() {
        <CommentFields as SemiLattice>::lemma_bottom_valid();
    }

    proof fn lemma_lub_valid(
        a: <CommentFields as SemiLattice>::Model,
        b: <CommentFields as SemiLattice>::Model,
    ) {
        <CommentFields as SemiLattice>::lemma_lub_valid(a, b);
    }

    proof fn lemma_leq_reflexive(a: <CommentFields as SemiLattice>::Model) {
        <CommentFields as SemiLattice>::lemma_leq_reflexive(a);
    }

    proof fn lemma_leq_antisymmetric(
        a: <CommentFields as SemiLattice>::Model,
        b: <CommentFields as SemiLattice>::Model,
    ) {
        <CommentFields as SemiLattice>::lemma_leq_antisymmetric(a, b);
    }

    proof fn lemma_leq_transitive(
        a: <CommentFields as SemiLattice>::Model,
        b: <CommentFields as SemiLattice>::Model,
        c: <CommentFields as SemiLattice>::Model,
    ) {
        <CommentFields as SemiLattice>::lemma_leq_transitive(a, b, c);
    }

    proof fn lemma_bottom_least(a: <CommentFields as SemiLattice>::Model) {
        <CommentFields as SemiLattice>::lemma_bottom_least(a);
    }

    proof fn lemma_join_associative(
        a: <CommentFields as SemiLattice>::Model,
        b: <CommentFields as SemiLattice>::Model,
        c: <CommentFields as SemiLattice>::Model,
    ) {
        <CommentFields as SemiLattice>::lemma_join_associative(a, b, c);
    }

    proof fn lemma_join_commutative(
        a: <CommentFields as SemiLattice>::Model,
        b: <CommentFields as SemiLattice>::Model,
    ) {
        <CommentFields as SemiLattice>::lemma_join_commutative(a, b);
    }

    proof fn lemma_join_idempotent(a: <CommentFields as SemiLattice>::Model) {
        <CommentFields as SemiLattice>::lemma_join_idempotent(a);
    }

    proof fn lemma_join_order(
        a: <CommentFields as SemiLattice>::Model,
        b: <CommentFields as SemiLattice>::Model,
    ) {
        <CommentFields as SemiLattice>::lemma_join_order(a, b);
    }

    fn bottom() -> (r: Self) {
        let r = Comment {
            titles: <VecLattice<SetLattice<String>> as SemiLattice>::bottom(),
            content: <VecLattice<Redactable<String>> as SemiLattice>::bottom(),
            responses: <SetLattice<MessageID> as SemiLattice>::bottom(),
            tags: <MapLattice<Tag, Vote<4>> as SemiLattice>::bottom(),
            reactions: <MapLattice<Reaction, Vote<2>> as SemiLattice>::bottom(),
            commits: <VecLattice<SetLattice<Patchset>> as SemiLattice>::bottom(),
        };
        assert(r.model() == <CommentFields as SemiLattice>::bottom_model());
        assert(Self::bottom_model() == <CommentFields as SemiLattice>::bottom_model());
        r
    }

    fn compare(&self, other: &Self) -> (r: Option<Order>) {
        let orders = vec![
            self.titles.compare(&other.titles),
            self.content.compare(&other.content),
            self.responses.compare(&other.responses),
            self.tags.compare(&other.tags),
            self.reactions.compare(&other.reactions),
            self.commits.compare(&other.commits),
        ];
        proof {
            let a = self.model();
            let b = other.model();
            let le0 = <VecLattice<SetLattice<String>> as SemiLattice>::leq(a.0, b.0);
            let ge0 = <VecLattice<SetLattice<String>> as SemiLattice>::leq(b.0, a.0);
            assert(orders@[0] == order_of(le0, ge0));
            let le1 = <VecLattice<Redactable<String>> as SemiLattice>::leq(a.1.0, b.1.0);
            let ge1 = <VecLattice<Redactable<String>> as SemiLattice>::leq(b.1.0, a.1.0);
            assert(orders@[1] == order_of(le1, ge1));
            let le2 = <SetLattice<MessageID> as SemiLattice>::leq(a.1.1.0, b.1.1.0);
            let ge2 = <SetLattice<MessageID> as SemiLattice>::leq(b.1.1.0, a.1.1.0);
            assert(orders@[2] == order_of(le2, ge2));
            let le3 = <MapLattice<Tag, Vote<4>> as SemiLattice>::leq(a.1.1.1.0, b.1.1.1.0);
            let ge3 = <MapLattice<Tag, Vote<4>> as SemiLattice>::leq(b.1.1.1.0, a.1.1.1.0);
            assert(orders@[3] == order_of(le3, ge3));
            let le4 = <MapLattice<Reaction, Vote<2>> as SemiLattice>::leq(a.1.1.1.1.0, b.1.1.1.1.0);
            let ge4 = <MapLattice<Reaction, Vote<2>> as SemiLattice>::leq(b.1.1.1.1.0, a.1.1.1.1.0);
            assert(orders@[4] == order_of(le4, ge4));
            let le5 = <VecLattice<SetLattice<Patchset>> as SemiLattice>::leq(
                a.1.1.1.1.1,
                b.1.1.1.1.1,
            );
            let ge5 = <VecLattice<SetLattice<Patchset>> as SemiLattice>::leq(
                b.1.1.1.1.1,
                a.1.1.1.1.1,
            );
            assert(orders@[5] == order_of(le5, ge5));
            assert(all_at_most(orders@) == (le0 && le1 && le2 && le3 && le4 && le5));
            assert(all_at_least(orders@) == (ge0 && ge1 && ge2 && ge3 && ge4 && ge5));
            assert(Self::leq(a, b) == (le0 && le1 && le2 && le3 && le4 && le5));
            assert(Self::leq(b, a) == (ge0 && ge1 && ge2 && ge3 && ge4 && ge5));
        }
        partial_ord_helper(orders.as_slice())
    }

    fn join(self, other: Self) -> (r: Self) {
        Comment {
            titles: self.titles.join(other.titles),
            content: self.content.join(other.content),
            responses: self.responses.join(other.responses),
            tags: self.tags.join(other.tags),
            reactions: self.reactions.join(other.reactions),
            commits: self.commits.join(other.commits),
        }
    }

    fn replicate(&self) -> (r: Self) {
        Comment {
            titles: self.titles.replicate(),
            content: self.content.replicate(),
            responses: self.responses.replicate(),
            tags: self.tags.replicate(),
            reactions: self.reactions.replicate(),
            commits: self.commits.replicate(),
        }
    }
}

/// The threads as a reader sees them: the messages that start a thread, and
/// for each message what all actors say of it.
#[derive(Debug, Clone, PartialEq)]
pub struct Detailed {
    pub threads: SetLattice<MessageID>,
    pub comments: MapLattice<ActorID, VecLattice<Comment>>,
}

/// The fields of `Detailed`, as the product that they form.
pub type DetailedFields = (SetLattice<MessageID>, MapLattice<ActorID, VecLattice<Comment>>);

/// The default value is the bottom element.
impl Default for Detailed {
    fn default() -> (r: Self)
        ensures
            r.wf(),
            r.model() == <Self as SemiLattice>::bottom_model(),
    {
        <Self as SemiLattice>::bottom()
    }
}

impl SemiLattice for Detailed {
    type Model = <DetailedFields as SemiLattice>::Model;

    open spec fn model(&self) -> <DetailedFields as SemiLattice>::Model {
        (self.threads.model(), self.comments.model())
    }

    open spec fn wf(&self) -> bool {
        self.threads.wf() && self.comments.wf()
    }

    open spec fn lawful() -> bool {
        <DetailedFields as SemiLattice>::lawful()
    }

    open spec fn valid(m: <DetailedFields as SemiLattice>::Model) -> bool {
        <DetailedFields as SemiLattice>::valid(m)
    }

    open spec fn bottom_model() -> <DetailedFields as SemiLattice>::Model {
        <DetailedFields as SemiLattice>::bottom_model()
    }

    open spec fn leq(
        a: <DetailedFields as SemiLattice>::Model,
        b: <DetailedFields as SemiLattice>::Model,
    ) -> bool {
        <DetailedFields as SemiLattice>::leq(a, b)
    }

    open spec fn lub(
        a: <DetailedFields as SemiLattice>::Model,
        b: <DetailedFields as SemiLattice>::Model,
    ) -> <DetailedFields as SemiLattice>::Model {
        <DetailedFields as SemiLattice>::lub(a, b)
    }

    open spec fn associative() -> bool {
        <DetailedFields as SemiLattice>::associative()
    }

    proof fn lemma_wf_valid(v: Self) {
        <DetailedFields as SemiLattice>::lemma_wf_valid((v.threads, v.comments));
    }

    proof fn lemma_bottom_valid() {
        <DetailedFields as SemiLattice>::lemma_bottom_valid();
    }

    proof fn lemma_lub_valid(
        a: <DetailedFields as SemiLattice>::Model,
        b: <DetailedFields as SemiLattice>::Model,
    ) {
        <DetailedFields as SemiLattice>::lemma_lub_valid(a, b);
    }

    proof fn lemma_leq_reflexive(a: <DetailedFields as SemiLattice>::Model) {
        <DetailedFields as SemiLattice>::lemma_leq_reflexive(a);
    }

    proof fn lemma_leq_antisymmetric(
        a: <DetailedFields as SemiLattice>::Model,
        b: <DetailedFields as SemiLattice>::Model,
    ) {
        <DetailedFields as SemiLattice>::lemma_leq_antisymmetric(a, b);
    }

    proof fn lemma_leq_transitive(
        a: <DetailedFields as SemiLattice>::Model,
        b: <DetailedFields as SemiLattice>::Model,
        c: <DetailedFields as SemiLattice>::Model,
    ) {
        <DetailedFields as SemiLattice>::lemma_leq_transitive(a, b, c);
    }

    proof fn lemma_bottom_least(a: <DetailedFields as SemiLattice>::Model) {
        <DetailedFields as SemiLattice>::lemma_bottom_least(a);
    }

    proof fn lemma_join_associative(
        a: <DetailedFields as SemiLattice>::Model,
        b: <DetailedFields as SemiLattice>::Model,
        c: <DetailedFields as SemiLattice>::Model,
    ) {
        <DetailedFields as SemiLattice>::lemma_join_associative(a, b, c);
    }

    proof fn lemma_join_commutative(
        a: <DetailedFields as SemiLattice>::Model,
        b: <DetailedFields as SemiLattice>::Model,
    ) {
        <DetailedFields as SemiLattice>::lemma_join_commutative(a, b);
    }

    proof fn lemma_join_idempotent(a: <DetailedFields as SemiLattice>::Model) {
        <DetailedFields as SemiLattice>::lemma_join_idempotent(a);
    }

    proof fn lemma_join_order(
        a: <DetailedFields as SemiLattice>::Model,
        b: <DetailedFields as SemiLattice>::Model,
    ) {
        <DetailedFields as SemiLattice>::lemma_join_order(a, b);
    }

    fn bottom() -> (r: Self) {
        let r = Detailed {
            threads: <SetLattice<MessageID> as SemiLattice>::bottom(),
            comments: <MapLattice<ActorID, VecLattice<Comment>> as SemiLattice>::bottom(),
        };
        assert(r.model() == <DetailedFields as SemiLattice>::bottom_model());
        assert(Self::bottom_model() == <DetailedFields as SemiLattice>::bottom_model());
        r
    }

    fn compare(&self, other: &Self) -> (r: Option<Order>) {
        let orders = vec![
            self.threads.compare(&other.threads),
            self.comments.compare(&other.comments),
        ];
        proof {
            let a = self.model();
            let b = other.model();
            let le0 = <SetLattice<MessageID> as SemiLattice>::leq(a.0, b.0);
            let ge0 = <SetLattice<MessageID> as SemiLattice>::leq(b.0, a.0);
            assert(orders@[0] == order_of(le0, ge0));
            let le1 = <MapLattice<ActorID, VecLattice<Comment>> as SemiLattice>::leq(a.1, b.1);
            let ge1 = <MapLattice<ActorID, VecLattice<Comment>> as SemiLattice>::leq(b.1, a.1);
            assert(orders@[1] == order_of(le1, ge1));
            assert(all_at_most(orders@) == (le0 && le1));
            assert(all_at_least(orders@) == (ge0 && ge1));
            assert(Self::leq(a, b) == (le0 && le1));
            assert(Self::leq(b, a) == (ge0 && ge1));
        }
        partial_ord_helper(orders.as_slice())
    }

    fn join(self, other: Self) -> (r: Self) {
        Detailed {
            threads: self.threads.join(other.threads),
            comments: self.comments.join(other.comments),
        }
    }

    fn replicate(&self) -> (r: Self) {
        Detailed { threads: self.threads.replicate(), comments: self.comments.replicate() }
    }
}

/// The number of the votes in `entries` that say `choice`.
pub open spec fn votes_saying(entries: Seq<(ActorID, Max<u64>)>, states: usize, choice: int) -> nat
    decreases entries.len(),
{
    if entries.len() == 0 {
        0
    } else {
        let said = if entries.last().1.0 as int % states as int == choice {
            1nat
        } else {
            0nat
        };
        votes_saying(entries.drop_last(), states, choice) + said
    }
}

impl<const N: usize> Vote<N> {
    /// Counts the votes by what they say: the place `i` of the result holds
    /// the number of the votes that say `i`.
    pub fn aggregate(&self) -> (r: [usize; N])
        requires
            N > 0,
        ensures
            forall|choice: int|
                0 <= choice < N ==> #[trigger] r@[choice] == votes_saying(
                    self.0.inner@,
                    N,
                    choice,
                ),
    {
        let mut res = [0usize;N];
        let mut i: usize = 0;
        assert(self.0.inner@.take(0) =~= Seq::<(ActorID, Max<u64>)>::empty());
        while i < self.0.inner.len()
            invariant
                N > 0,
                i <= self.0.inner.len(),
                forall|choice: int|
                    0 <= choice < N ==> #[trigger] res@[choice] == votes_saying(
                        self.0.inner@.take(i as int),
                        N,
                        choice,
                    ),
                forall|choice: int| 0 <= choice < N ==> #[trigger] res@[choice] <= i,
            decreases self.0.inner.len() - i,
        {
            let said = (self.0.inner[i].1.0 % (N as u64)) as usize;
            let ghost before = res@;
            proof {
                assert(self.0.inner@.take(i + 1).drop_last() =~= self.0.inner@.take(i as int));
                assert(self.0.inner@.take(i + 1).last() == self.0.inner@[i as int]);
                assert(before[said as int] <= i);
            }
            let count = res[said];
            res[said] = count + 1;
            i += 1;
        }
        assert(self.0.inner@.take(self.0.inner@.len() as int) =~= self.0.inner@);
        res
    }
}

/// The model of a `Comment`.
pub type CommentModel = <Comment as SemiLattice>::Model;

/// The model of a `Detailed`.
pub type DetailedModel = <Detailed as SemiLattice>::Model;

/// What is said of the message `id` of the actor `who`; the bottom element
/// where nothing is said.
pub open spec fn comment_at(d: DetailedModel, who: ActorID, id: u64) -> CommentModel {
    padded::<Comment>(comments_of(d, who), (id + 1) as nat)[id as int]
}

/// What is said of the messages of the actor `who`.
pub open spec fn comments_of(d: DetailedModel, who: ActorID) -> Seq<CommentModel> {
    if d.1.dom().contains(who) {
        d.1[who]
    } else {
        Seq::empty()
    }
}

/// The view `d` after `said` has been joined to what is said of the message
/// `id` of the actor `who`.
pub open spec fn comment_joined(
    d: DetailedModel,
    who: ActorID,
    id: u64,
    said: CommentModel,
) -> DetailedModel {
    (
        d.0,
        d.1.insert(
            who,
            padded::<Comment>(comments_of(d, who), (id + 1) as nat).update(
                id as int,
                <Comment as SemiLattice>::lub(comment_at(d, who, id), said),
            ),
        ),
    )
}

/// What the message `own` of an actor says of itself.
pub open spec fn comment_of_owned(own: OwnedModel) -> CommentModel {
    (own.0, (own.1.0, (Set::empty(), (Map::empty(), (Map::empty(), own.1.1)))))
}

/// The votes of one actor, each as the votes of all actors that hold that
/// one vote.
pub open spec fn votes_of(voter: ActorID, votes: Map<Tag, u64>) -> Map<Tag, Map<ActorID, u64>> {
    Map::new(
        |t: Tag| votes.dom().contains(t),
        |t: Tag| Map::<ActorID, u64>::empty().insert(voter, votes[t]),
    )
}

/// The replies of one actor, by their full names.
pub open spec fn replies_of(voter: ActorID, replies: Set<u64>) -> Set<MessageID> {
    Set::new(|m: MessageID| m.0 == voter && replies.contains(m.1))
}

/// What the actor `voter` says of a message in `said`.
pub open spec fn comment_of_shared(voter: ActorID, said: SharedModel) -> CommentModel {
    (
        Seq::empty(),
        (
            Seq::empty(),
            (
                replies_of(voter, said.0),
                (votes_of(voter, said.1.0), (votes_of(voter, said.1.1), Seq::empty())),
            ),
        ),
    )
}

/// The view `d` after it has taken in the message `id` of the actor `who`:
/// a message with a title starts a thread.
pub open spec fn owned_seen(d: DetailedModel, who: ActorID, id: u64, own: OwnedModel) -> DetailedModel {
    let threads = if own.0.len() > 0 {
        d.0.insert((who, id))
    } else {
        d.0
    };
    comment_joined((threads, d.1), who, id, comment_of_owned(own))
}

/// The view `d` after it has taken in the messages `owned` of the actor
/// `who`, which are numbered from 0 on.
pub open spec fn all_owned_seen(d: DetailedModel, who: ActorID, owned: Seq<Owned>) -> DetailedModel
    decreases owned.len(),
{
    if owned.len() == 0 {
        d
    } else {
        owned_seen(
            all_owned_seen(d, who, owned.drop_last()),
            who,
            (owned.len() - 1) as u64,
            owned.last().model(),
        )
    }
}

/// The view `d` after it has taken in what the actor `voter` says of the
/// messages `said` of the actor `who`.
pub open spec fn comments_seen(
    d: DetailedModel,
    voter: ActorID,
    who: ActorID,
    said: Seq<(u64, Shared)>,
) -> DetailedModel
    decreases said.len(),
{
    if said.len() == 0 {
        d
    } else {
        comment_joined(
            comments_seen(d, voter, who, said.drop_last()),
            who,
            said.last().0,
            comment_of_shared(voter, said.last().1.model()),
        )
    }
}

/// The view `d` after it has taken in what the actor `voter` says of the
/// messages of all actors.
pub open spec fn all_shared_seen(
    d: DetailedModel,
    voter: ActorID,
    shared: Seq<(ActorID, MapLattice<u64, Shared>)>,
) -> DetailedModel
    decreases shared.len(),
{
    if shared.len() == 0 {
        d
    } else {
        comments_seen(
            all_shared_seen(d, voter, shared.drop_last()),
            voter,
            shared.last().0,
            shared.last().1.inner@,
        )
    }
}

/// The view `d` after it has taken in the slice of the actor `who`.
pub open spec fn slice_seen(d: DetailedModel, who: ActorID, slice: Slice) -> DetailedModel {
    all_shared_seen(all_owned_seen(d, who, slice.owned.inner@), who, slice.shared.inner@)
}

/// The view `d` after it has taken in the slices of the actors, one after
/// the other.
pub open spec fn root_seen(d: DetailedModel, slices: Seq<(ActorID, Slice)>) -> DetailedModel
    decreases slices.len(),
{
    if slices.len() == 0 {
        d
    } else {
        slice_seen(root_seen(d, slices.drop_last()), slices.last().0, slices.last().1)
    }
}

/// Every message that the slice speaks of has a number that can be a place
/// in a vector.
pub open spec fn numbers_fit(slice: Slice) -> bool {
    forall|i: int, j: int|
        0 <= i < slice.shared.inner@.len() && 0 <= j < (#[trigger] slice.shared.inner@[i]).1.inner@.len()
            ==> (#[trigger] slice.shared.inner@[i].1.inner@[j]).0 < usize::MAX
}

/// The replies of one actor, by their full names.
pub fn replies_by(voter: &ActorID, replies: &SetLattice<u64>) -> (r: SetLattice<MessageID>)
    requires
        total_order::<ActorID>(),
        total_order::<MessageID>(),
        replies.wf(),
    ensures
        r.wf(),
        r.model() == replies_of(*voter, replies.model()),
{
    let numbers = replies.keys();
    let mut names: Vec<MessageID> = Vec::new();
    let mut i: usize = 0;
    while i < numbers.len()
        invariant
            total_order::<ActorID>(),
            i <= numbers.len(),
            names@.len() == i,
            forall|x: int| 0 <= x < i ==> #[trigger] names@[x] == (*voter, *numbers@[x]),
        decreases numbers.len() - i,
    {
        names.push((key_copy(voter), *numbers[i]));
        i += 1;
    }
    let r = SetLattice::from_keys(names);
    proof {
        let want = replies_of(*voter, replies.model());
        assert forall|m: MessageID| r.model().contains(m) <==> want.contains(m) by {
            if names@.contains(m) {
                let x = choose|x: int| 0 <= x < names@.len() && names@[x] == m;
                assert(names@[x] == (*voter, *numbers@[x]));
                assert(replies.inner.inner@[x].0 == m.1);
                assert(has_key(replies.inner.inner@, m.1));
            }
            if want.contains(m) {
                let x = index_of(replies.inner.inner@, m.1);
                assert(names@[x] == (*voter, *numbers@[x]));
                assert(names@[x] == m);
            }
        }
        assert(r.model() =~= want);
    }
    r
}

/// The votes of one actor, each as the votes of all actors that hold that
/// one vote.
pub fn votes_by<const N: usize>(voter: &ActorID, votes: &MapLattice<Tag, Max<u64>>) -> (r:
    MapLattice<Tag, Vote<N>>)
    requires
        total_order::<ActorID>(),
        total_order::<Tag>(),
        votes.wf(),
    ensures
        r.wf(),
        r.model() == votes_of(*voter, votes.model()),
{
    let mut inner: Vec<(Tag, Vote<N>)> = Vec::new();
    let mut i: usize = 0;
    while i < votes.inner.len()
        invariant
            total_order::<ActorID>(),
            total_order::<Tag>(),
            votes.wf(),
            i <= votes.inner.len(),
            inner@.len() == i,
            forall|x: int|
                0 <= x < i ==> (#[trigger] inner@[x]).0 == votes.inner@[x].0 && inner@[x].1.wf()
                    && inner@[x].1.model() == Map::<ActorID, u64>::empty().insert(
                    *voter,
                    votes.inner@[x].1.0,
                ),
        decreases votes.inner.len() - i,
    {
        let vote = Vote(MapLattice::singleton(key_copy(voter), Max(votes.inner[i].1.0)));
        inner.push((key_copy(&votes.inner[i].0), vote));
        i += 1;
    }
    let r = MapLattice { inner };
    proof {
        let s = votes.inner@;
        let t = r.inner@;
        assert forall|p: int, q: int| 0 <= p < q < t.len() implies key_lt(
            #[trigger] t[p].0,
            #[trigger] t[q].0,
        ) by {
            assert(key_lt(s[p].0, s[q].0));
        }
        let got = r.model();
        let want = votes_of(*voter, votes.model());
        assert forall|k: Tag| got.dom().contains(k) <==> want.dom().contains(k) by {
            if got.dom().contains(k) {
                let x = index_of(t, k);
                assert(s[x].0 == k);
            }
            if votes.model().dom().contains(k) {
                let x = index_of(s, k);
                assert(t[x].0 == k);
            }
        }
        assert forall|k: Tag| got.dom().contains(k) implies #[trigger] got[k] == want[k] by {
            let x = index_of(t, k);
            lemma_entry_at(t, x);
            lemma_entry_at(s, x);
        }
        assert(got =~= want);
    }
    r
}

impl Detailed {
    /// Joins `said` to what is said of the message `id` of the actor `who`.
    pub fn join_comment(&mut self, who: &ActorID, id: u64, said: Comment)
        requires
            Detailed::lawful(),
            old(self).wf(),
            said.wf(),
            id < usize::MAX,
        ensures
            final(self).wf(),
            final(self).model() == comment_joined(old(self).model(), *who, id, said.model()),
    {
        let place = self.comments.entry_mut(who).entry_mut(id);
        place.join_assign(said);
        proof {
            assert(self.model().1 =~= comment_joined(old(self).model(), *who, id, said.model()).1);
        }
    }

    /// Takes in the message `id` of the actor `who`.
    pub fn join_owned(&mut self, who: &ActorID, id: u64, own: Owned)
        requires
            Detailed::lawful(),
            old(self).wf(),
            own.wf(),
            id < usize::MAX,
        ensures
            final(self).wf(),
            final(self).model() == owned_seen(old(self).model(), *who, id, own.model()),
    {
        if own.titles.inner.len() > 0 {
            self.threads.insert((key_copy(who), id));
        }
        let said = Comment {
            titles: own.titles,
            content: own.content,
            responses: SetLattice::bottom(),
            tags: MapLattice::bottom(),
            reactions: MapLattice::bottom(),
            commits: own.commits,
        };
        proof {
            assert(said.model() == comment_of_owned(own.model())) by {
                assert(said.responses.model() == Set::<MessageID>::empty());
                assert(said.tags.model() =~= Map::<Tag, Map<ActorID, u64>>::empty());
                assert(said.reactions.model() =~= Map::<Reaction, Map<ActorID, u64>>::empty());
            }
        }
        self.join_comment(who, id, said);
    }

    /// Takes in what the actor `voter` says of the message `id` of the
    /// actor `who`.
    pub fn join_shared(&mut self, voter: &ActorID, who: &ActorID, id: u64, said: &Shared)
        requires
            Detailed::lawful(),
            old(self).wf(),
            said.wf(),
            id < usize::MAX,
        ensures
            final(self).wf(),
            final(self).model() == comment_joined(
                old(self).model(),
                *who,
                id,
                comment_of_shared(*voter, said.model()),
            ),
    {
        let comment = Comment {
            titles: VecLattice::bottom(),
            content: VecLattice::bottom(),
            responses: replies_by(voter, &said.responses),
            tags: votes_by(voter, &said.tags),
            reactions: votes_by(voter, &said.reactions),
            commits: VecLattice::bottom(),
        };
        proof {
            assert(comment.model() == comment_of_shared(*voter, said.model())) by {
                assert(comment.titles.model() == Seq::<Set<String>>::empty());
                assert(comment.content.model() == Seq::<Redactable<String>>::empty());
                assert(comment.commits.model() == Seq::<Set<Patchset>>::empty());
            }
        }
        self.join_comment(who, id, comment);
    }

    /// Takes in the slice of the actor `who`.
    pub fn join_slice(&mut self, who: &ActorID, slice: Slice)
        requires
            Detailed::lawful(),
            old(self).wf(),
            slice.wf(),
            numbers_fit(slice),
        ensures
            final(self).wf(),
            final(self).model() == slice_seen(old(self).model(), *who, slice),
    {
        let ghost start = self.model();
        let ghost owned = slice.owned.inner@;
        let ghost shared = slice.shared.inner@;
        let Slice { owned: own, shared: said } = slice;
        assert(own.inner.len() <= usize::MAX);
        assert(owned.take(0) =~= Seq::<Owned>::empty());
        let mut id: u64 = 0;
        for message in it: own.inner
            invariant
                Detailed::lawful(),
                self.wf(),
                it.seq() == owned,
                owned.len() <= usize::MAX,
                id == it.index(),
                forall|x: int| 0 <= x < owned.len() ==> (#[trigger] owned[x]).wf(),
                self.model() == all_owned_seen(start, *who, owned.take(it.index() as int)),
        {
            proof {
                let n = it.index() as int;
                assert(owned.take(n + 1).drop_last() =~= owned.take(n));
                assert(owned.take(n + 1).last() == owned[n]);
                assert(owned[n].wf());
            }
            self.join_owned(who, id, message);
            id += 1;
        }
        assert(owned.take(owned.len() as int) =~= owned);
        let ghost seen = self.model();
        let mut i: usize = 0;
        assert(shared.take(0) =~= Seq::<(ActorID, MapLattice<u64, Shared>)>::empty());
        while i < said.inner.len()
            invariant
                Detailed::lawful(),
                self.wf(),
                said.wf(),
                said.inner@ == shared,
                numbers_fit(slice),
                slice.shared.inner@ == shared,
                i <= said.inner.len(),
                self.model() == all_shared_seen(seen, *who, shared.take(i as int)),
            decreases said.inner.len() - i,
        {
            let ghost before = self.model();
            let of_actor = &said.inner[i].1;
            let mut j: usize = 0;
            assert(of_actor.inner@.take(0) =~= Seq::<(u64, Shared)>::empty());
            while j < of_actor.inner.len()
                invariant
                    Detailed::lawful(),
                    self.wf(),
                    said.wf(),
                    said.inner@ == shared,
                    numbers_fit(slice),
                    slice.shared.inner@ == shared,
                    i < said.inner.len(),
                    *of_actor == shared[i as int].1,
                    j <= of_actor.inner.len(),
                    self.model() == comments_seen(
                        before,
                        *who,
                        shared[i as int].0,
                        of_actor.inner@.take(j as int),
                    ),
                decreases of_actor.inner.len() - j,
            {
                proof {
                    assert(of_actor.inner@.take(j + 1).drop_last() =~= of_actor.inner@.take(
                        j as int,
                    ));
                    assert(of_actor.inner@.take(j + 1).last() == of_actor.inner@[j as int]);
                    assert(shared[i as int].1.inner@[j as int].0 < usize::MAX);
                    assert(shared[i as int].1.wf());
                    assert(of_actor.inner@[j as int].1.wf());
                }
                self.join_shared(who, &said.inner[i].0, of_actor.inner[j].0, &of_actor.inner[j].1);
                j += 1;
            }
            proof {
                assert(of_actor.inner@.take(of_actor.inner@.len() as int) =~= of_actor.inner@);
                assert(shared.take(i + 1).drop_last() =~= shared.take(i as int));
                assert(shared.take(i + 1).last() == shared[i as int]);
            }
            i += 1;
        }
        assert(shared.take(shared.len() as int) =~= shared);
    }

    /// The view that has taken in the slices of all actors in `other`, one
    /// actor after the other: of each actor first the messages of its own,
    /// then what it says of the messages of others.
    pub fn join_root(self, other: Root) -> (r: Self)
        requires
            Detailed::lawful(),
            self.wf(),
            other.wf(),
            forall|i: int|
                0 <= i < other.inner.inner@.len() ==> numbers_fit((#[trigger] other.inner.inner@[i]).1),
        ensures
            r.wf(),
            r.model() == root_seen(self.model(), other.inner.inner@),
    {
        let ghost start = self.model();
        let ghost slices = other.inner.inner@;
        let mut view = self;
        assert(slices.take(0) =~= Seq::<(ActorID, Slice)>::empty());
        for entry in it: other.inner.inner
            invariant
                Detailed::lawful(),
                view.wf(),
                it.seq() == slices,
                forall|x: int|
                    0 <= x < slices.len() ==> (#[trigger] slices[x]).1.wf() && numbers_fit(
                        slices[x].1,
                    ),
                view.model() == root_seen(start, slices.take(it.index() as int)),
        {
            proof {
                let n = it.index() as int;
                assert(slices.take(n + 1).drop_last() =~= slices.take(n));
                assert(slices.take(n + 1).last() == slices[n]);
                assert(slices[n].1.wf());
            }
            let (who, slice) = entry;
            view.join_slice(&who, slice);
        }
        assert(slices.take(slices.len() as int) =~= slices);
        view
    }
}

} // verus!
