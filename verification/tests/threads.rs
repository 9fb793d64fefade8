use semilattice::threads::{cast_vote, Actor, Owned, Root, Shared, Slice};
use semilattice::{
    MapLattice, Max, Order, Redactable, SemiLattice, SetLattice, VecLattice,
};

fn text(s: &str) -> String {
    s.to_owned()
}

#[test]
fn votes_count_up_to_the_choice() {
    // Reactions: 0 is against, 1 is for.
    assert_eq!(cast_vote(0, 2, 1), 1);
    assert_eq!(cast_vote(1, 2, 1), 1);
    assert_eq!(cast_vote(1, 2, 0), 2);
    assert_eq!(cast_vote(2, 2, 0), 2);
    // Tags: 0 is neutral, 1 is for, 2 is against.
    assert_eq!(cast_vote(0, 4, 1), 1);
    assert_eq!(cast_vote(1, 4, 1), 1);
    assert_eq!(cast_vote(2, 4, 1), 5);
    assert_eq!(cast_vote(3, 4, 1), 5);
    assert_eq!(cast_vote(0, 4, 2), 2);
    assert_eq!(cast_vote(1, 4, 2), 2);
    assert_eq!(cast_vote(2, 4, 2), 2);
    assert_eq!(cast_vote(3, 4, 2), 6);
    assert_eq!(cast_vote(7, 4, 0), 8);
    // A vote that cannot count up any more stays.
    assert_eq!(cast_vote(u64::MAX, 2, 0), u64::MAX);
    assert_eq!(cast_vote(u64::MAX, 2, 1), u64::MAX);
    assert_eq!(cast_vote(u64::MAX - 1, 4, 1), u64::MAX - 1);
    assert_eq!(cast_vote(u64::MAX - 1, 4, 3), u64::MAX);
}

#[test]
fn an_actor_writes_into_its_slice() {
    let mut slice = Slice::bottom();
    let mut alice = Actor::new(&mut slice, text("alice"));

    let thread = alice.new_thread(text("Title"), text("Hello"), vec![text("bug"), text("ui")]);
    assert_eq!(thread, (text("alice"), 0));
    let reply = alice.reply((text("bob"), 7), text("I agree"));
    assert_eq!(reply, (text("alice"), 1));
    assert_eq!(alice.edit(0, text("Hello again")), 1);
    alice.redact(0, 0);
    alice.redact(1, 2);
    alice.react((text("bob"), 7), text(":+1:"), true);
    alice.react((text("bob"), 7), text(":-1:"), false);
    alice.react((text("bob"), 7), text(":+1:"), false);
    alice.adjust_tags(thread.clone(), vec![text("regression")], vec![text("ui"), text("spam")]);
    alice.adjust_tags(thread.clone(), vec![text("ui")], vec![]);

    let want = Slice {
        owned: VecLattice {
            inner: vec![
                Owned {
                    titles: VecLattice::singleton(SetLattice::singleton(text("Title"))),
                    content: VecLattice {
                        inner: vec![Redactable::Redacted, Redactable::Data(text("Hello again"))],
                    },
                    commits: VecLattice::bottom(),
                },
                Owned {
                    titles: VecLattice::bottom(),
                    content: VecLattice {
                        inner: vec![
                            Redactable::Data(text("I agree")),
                            Redactable::Uninitialized,
                            Redactable::Redacted,
                        ],
                    },
                    commits: VecLattice::bottom(),
                },
            ],
        },
        shared: MapLattice::from_entries(vec![
            (
                text("alice"),
                MapLattice::singleton(
                    0,
                    Shared {
                        responses: SetLattice::bottom(),
                        tags: MapLattice::from_entries(vec![
                            (text("bug"), Max(1)),
                            (text("regression"), Max(1)),
                            (text("spam"), Max(2)),
                            (text("ui"), Max(5)),
                        ]),
                        reactions: MapLattice::bottom(),
                    },
                ),
            ),
            (
                text("bob"),
                MapLattice::singleton(
                    7,
                    Shared {
                        responses: SetLattice::singleton(1),
                        tags: MapLattice::bottom(),
                        reactions: MapLattice::from_entries(vec![
                            (text(":+1:"), Max(2)),
                            (text(":-1:"), Max(0)),
                        ]),
                    },
                ),
            ),
        ]),
    };
    assert_eq!(slice, want);
}

#[test]
fn slices_of_two_devices_join() {
    let mut laptop = Slice::bottom();
    let mut phone = Slice::bottom();
    Actor::new(&mut laptop, text("alice")).new_thread(text("T"), text("first"), vec![]);
    Actor::new(&mut phone, text("alice")).react((text("alice"), 0), text(":tada:"), true);
    Actor::new(&mut phone, text("alice")).redact(0, 0);

    assert_eq!(laptop.compare(&phone), None);
    let both = laptop.clone().join(phone.clone());
    assert_eq!(both, phone.clone().join(laptop.clone()));
    assert_eq!(both.compare(&laptop), Some(Order::Greater));
    assert_eq!(both.compare(&phone), Some(Order::Greater));
    assert_eq!(both.owned.inner[0].content.inner, vec![Redactable::Redacted]);
    assert_eq!(
        both.owned.inner[0].titles,
        VecLattice::singleton(SetLattice::singleton(text("T")))
    );

    let mut root = Root::bottom();
    root.inner.entry_mut(&text("alice")).join_assign(laptop);
    root.inner.entry_mut(&text("alice")).join_assign(phone);
    assert_eq!(root.inner.entry(&text("alice")), Some(&both));
    assert_eq!(Root::bottom().compare(&root), Some(Order::Less));
}
