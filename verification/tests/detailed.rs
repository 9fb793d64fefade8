use semilattice::detailed::{Comment, Detailed, Vote};
use semilattice::threads::{Actor, Root, Slice};
use semilattice::{MapLattice, Max, Redactable, SemiLattice, SetLattice, VecLattice};

fn text(s: &str) -> String {
    s.to_owned()
}

#[test]
fn votes_are_counted_by_what_they_say() {
    let votes = |entries: &[(&str, u64)]| {
        MapLattice::from_entries(entries.iter().map(|(k, v)| (text(k), Max(*v))).collect())
    };
    assert_eq!(Vote::<2>(votes(&[])).aggregate(), [0, 0]);
    assert_eq!(
        Vote::<2>(votes(&[("a", 0), ("b", 1), ("c", 3), ("d", 4), ("e", 7)])).aggregate(),
        [2, 3]
    );
    assert_eq!(
        Vote::<4>(votes(&[("a", 1), ("b", 2), ("c", 5), ("d", 4), ("e", 7), ("f", 9)])).aggregate(),
        [1, 3, 1, 1]
    );
    assert_eq!(Vote::<1>(votes(&[("a", 1), ("b", 2)])).aggregate(), [2]);
}

#[test]
fn the_view_takes_in_the_slices_of_all_actors() {
    let mut alice = Slice::bottom();
    let mut bob = Slice::bottom();

    let thread =
        Actor::new(&mut alice, text("alice")).new_thread(text("Issue"), text("Hello"), vec![text("bug")]);
    let reply = Actor::new(&mut bob, text("bob")).reply(thread.clone(), text("Me too"));
    Actor::new(&mut bob, text("bob")).adjust_tags(thread.clone(), vec![text("bug")], vec![text("ui")]);
    Actor::new(&mut alice, text("alice")).react(reply.clone(), text(":+1:"), true);
    Actor::new(&mut bob, text("bob")).redact(0, 0);

    let mut root = Root::bottom();
    root.inner.entry_mut(&text("alice")).join_assign(alice);
    root.inner.entry_mut(&text("bob")).join_assign(bob);

    let view = Detailed::bottom().join_root(root.clone());

    let votes = |entries: &[(&str, u64)]| {
        MapLattice::from_entries(entries.iter().map(|(k, v)| (text(k), Max(*v))).collect())
    };
    let want = Detailed {
        threads: SetLattice::singleton((text("alice"), 0)),
        comments: MapLattice::from_entries(vec![
            (
                text("alice"),
                VecLattice::singleton(Comment {
                    titles: VecLattice::singleton(SetLattice::singleton(text("Issue"))),
                    content: VecLattice::singleton(Redactable::Data(text("Hello"))),
                    responses: SetLattice::singleton((text("bob"), 0)),
                    tags: MapLattice::from_entries(vec![
                        (text("bug"), Vote(votes(&[("alice", 1), ("bob", 1)]))),
                        (text("ui"), Vote(votes(&[("bob", 2)]))),
                    ]),
                    reactions: MapLattice::bottom(),
                    commits: VecLattice::bottom(),
                }),
            ),
            (
                text("bob"),
                VecLattice::singleton(Comment {
                    titles: VecLattice::bottom(),
                    content: VecLattice::singleton(Redactable::Redacted),
                    responses: SetLattice::bottom(),
                    tags: MapLattice::bottom(),
                    reactions: MapLattice::singleton(text(":+1:"), Vote(votes(&[("alice", 1)]))),
                    commits: VecLattice::bottom(),
                }),
            ),
        ]),
    };
    assert_eq!(view, want);
    // Taking the same slices in again changes nothing.
    assert_eq!(view.clone().join_root(root), want);
    assert_eq!(want.comments.inner[0].1.inner[0].tags.inner[0].1.aggregate(), [0, 2, 0, 0]);
    assert_eq!(want.comments.inner[0].1.inner[0].tags.inner[1].1.aggregate(), [0, 0, 1, 0]);
}
