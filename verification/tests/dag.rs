use semilattice::dag::{Dag, DagEvent, Digest, Event, EventKind};

#[test]
fn dag() {
    // Alice and Bob share a common root
    let root = Dag::new(b"Private messages between Alice and Bob");
    let mut alice = root.clone();
    let mut bob = root.clone();

    alice.update(Event::message(b"Welcome back Bob."));

    bob.update(Event::cross_reference(&alice));
    bob.update(Event::message(b"Hey Alice!"));

    alice.update(Event::cross_reference(&bob));
    alice.update(Event::message(b"Are you free for lunch today?"));

    // Bob experiences a hardware fault and reverts to the common root
    let mut bob_2 = root;
    // Bob sees Alice' new messages and his own
    bob_2.update(Event::cross_reference(&alice));
    bob_2.update(Event::cross_reference(&bob));
    bob_2.update(Event::message(
        b"Huh, my computer crashed. Yeah, I'm free. 1230 at our place?",
    ));

    alice.update(Event::cross_reference(&bob_2));
    alice.update(Event::message(b"Ouch. Yeah, 1230 is good. See you there."));

    bob_2.update(Event::cross_reference(&alice));

    // Alice and Bob currently have incomplete graphs.
    assert!(!alice.is_complete());
    assert!(!bob.is_complete());
    assert!(!bob_2.is_complete());

    // If Alice wishes to distribute Bob's events, she only needs to
    // merge his events into her own DAG. This validates any entries
    // she did not already have and discards any invalid entries.
    alice.merge(&bob).expect("Bob produced illegal events!");
    alice.merge(&bob_2).expect("Bob produced illegal events!");
    // The merge did not commit to any of Bob's new events.
    alice.update(Event::cross_reference(&bob));
    alice.update(Event::cross_reference(&bob_2));

    // The DAG is complete if it contains all events.
    assert!(alice.is_complete());
}

#[test]
fn hashes_are_those_of_blake3() {
    let message = Event::message(b"Hey Alice!");
    assert_eq!(message.kind, EventKind::Message);
    assert_eq!(message.hash.bytes, *blake3::hash(b"Hey Alice!").as_bytes());
    assert_eq!(
        Event::message(b"").hash.bytes[..4],
        [0xaf, 0x13, 0x49, 0xb9]
    );

    let dag = Dag::new(b"name");
    let mut hasher = blake3::Hasher::new_derive_key("semilattice::dag::Dag::new");
    hasher.update(b"name");
    assert_eq!(dag.current.bytes, *hasher.finalize().as_bytes());
    assert_eq!(dag.events.len(), 1);
    let root = dag.events[&dag.current.words];
    assert_eq!(root, DagEvent { root: dag.current, hash: dag.current, kind: EventKind::Root });
    assert_eq!(root.hash(), dag.current);

    let event = DagEvent { root: dag.current, hash: message.hash, kind: EventKind::Message };
    let mut hasher = blake3::Hasher::new_keyed(&dag.current.bytes);
    hasher.update(&[2]);
    hasher.update(&message.hash.bytes);
    assert_eq!(event.hash().bytes, *hasher.finalize().as_bytes());
    let refers = DagEvent { kind: EventKind::CrossReference, ..event };
    let mut hasher = blake3::Hasher::new_keyed(&dag.current.bytes);
    hasher.update(&[1]);
    hasher.update(&message.hash.bytes);
    assert_eq!(refers.hash().bytes, *hasher.finalize().as_bytes());
}

#[test]
fn words_spell_the_bytes() {
    let mut bytes = [0u8; 32];
    for (i, b) in bytes.iter_mut().enumerate() {
        *b = i as u8 + 1;
    }
    bytes[24] = 0xff;
    let digest = Digest::from_bytes(bytes);
    assert_eq!(digest.bytes, bytes);
    assert_eq!(
        digest.words,
        (
            0x0102_0304_0506_0708,
            0x090a_0b0c_0d0e_0f10,
            0x1112_1314_1516_1718,
            0xff1a_1b1c_1d1e_1f20
        )
    );
    assert_eq!(Digest::from_bytes([0xff; 32]).words, (u64::MAX, u64::MAX, u64::MAX, u64::MAX));
}

#[test]
fn update_chains_the_events() {
    let mut dag = Dag::new(b"chain");
    let start = dag.current;
    let event = Event::message(b"one");
    dag.update(event);
    let added = DagEvent { root: start, hash: event.hash, kind: EventKind::Message };
    assert_eq!(dag.current, added.hash());
    assert_eq!(dag.events.len(), 2);
    assert_eq!(dag.events[&dag.current.words], added);
    assert!(dag.is_complete());
}

#[test]
fn merge_counts_the_events_that_are_kept_wrongly() {
    let mut ours = Dag::new(b"graph");
    let mut theirs = ours.clone();
    theirs.update(Event::message(b"good"));
    let good = theirs.current;
    // Two events that do not stand under their own hash.
    let forged = DagEvent { root: good, hash: good, kind: EventKind::Message };
    theirs.events.insert((1, 2, 3, 4), forged);
    theirs.events.insert((5, 6, 7, 8), forged);
    // An event of ours is not checked again, whatever they hold under its key.
    theirs.events.insert(ours.current.words, forged);

    let before = ours.clone();
    assert_eq!(ours.merge(&theirs), Err(2));
    assert_eq!(ours.current, before.current);
    assert_eq!(ours.events.len(), 2);
    assert_eq!(ours.events[&before.current.words], before.events[&before.current.words]);
    assert_eq!(ours.events[&good.words], theirs.events[&good.words]);
    assert_eq!(ours.merge(&before), Ok(()));
    assert_eq!(ours.events.len(), 2);
}
