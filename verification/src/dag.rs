use std::collections::BTreeMap;
use vstd::prelude::*;
use vstd::std_specs::iter::IteratorSpec;

verus! {

/// The 32 bytes that BLAKE3 gives for an input.
pub uninterp spec fn blake3_hash(input: Seq<u8>) -> Seq<u8>;

/// The 32 bytes that BLAKE3 gives for an input under a key.
pub uninterp spec fn blake3_keyed_hash(key: Seq<u8>, input: Seq<u8>) -> Seq<u8>;

/// The 32 bytes that BLAKE3 derives from key material in a context.
pub uninterp spec fn blake3_derive_key(context: Seq<char>, material: Seq<u8>) -> Seq<u8>;

/// `blake3::hash`: the hash of the input. The contract names the result; it
/// is a function of the input alone.
#[verifier::external_body]
fn hash_bytes(input: &[u8]) -> (r: [u8; 32])
    ensures
        r@ == blake3_hash(input@),
{
    *blake3::hash(input).as_bytes()
}

/// `blake3::keyed_hash`: the hash of the input under a key of 32 bytes. The
/// contract names the result; it is a function of the key and the input
/// alone.
#[verifier::external_body]
fn keyed_hash_bytes(key: &[u8; 32], input: &[u8]) -> (r: [u8; 32])
    ensures
        r@ == blake3_keyed_hash(key@, input@),
{
    *blake3::keyed_hash(key, input).as_bytes()
}

/// `blake3::derive_key`: the key that is derived from key material in a
/// context. The contract names the result; it is a function of the context
/// and the material alone.
#[verifier::external_body]
fn derive_key_bytes(context: &str, material: &[u8]) -> (r: [u8; 32])
    ensures
        r@ == blake3_derive_key(context@, material@),
{
    blake3::derive_key(context, material)
}

/// The number that the bytes spell, the first byte counting most.
pub open spec fn be_value(bytes: Seq<u8>) -> nat
    decreases bytes.len(),
{
    if bytes.len() == 0 {
        0
    } else {
        be_value(bytes.drop_last()) * 256 + bytes.last() as nat
    }
}

/// 256 to the power `n`.
pub open spec fn pow256(n: nat) -> nat
    decreases n,
{
    if n == 0 {
        1
    } else {
        256 * pow256((n - 1) as nat)
    }
}

/// The number that `n` bytes spell is below 256 to the power `n`.
pub proof fn lemma_be_value_bound(bytes: Seq<u8>)
    ensures
        be_value(bytes) < pow256(bytes.len()),
    decreases bytes.len(),
{
    if bytes.len() > 0 {
        lemma_be_value_bound(bytes.drop_last());
    }
}

/// The four words of eight bytes each that 32 bytes spell.
pub type Words = (u64, u64, u64, u64);

/// The number that the eight bytes from `at` on spell.
pub open spec fn word_at(bytes: Seq<u8>, at: int) -> nat {
    be_value(bytes.subrange(at, at + 8))
}

/// The words that the bytes spell.
pub open spec fn words_of(bytes: Seq<u8>) -> Words {
    (
        word_at(bytes, 0) as u64,
        word_at(bytes, 8) as u64,
        word_at(bytes, 16) as u64,
        word_at(bytes, 24) as u64,
    )
}

/// The number that the eight bytes from `at` on spell.
fn read_word(bytes: &[u8; 32], at: usize) -> (r: u64)
    requires
        at + 8 <= 32,
    ensures
        r == word_at(bytes@, at as int),
{
    let mut word: u64 = 0;
    let mut i: usize = 0;
    assert(bytes@.subrange(at as int, at as int) =~= Seq::<u8>::empty());
    while i < 8
        invariant
            at + 8 <= 32,
            i <= 8,
            word == be_value(bytes@.subrange(at as int, at + i)),
        decreases 8 - i,
    {
        proof {
            let read = bytes@.subrange(at as int, at + i);
            let next = bytes@.subrange(at as int, at + i + 1);
            assert(next.drop_last() =~= read);
            assert(next.last() == bytes@[at + i]);
            lemma_be_value_bound(read);
            reveal_with_fuel(pow256, 9);
            assert(pow256(i as nat) <= pow256(7)) by {
                reveal_with_fuel(pow256, 9);
            }
            assert(pow256(7) * 256 == 0x1_0000_0000_0000_0000) by {
                reveal_with_fuel(pow256, 9);
            }
        }
        word = word * 256 + bytes[at + i] as u64;
        i += 1;
    }
    word
}

/// A hash: its 32 bytes, and the four words that they spell. The words
/// order the hashes as the bytes do.
#[derive(Debug, Clone, Copy, PartialEq, Eq)]
pub struct Digest {
    pub words: Words,
    pub bytes: [u8; 32],
}

impl Digest {
    /// The words are those that the bytes spell.
    pub open spec fn wf(&self) -> bool {
        self.words == words_of(self.bytes@)
    }

    /// The hash with the bytes `bytes`.
    pub fn from_bytes(bytes: [u8; 32]) -> (r: Self)
        ensures
            r.wf(),
            r.bytes == bytes,
    {
        let words = (
            read_word(&bytes, 0),
            read_word(&bytes, 8),
            read_word(&bytes, 16),
            read_word(&bytes, 24),
        );
        Digest { words, bytes }
    }
}

/// What an event of the graph is.
#[derive(Debug, Clone, Copy, PartialEq, Eq, Structural)]
pub enum EventKind {
    Root,
    CrossReference,
    Message,
}

/// The byte that stands for the kind of an event where the event is hashed.
pub open spec fn kind_byte(kind: EventKind) -> u8 {
    match kind {
        EventKind::Root => 0,
        EventKind::CrossReference => 1,
        EventKind::Message => 2,
    }
}

/// Something that happens to a graph: a message that is added to it, or a
/// reference to the state of another graph.
#[derive(Debug, Clone, Copy, PartialEq, Eq)]
pub struct Event {
    pub kind: EventKind,
    pub hash: Digest,
}

impl Event {
    /// The event that refers to the present state of `dag`.
    pub fn cross_reference(dag: &Dag) -> (r: Self)
        ensures
            r == (Event { kind: EventKind::CrossReference, hash: dag.current }),
    {
        Event { kind: EventKind::CrossReference, hash: dag.current }
    }

    /// The event that adds the message `message`.
    pub fn message(message: &[u8]) -> (r: Self)
        ensures
            r.kind == EventKind::Message,
            r.hash.wf(),
            r.hash.bytes@ == blake3_hash(message@),
    {
        Event { kind: EventKind::Message, hash: Digest::from_bytes(hash_bytes(message)) }
    }
}

/// An event in a graph: the state `root` that it follows, what it is, and
/// the hash of what it adds.
#[derive(Debug, Clone, Copy, PartialEq, Eq)]
pub struct DagEvent {
    pub root: Digest,
    pub hash: Digest,
    pub kind: EventKind,
}

/// What is hashed of an event: the byte of its kind, then the bytes of the
/// hash of what it adds.
pub open spec fn event_input(event: DagEvent) -> Seq<u8> {
    seq![kind_byte(event.kind)] + event.hash.bytes@
}

/// The bytes of the hash of an event: a root event has the hash of its
/// state; any other event is hashed under the state that it follows.
pub open spec fn event_bytes(event: DagEvent) -> Seq<u8> {
    if event.kind == EventKind::Root {
        event.root.bytes@
    } else {
        blake3_keyed_hash(event.root.bytes@, event_input(event))
    }
}

impl DagEvent {
    /// Both hashes of the event are well-formed.
    pub open spec fn wf(&self) -> bool {
        self.root.wf() && self.hash.wf()
    }

    /// The hash of the event, which is the state that follows it.
    pub fn hash(&self) -> (r: Digest)
        requires
            self.wf(),
        ensures
            r.wf(),
            r.bytes@ == event_bytes(*self),
    {
        match self.kind {
            EventKind::Root => self.root,
            _ => {
                let tag: u8 = match self.kind {
                    EventKind::Root => 0,
                    EventKind::CrossReference => 1,
                    EventKind::Message => 2,
                };
                let mut input: Vec<u8> = Vec::new();
                input.push(tag);
                let mut i: usize = 0;
                while i < 32
                    invariant
                        i <= 32,
                        input@ == seq![tag] + self.hash.bytes@.take(i as int),
                    decreases 32 - i,
                {
                    input.push(self.hash.bytes[i]);
                    assert(self.hash.bytes@.take(i + 1) =~= self.hash.bytes@.take(i as int).push(
                        self.hash.bytes@[i as int],
                    ));
                    assert(input@ =~= seq![tag] + self.hash.bytes@.take(i + 1));
                    i += 1;
                }
                assert(self.hash.bytes@.take(32) =~= self.hash.bytes@);
                Digest::from_bytes(keyed_hash_bytes(&self.root.bytes, input.as_slice()))
            },
        }
    }
}

/// A chain of events that several writers extend, each by itself, and merge.
/// Every event is kept under the words of its hash.
#[derive(Debug, Clone)]
pub struct Dag {
    pub current: Digest,
    pub events: BTreeMap<Words, DagEvent>,
}

/// The event is kept under the words of its own hash.
pub open spec fn well_kept(key: Words, event: DagEvent) -> bool {
    key == words_of(event_bytes(event))
}

/// The graph holds what the event builds on: the state that a message
/// follows, or else the state that the event refers to.
pub open spec fn grounded(events: Map<Words, DagEvent>, event: DagEvent) -> bool {
    (events.contains_key(event.root.words) && event.kind == EventKind::Message)
        || events.contains_key(event.hash.words)
}

/// The events of `theirs` that `ours` lacks and that are not kept under
/// their own hash.
pub open spec fn ill_kept(ours: Map<Words, DagEvent>, theirs: Map<Words, DagEvent>) -> Set<Words> {
    Set::new(
        |k: Words| theirs.contains_key(k) && !ours.contains_key(k) && !well_kept(k, theirs[k]),
    )
}

/// The events of `ours`, and those of `theirs` that `ours` lacks and that
/// are kept under their own hash.
pub open spec fn merged(ours: Map<Words, DagEvent>, theirs: Map<Words, DagEvent>) -> Map<
    Words,
    DagEvent,
> {
    Map::new(
        |k: Words| ours.contains_key(k) || (theirs.contains_key(k) && well_kept(k, theirs[k])),
        |k: Words|
            if ours.contains_key(k) {
                ours[k]
            } else {
                theirs[k]
            },
    )
}

impl Dag {
    /// The hashes of the state and of every event are well-formed.
    pub open spec fn wf(&self) -> bool {
        &&& self.current.wf()
        &&& forall|k: Words| #[trigger] self.events@.contains_key(k) ==> self.events@[k].wf()
    }

    /// The graph with the name `id`: it holds its root event alone, whose
    /// hash is derived from the name.
    pub fn new(id: &[u8]) -> (r: Self)
        ensures
            r.wf(),
            r.current.bytes@ == blake3_derive_key("semilattice::dag::Dag::new"@, id@),
            r.events@ == Map::<Words, DagEvent>::empty().insert(
                r.current.words,
                DagEvent { root: r.current, hash: r.current, kind: EventKind::Root },
            ),
    {
        let current = Digest::from_bytes(derive_key_bytes("semilattice::dag::Dag::new", id));
        let mut events = BTreeMap::new();
        events.insert(current.words, DagEvent { root: current, hash: current, kind: EventKind::Root });
        Dag { current, events }
    }

    /// Adds an event after the present state. The hash of the event is the
    /// new state.
    pub fn update(&mut self, event: Event)
        requires
            old(self).wf(),
            event.hash.wf(),
        ensures
            final(self).wf(),
            final(self).current.bytes@ == event_bytes(
                DagEvent { root: old(self).current, hash: event.hash, kind: event.kind },
            ),
            final(self).events@ == old(self).events@.insert(
                final(self).current.words,
                DagEvent { root: old(self).current, hash: event.hash, kind: event.kind },
            ),
    {
        let added = DagEvent { root: self.current, hash: event.hash, kind: event.kind };
        self.current = added.hash();
        self.events.insert(self.current.words, added);
    }

    /// Takes in the events of `other` that this graph lacks. An event that
    /// is not kept under its own hash is left out and counted; the result is
    /// the number of those, as an error, where there are any.
    pub fn merge(&mut self, other: &Self) -> (r: Result<(), usize>)
        requires
            old(self).wf(),
            other.wf(),
        ensures
            final(self).wf(),
            final(self).current == old(self).current,
            final(self).events@ == merged(old(self).events@, other.events@),
            match r {
                Ok(_) => ill_kept(old(self).events@, other.events@).len() == 0,
                Err(n) => n > 0 && n == ill_kept(old(self).events@, other.events@).len(),
            },
    {
        let ghost ours = self.events@;
        let ghost theirs = other.events@;
        let ghost entries: Seq<(&Words, &DagEvent)> = other.events.iter().remaining();
        let ghost mut bad: Set<Words> = Set::empty();
        let mut errors: usize = 0;
        let total = other.events.len();
        for kv in it: other.events.iter()
            invariant
                it.seq() == entries,
                entries.no_duplicates(),
                entries.len() == total,
                other.wf(),
                theirs == other.events@,
                ours == old(self).events@,
                self.wf(),
                self.current == old(self).current,
                forall|x: int|
                    0 <= x < entries.len() ==> theirs.contains_key(*(#[trigger] entries[x]).0)
                        && theirs[*entries[x].0] == *entries[x].1,
                forall|k: Words| #[trigger] theirs.contains_key(k) ==> entries.contains((&k, &theirs[k])),
                bad.finite(),
                bad.len() == errors,
                errors <= it.index(),
                forall|k: Words|
                    bad.contains(k) <==> ill_kept(ours, theirs).contains(k) && exists|x: int|
                        0 <= x < it.index() && *(#[trigger] entries[x]).0 == k,
                forall|k: Words|
                    #![trigger self.events@.contains_key(k)]
                    self.events@.contains_key(k) <==> ours.contains_key(k) || (theirs.contains_key(
                        k,
                    ) && well_kept(k, theirs[k]) && exists|x: int|
                        0 <= x < it.index() && *(#[trigger] entries[x]).0 == k),
                forall|k: Words|
                    #![trigger self.events@[k]]
                    self.events@.contains_key(k) ==> self.events@[k] == merged(ours, theirs)[k],
        {
            let ghost n = it.index() as int;
            let ghost held = self.events@;
            let ghost bad0 = bad;
            let expect = *kv.0;
            let event = *kv.1;
            proof {
                assert(theirs.contains_key(*entries[n].0));
                assert(event.wf());
                // The key has not come up before.
                assert forall|x: int| 0 <= x < n implies *(#[trigger] entries[x]).0 != expect by {
                    if *entries[x].0 == expect {
                        assert(theirs[*entries[x].0] == *entries[x].1);
                        assert(entries[x] == entries[n]);
                    }
                }
            }
            // The events that the graph holds are not checked again.
            let known = self.events.contains_key(&expect);
            proof {
                assert(known == ours.contains_key(expect));
            }
            if !known {
                let found = event.hash();
                let same = found.words.0 == expect.0 && found.words.1 == expect.1 && found.words.2
                    == expect.2 && found.words.3 == expect.3;
                assert(same == well_kept(expect, event));
                if same {
                    self.events.insert(expect, event);
                } else {
                    proof {
                        bad = bad.insert(expect);
                    }
                    errors += 1;
                }
            }
            proof {
                assert forall|k: Words|
                    bad.contains(k) <==> ill_kept(ours, theirs).contains(k) && exists|x: int|
                        0 <= x < n + 1 && *(#[trigger] entries[x]).0 == k by {
                    if k == expect {
                        assert(*entries[n].0 == k);
                    } else {
                        if bad0.contains(k) {
                            let x = choose|x: int| 0 <= x < n && *(#[trigger] entries[x]).0 == k;
                            assert(*entries[x].0 == k);
                        }
                        if exists|x: int| 0 <= x < n + 1 && *(#[trigger] entries[x]).0 == k {
                            let x = choose|x: int|
                                0 <= x < n + 1 && *(#[trigger] entries[x]).0 == k;
                            assert(x < n);
                        }
                    }
                }
                assert forall|k: Words|
                    #![trigger self.events@.contains_key(k)]
                    self.events@.contains_key(k) <==> ours.contains_key(k) || (theirs.contains_key(
                        k,
                    ) && well_kept(k, theirs[k]) && exists|x: int|
                        0 <= x < n + 1 && *(#[trigger] entries[x]).0 == k) by {
                    if k == expect {
                        assert(*entries[n].0 == k);
                    } else {
                        if held.contains_key(k) && !ours.contains_key(k) {
                            let x = choose|x: int| 0 <= x < n && *(#[trigger] entries[x]).0 == k;
                            assert(*entries[x].0 == k);
                        }
                        if exists|x: int| 0 <= x < n + 1 && *(#[trigger] entries[x]).0 == k {
                            let x = choose|x: int|
                                0 <= x < n + 1 && *(#[trigger] entries[x]).0 == k;
                            assert(x < n);
                        }
                    }
                }
            }
        }
        proof {
            assert forall|k: Words| theirs.contains_key(k) implies exists|x: int|
                0 <= x < entries.len() && *(#[trigger] entries[x]).0 == k by {
                let e = (&k, &theirs[k]);
                assert(entries.contains(e));
                let x = choose|x: int| 0 <= x < entries.len() && entries[x] == e;
                assert(*entries[x].0 == k);
            }
            assert(bad =~= ill_kept(ours, theirs));
            assert(self.events@ =~= merged(ours, theirs));
        }
        if errors == 0 {
            Ok(())
        } else {
            Err(errors)
        }
    }

    /// Whether the graph holds what each of its events builds on.
    pub fn is_complete(&self) -> (r: bool)
        requires
            self.wf(),
        ensures
            r == forall|k: Words|
                #[trigger] self.events@.contains_key(k) ==> grounded(self.events@, self.events@[k]),
    {
        let ghost events = self.events@;
        let ghost entries: Seq<(&Words, &DagEvent)> = self.events.iter().remaining();
        let mut complete = true;
        for kv in it: self.events.iter()
            invariant
                it.seq() == entries,
                events == self.events@,
                forall|x: int|
                    0 <= x < entries.len() ==> events.contains_key(*(#[trigger] entries[x]).0)
                        && events[*entries[x].0] == *entries[x].1,
                forall|k: Words| #[trigger] events.contains_key(k) ==> entries.contains((&k, &events[k])),
                complete == forall|x: int|
                    0 <= x < it.index() ==> grounded(events, *(#[trigger] entries[x]).1),
        {
            let event = kv.1;
            let follows = self.events.contains_key(&event.root.words) && event.kind
                == EventKind::Message;
            let refers = self.events.contains_key(&event.hash.words);
            if !(follows || refers) {
                complete = false;
            }
        }
        proof {
            if complete {
                assert forall|k: Words| #[trigger] events.contains_key(k) implies grounded(
                    events,
                    events[k],
                ) by {
                    let e = (&k, &events[k]);
                    assert(entries.contains(e));
                    let x = choose|x: int| 0 <= x < entries.len() && entries[x] == e;
                    assert(grounded(events, *entries[x].1));
                }
            } else {
                let x = choose|x: int|
                    0 <= x < entries.len() && !grounded(events, *(#[trigger] entries[x]).1);
                assert(events.contains_key(*entries[x].0));
            }
        }
        complete
    }
}

} // verus!
