//! The session manager: it accepts connections, dispatches what they send,
//! hands out what waits for them, and tears them down.
//!
//! Every operation is one step from a state and an event to the next state.
//! The caller owns the sockets: it reports what arrived and writes what the
//! session hands out.

use vstd::prelude::*;
use crate::codec::{decode, decoding, encode, encoding, CodecError};
use crate::message::{Message, MessageModel};
use crate::outbound::{delivered, Broadcaster};
use crate::participant::{Participant, Placement};
use crate::registry::{distinct_keys, has_identity, has_key, lemma_position, position_of, Registry};

verus! {

/// Why a connection was not accepted.
#[derive(Clone, Copy, Debug, PartialEq, Eq, Structural)]
pub enum AcceptError {
    /// A live connection already has the key.
    DuplicateKey,
    /// Every identity has been given out.
    IdentitiesExhausted,
}

/// What became of a message that a connection sent.
#[derive(Clone, Copy, Debug, PartialEq, Eq, Structural)]
pub enum Dispatch {
    /// A snapshot was queued for the sender.
    SnapshotQueued,
    /// The sender's position was updated and relayed to the others.
    Relayed,
    /// The sender is no longer known; nothing was done.
    Dropped,
    /// The message is none that a client may send; nothing was done.
    Ignored,
}

/// The state of a session: the participants, oldest first; what waits for
/// each connection, oldest first; the identity that the next newcomer gets.
pub struct SessionModel {
    pub participants: Seq<Participant>,
    pub queues: Map<u64, Seq<MessageModel>>,
    pub next_identity: u64,
}

/// No two entries of `list` carry one identity.
pub open spec fn distinct_identities(list: Seq<Participant>) -> bool {
    forall|i: int, j: int|
        0 <= i < j < list.len() ==> #[trigger] list[i].identity != #[trigger] list[j].identity
}

/// The invariant of a session: one participant per key, a queue for each
/// participant and for no one else, identities distinct and all of them
/// given out already.
pub open spec fn valid(s: SessionModel) -> bool {
    &&& distinct_keys(s.participants)
    &&& distinct_identities(s.participants)
    &&& forall|k: u64| has_key(s.participants, k) <==> #[trigger] s.queues.contains_key(k)
    &&& forall|i: int|
        0 <= i < s.participants.len() ==> #[trigger] s.participants[i].identity < s.next_identity
}

/// The session before anyone connected.
pub open spec fn initial() -> SessionModel {
    SessionModel {
        participants: Seq::empty(),
        queues: Map::empty(),
        next_identity: 1,
    }
}

/// The state after a connection with a fresh key was accepted: the newcomer
/// is the last participant, its queue holds its `Connect`, and every other
/// queue has the announcement of the newcomer at its end.
pub open spec fn accepted(s: SessionModel, key: u64, placement: Placement) -> SessionModel {
    let newcomer = Participant::spawned(s.next_identity, key, placement);
    SessionModel {
        participants: s.participants.push(newcomer),
        queues: delivered(
            s.queues.insert(key, seq![MessageModel::Connect { identity: s.next_identity }]),
            key,
            MessageModel::OtherPlayerJoined { participant: newcomer },
        ),
        next_identity: (s.next_identity + 1) as u64,
    }
}

/// The state after the connection `key` was torn down: its participant and
/// its queue are gone, and every remaining queue has the announcement of
/// the departure at its end. Where `key` is not live, nothing changes.
pub open spec fn torn_down(s: SessionModel, key: u64) -> SessionModel {
    if has_key(s.participants, key) {
        let at = position_of(s.participants, key);
        SessionModel {
            participants: s.participants.remove(at),
            queues: delivered(
                s.queues.remove(key),
                key,
                MessageModel::Disconnect { identity: s.participants[at].identity },
            ),
            next_identity: s.next_identity,
        }
    } else {
        s
    }
}

/// The state after the connection `key` sent `message`. A request for a
/// snapshot puts the list of participants at the end of the sender's own
/// queue. A move sets the sender's position and puts the move, under the
/// sender's identity, at the end of every other queue. Anything else, and
/// anything from a connection that is not live, changes nothing.
pub open spec fn dispatched(s: SessionModel, key: u64, message: MessageModel) -> SessionModel {
    match message {
        MessageModel::RequestSnapshot => if s.queues.contains_key(key) {
            SessionModel {
                queues: s.queues.insert(
                    key,
                    s.queues[key].push(
                        MessageModel::PlayerMapSnapshot { participants: s.participants },
                    ),
                ),
                ..s
            }
        } else {
            s
        },
        MessageModel::Move { identity: _, x, y } => if has_key(s.participants, key) {
            let at = position_of(s.participants, key);
            let sender = s.participants[at];
            SessionModel {
                participants: s.participants.update(at, sender.moved_to(x, y)),
                queues: delivered(
                    s.queues,
                    key,
                    MessageModel::Move { identity: sender.identity, x, y },
                ),
                ..s
            }
        } else {
            s
        },
        _ => s,
    }
}

/// What the session reports of a message from the connection `key`.
pub open spec fn outcome(s: SessionModel, key: u64, message: MessageModel) -> Dispatch {
    match message {
        MessageModel::RequestSnapshot => if s.queues.contains_key(key) {
            Dispatch::SnapshotQueued
        } else {
            Dispatch::Dropped
        },
        MessageModel::Move { .. } => if has_key(s.participants, key) {
            Dispatch::Relayed
        } else {
            Dispatch::Dropped
        },
        _ => Dispatch::Ignored,
    }
}

/// The state after the oldest message waiting for `key` was handed out.
pub open spec fn drained(s: SessionModel, key: u64) -> SessionModel {
    if s.queues.contains_key(key) && s.queues[key].len() > 0 {
        SessionModel { queues: s.queues.insert(key, s.queues[key].drop_first()), ..s }
    } else {
        s
    }
}

/// A session: the registry, the broadcast targets and the identity counter.
pub struct Session {
    registry: Registry,
    outbound: Broadcaster,
    next_identity: u64,
}

impl View for Session {
    type V = SessionModel;

    closed spec fn view(&self) -> SessionModel {
        SessionModel {
            participants: self.registry@,
            queues: self.outbound@,
            next_identity: self.next_identity,
        }
    }
}

impl Session {
    /// The invariant of the parts and of the whole.
    pub closed spec fn wf(&self) -> bool {
        self.registry.wf() && self.outbound.wf() && valid(self@)
    }

    /// What `wf` says of the state.
    pub proof fn lemma_wf_valid(&self)
        requires
            self.wf(),
        ensures
            valid(self@),
    {
    }

    /// A session without connections. The first identity it gives out is 1.
    pub fn new() -> (session: Session)
        ensures
            session.wf(),
            session@ == initial(),
    {
        Session { registry: Registry::new(), outbound: Broadcaster::new(), next_identity: 1 }
    }

    /// A session without connections whose first newcomer gets `first`.
    pub fn starting_at(first: u64) -> (session: Session)
        ensures
            session.wf(),
            session@ == (SessionModel { next_identity: first, ..initial() }),
    {
        Session { registry: Registry::new(), outbound: Broadcaster::new(), next_identity: first }
    }

    /// Accepts the connection `key`: gives it the next identity, files its
    /// participant, opens its queue with its `Connect`, and announces it to
    /// everyone else. A key that is live is refused and nothing changes.
    pub fn accept(&mut self, key: u64, placement: Placement) -> (r: Result<u64, AcceptError>)
        requires
            old(self).wf(),
        ensures
            final(self).wf(),
            has_key(old(self)@.participants, key) ==> r == Err::<u64, AcceptError>(
                AcceptError::DuplicateKey,
            ) && final(self)@ == old(self)@,
            !has_key(old(self)@.participants, key) && old(self)@.next_identity == u64::MAX ==> r
                == Err::<u64, AcceptError>(AcceptError::IdentitiesExhausted) && final(self)@
                == old(self)@,
            !has_key(old(self)@.participants, key) && old(self)@.next_identity < u64::MAX ==> r
                == Ok::<u64, AcceptError>(old(self)@.next_identity) && final(self)@ == accepted(
                old(self)@,
                key,
                placement,
            ),
    {
        if self.registry.contains(key) {
            return Err(AcceptError::DuplicateKey);
        }
        if self.next_identity == u64::MAX {
            return Err(AcceptError::IdentitiesExhausted);
        }
        let identity = self.next_identity;
        let newcomer = Participant::spawn(identity, key, placement);
        let _ = self.registry.insert(key, newcomer);
        let _ = self.outbound.register(key);
        let _ = self.outbound.send(key, Message::Connect { identity });
        self.outbound.broadcast(key, &Message::OtherPlayerJoined { participant: newcomer });
        self.next_identity = identity + 1;
        proof {
            lemma_accepted_valid(old(self)@, key, placement);
            assert(self@.queues =~= accepted(old(self)@, key, placement).queues);
        }
        Ok(identity)
    }

    /// Tears the connection `key` down: strikes it from the broadcast
    /// targets, takes its participant out of the registry, and announces the
    /// departure, under the identity just taken out, to everyone who remains.
    /// Returns that participant. Where `key` is not live nothing changes.
    pub fn teardown(&mut self, key: u64) -> (gone: Option<Participant>)
        requires
            old(self).wf(),
        ensures
            final(self).wf(),
            final(self)@ == torn_down(old(self)@, key),
            has_key(old(self)@.participants, key) ==> gone == Some(
                old(self)@.participants[position_of(old(self)@.participants, key)],
            ),
            !has_key(old(self)@.participants, key) ==> gone is None,
    {
        let _ = self.outbound.unregister(key);
        let gone = self.registry.remove(key);
        match gone {
            Some(participant) => {
                self.outbound.broadcast(key, &Message::Disconnect { identity: participant.identity });
                proof {
                    lemma_torn_down_valid(old(self)@, key);
                }
            },
            None => {
                proof {
                    assert(self@.queues =~= old(self)@.queues);
                }
            },
        }
        gone
    }

    /// Handles one message that the connection `key` sent.
    pub fn handle_message(&mut self, key: u64, message: &Message) -> (done: Dispatch)
        requires
            old(self).wf(),
        ensures
            final(self).wf(),
            final(self)@ == dispatched(old(self)@, key, message@),
            done == outcome(old(self)@, key, message@),
    {
        match message {
            Message::RequestSnapshot => {
                let reply = Message::PlayerMapSnapshot { participants: self.registry.snapshot() };
                if self.outbound.send(key, reply) {
                    Dispatch::SnapshotQueued
                } else {
                    Dispatch::Dropped
                }
            },
            Message::Move { identity: _, x, y } => {
                match self.registry.get(key) {
                    Some(sender) => {
                        let _ = self.registry.update_position(key, *x, *y);
                        self.outbound.broadcast(
                            key,
                            &Message::Move { identity: sender.identity, x: *x, y: *y },
                        );
                        proof {
                            lemma_dispatched_valid(old(self)@, key, message@);
                        }
                        Dispatch::Relayed
                    },
                    None => Dispatch::Dropped,
                }
            },
            _ => Dispatch::Ignored,
        }
    }

    /// Handles one frame that arrived on the connection `key`. Bytes that
    /// are a message are dispatched; bytes that are none end the connection,
    /// which is torn down.
    pub fn handle_frame(&mut self, key: u64, bytes: &[u8]) -> (r: Result<Dispatch, CodecError>)
        requires
            old(self).wf(),
        ensures
            final(self).wf(),
            match decoding(bytes@) {
                Some(message) => r == Ok::<Dispatch, CodecError>(
                    outcome(old(self)@, key, message),
                ) && final(self)@ == dispatched(old(self)@, key, message),
                None => r == Err::<Dispatch, CodecError>(CodecError::MalformedMessage) && final(self)@ == torn_down(old(self)@, key),
            },
    {
        match decode(bytes) {
            Ok(message) => Ok(self.handle_message(key, &message)),
            Err(e) => {
                let _ = self.teardown(key);
                Err(e)
            },
        }
    }

    /// Hands out the oldest message that waits for the connection `key`.
    pub fn next_outbound(&mut self, key: u64) -> (next: Option<Message>)
        requires
            old(self).wf(),
        ensures
            final(self).wf(),
            final(self)@ == drained(old(self)@, key),
            next is Some <==> old(self)@.queues.contains_key(key) && old(self)@.queues[key].len()
                > 0,
            next matches Some(message) ==> message@ == old(self)@.queues[key][0],
    {
        let next = self.outbound.dequeue(key);
        proof {
            if next is Some {
                assert(self@.queues.dom() =~= old(self)@.queues.dom());
            }
        }
        next
    }

    /// Hands out, in its wire form, the oldest message that waits for the
    /// connection `key`.
    pub fn next_frame(&mut self, key: u64) -> (next: Option<Vec<u8>>)
        requires
            old(self).wf(),
        ensures
            final(self).wf(),
            final(self)@ == drained(old(self)@, key),
            next is Some <==> old(self)@.queues.contains_key(key) && old(self)@.queues[key].len()
                > 0,
            next matches Some(bytes) ==> bytes@ == encoding(old(self)@.queues[key][0]),
    {
        match self.next_outbound(key) {
            Some(message) => Some(encode(&message)),
            None => None,
        }
    }

    /// A copy of every participant, oldest first.
    pub fn snapshot(&self) -> (list: Vec<Participant>)
        ensures
            list@ == self@.participants,
    {
        self.registry.snapshot()
    }

    /// The participant of the connection `key`.
    pub fn participant(&self, key: u64) -> (entry: Option<Participant>)
        requires
            self.wf(),
        ensures
            entry is Some <==> has_key(self@.participants, key),
            entry matches Some(p) ==> p == self@.participants[position_of(
                self@.participants,
                key,
            )],
    {
        self.registry.get(key)
    }

    /// Whether the connection `key` is live.
    pub fn is_live(&self, key: u64) -> (live: bool)
        ensures
            live <==> has_key(self@.participants, key),
    {
        self.registry.contains(key)
    }

    /// The number of live connections.
    pub fn len(&self) -> (n: usize)
        ensures
            n == self@.participants.len(),
    {
        self.registry.len()
    }

    /// How many messages wait for the connection `key`.
    pub fn pending(&self, key: u64) -> (n: usize)
        requires
            self.wf(),
        ensures
            self@.queues.contains_key(key) ==> n == self@.queues[key].len(),
            !self@.queues.contains_key(key) ==> n == 0,
    {
        self.outbound.pending(key)
    }

    /// The keys of the live connections, each once.
    pub fn targets(&self) -> (keys: Vec<u64>)
        requires
            self.wf(),
        ensures
            keys@.no_duplicates(),
            forall|k: u64| keys@.contains(k) <==> self@.queues.contains_key(k),
    {
        self.outbound.targets()
    }

    /// The identity that the next newcomer gets.
    pub fn next_identity(&self) -> (identity: u64)
        ensures
            identity == self@.next_identity,
    {
        self.next_identity
    }
}

/// Accepting a fresh key keeps the invariant.
pub proof fn lemma_accepted_valid(s: SessionModel, key: u64, placement: Placement)
    requires
        valid(s),
        !has_key(s.participants, key),
        s.next_identity < u64::MAX,
    ensures
        valid(accepted(s, key, placement)),
{
    let t = accepted(s, key, placement);
    let last = s.participants.len() as int;
    assert(t.participants[last].connection_key == key);
    assert forall|k: u64| has_key(t.participants, k) <==> #[trigger] t.queues.contains_key(k) by {
        if has_key(t.participants, k) {
            let i = position_of(t.participants, k);
            if i < last {
                assert(s.participants[i].connection_key == k);
                assert(s.queues.contains_key(k));
            }
        }
        if t.queues.contains_key(k) && k != key {
            assert(s.queues.contains_key(k));
            let i = position_of(s.participants, k);
            assert(t.participants[i].connection_key == k);
        }
    }
    assert forall|i: int, j: int| 0 <= i < j < t.participants.len() implies #[trigger] t.participants[i].connection_key
        != #[trigger] t.participants[j].connection_key by {
        if j < last {
            assert(s.participants[i].connection_key != s.participants[j].connection_key);
        } else {
            assert(s.participants[i].connection_key != key);
        }
    }
    assert forall|i: int, j: int| 0 <= i < j < t.participants.len() implies #[trigger] t.participants[i].identity
        != #[trigger] t.participants[j].identity by {
        if j < last {
            assert(s.participants[i].identity != s.participants[j].identity);
        } else {
            assert(s.participants[i].identity < s.next_identity);
        }
    }
    assert forall|i: int| 0 <= i < t.participants.len() implies #[trigger] t.participants[i].identity
        < t.next_identity by {
        if i < last {
            assert(s.participants[i].identity < s.next_identity);
        }
    }
}

/// Tearing a live connection down keeps the invariant.
pub proof fn lemma_torn_down_valid(s: SessionModel, key: u64)
    requires
        valid(s),
    ensures
        valid(torn_down(s, key)),
{
    if has_key(s.participants, key) {
        let t = torn_down(s, key);
        let at = position_of(s.participants, key);
        let before = s.participants;
        let after = t.participants;
        assert forall|i: int| 0 <= i < after.len() implies #[trigger] after[i] == before[if i
            < at {
            i
        } else {
            i + 1
        }] by {}
        assert forall|i: int, j: int| 0 <= i < j < after.len() implies #[trigger] after[i].connection_key
            != #[trigger] after[j].connection_key by {
            let i0 = if i < at { i } else { i + 1 };
            let j0 = if j < at { j } else { j + 1 };
            assert(before[i0].connection_key != before[j0].connection_key);
        }
        assert forall|i: int, j: int| 0 <= i < j < after.len() implies #[trigger] after[i].identity
            != #[trigger] after[j].identity by {
            let i0 = if i < at { i } else { i + 1 };
            let j0 = if j < at { j } else { j + 1 };
            assert(before[i0].identity != before[j0].identity);
        }
        assert forall|i: int| 0 <= i < after.len() implies #[trigger] after[i].identity
            < t.next_identity by {
            let i0 = if i < at { i } else { i + 1 };
            assert(before[i0].identity < s.next_identity);
        }
        assert forall|k: u64| has_key(after, k) <==> #[trigger] t.queues.contains_key(k) by {
            if has_key(after, k) {
                let i = position_of(after, k);
                let i0 = if i < at { i } else { i + 1 };
                assert(before[i0].connection_key == k);
                lemma_position(before, i0);
                assert(s.queues.contains_key(k));
            }
            if t.queues.contains_key(k) {
                assert(s.queues.contains_key(k));
                let i0 = position_of(before, k);
                let i = if i0 < at { i0 } else { i0 - 1 };
                assert(after[i].connection_key == k);
            }
        }
    }
}

/// Dispatching a message keeps the invariant.
pub proof fn lemma_dispatched_valid(s: SessionModel, key: u64, message: MessageModel)
    requires
        valid(s),
    ensures
        valid(dispatched(s, key, message)),
{
    let t = dispatched(s, key, message);
    match message {
        MessageModel::RequestSnapshot => {
            assert forall|k: u64| has_key(t.participants, k) <==> #[trigger] t.queues.contains_key(
                k,
            ) by {
                assert(s.queues.contains_key(k) <==> t.queues.contains_key(k));
            }
        },
        MessageModel::Move { identity: _, x, y } => {
            if has_key(s.participants, key) {
                let at = position_of(s.participants, key);
                let before = s.participants;
                let after = t.participants;
                assert forall|i: int| 0 <= i < after.len() implies #[trigger] after[i].connection_key
                    == before[i].connection_key && after[i].identity == before[i].identity by {}
                assert forall|i: int, j: int| 0 <= i < j < after.len() implies #[trigger] after[i].connection_key
                    != #[trigger] after[j].connection_key by {
                    assert(before[i].connection_key != before[j].connection_key);
                }
                assert forall|i: int, j: int| 0 <= i < j < after.len() implies #[trigger] after[i].identity
                    != #[trigger] after[j].identity by {
                    assert(before[i].identity != before[j].identity);
                }
                assert forall|i: int| 0 <= i < after.len() implies #[trigger] after[i].identity
                    < t.next_identity by {
                    assert(before[i].identity < s.next_identity);
                }
                assert forall|k: u64| has_key(after, k) <==> #[trigger] t.queues.contains_key(k) by {
                    if has_key(after, k) {
                        let i = position_of(after, k);
                        assert(before[i].connection_key == k);
                        assert(s.queues.contains_key(k));
                    }
                    if t.queues.contains_key(k) {
                        assert(s.queues.contains_key(k));
                        let i = position_of(before, k);
                        assert(after[i].connection_key == k);
                    }
                }
            }
        },
        _ => {},
    }
}

/// The state after the connections `keys` were accepted one after another,
/// each with its placement.
pub open spec fn joined(s: SessionModel, keys: Seq<u64>, placements: Seq<Placement>) -> SessionModel
    decreases keys.len(),
{
    if keys.len() == 0 {
        s
    } else {
        accepted(
            joined(s, keys.drop_last(), placements.drop_last()),
            keys.last(),
            placements.last(),
        )
    }
}

/// After any number of connections with fresh, distinct keys have joined,
/// in whatever order, the participants are those from before followed by one
/// per newcomer, under consecutive identities; no two participants share an
/// identity or a key.
pub proof fn lemma_joins_counted(s: SessionModel, keys: Seq<u64>, placements: Seq<Placement>)
    requires
        valid(s),
        keys.no_duplicates(),
        keys.len() == placements.len(),
        forall|i: int| 0 <= i < keys.len() ==> !has_key(s.participants, #[trigger] keys[i]),
        s.next_identity + keys.len() <= u64::MAX,
    ensures
        valid(joined(s, keys, placements)),
        distinct_identities(joined(s, keys, placements).participants),
        joined(s, keys, placements).participants.len() == s.participants.len() + keys.len(),
        joined(s, keys, placements).next_identity == s.next_identity + keys.len(),
        joined(s, keys, placements).participants.subrange(0, s.participants.len() as int)
            == s.participants,
        forall|i: int|
            0 <= i < keys.len() ==> #[trigger] joined(s, keys, placements).participants[
                s.participants.len() + i
            ] == Participant::spawned((s.next_identity + i) as u64, keys[i], placements[i]),
    decreases keys.len(),
{
    let t = joined(s, keys, placements);
    if keys.len() == 0 {
        assert(t.participants.subrange(0, s.participants.len() as int) =~= s.participants);
    } else {
        let front_keys = keys.drop_last();
        let front_placements = placements.drop_last();
        lemma_joins_counted(s, front_keys, front_placements);
        let mid = joined(s, front_keys, front_placements);
        let key = keys.last();
        let old_len = s.participants.len() as int;
        assert(!has_key(mid.participants, key)) by {
            if has_key(mid.participants, key) {
                let at = position_of(mid.participants, key);
                if at < old_len {
                    assert(mid.participants.subrange(0, old_len)[at] == mid.participants[at]);
                    assert(s.participants[at].connection_key == key);
                } else {
                    let i = at - old_len;
                    assert(mid.participants[old_len + i].connection_key == front_keys[i]);
                    assert(keys[i] == keys[keys.len() - 1]);
                }
            }
        }
        lemma_accepted_valid(mid, key, placements.last());
        assert(t.participants.subrange(0, old_len) =~= mid.participants.subrange(0, old_len));
        assert forall|i: int| 0 <= i < keys.len() implies #[trigger] t.participants[old_len + i]
            == Participant::spawned((s.next_identity + i) as u64, keys[i], placements[i]) by {
            if i < front_keys.len() {
                assert(t.participants[old_len + i] == mid.participants[old_len + i]);
                assert(front_keys[i] == keys[i]);
                assert(front_placements[i] == placements[i]);
            }
        }
    }
}

/// After `n` connections with distinct keys have joined a session that had
/// none, there are exactly `n` participants, with pairwise distinct
/// identities.
pub proof fn lemma_fresh_session_joins(keys: Seq<u64>, placements: Seq<Placement>)
    requires
        keys.no_duplicates(),
        keys.len() == placements.len(),
        keys.len() < u64::MAX,
    ensures
        joined(initial(), keys, placements).participants.len() == keys.len(),
        distinct_identities(joined(initial(), keys, placements).participants),
        forall|i: int|
            0 <= i < keys.len() ==> #[trigger] joined(
                initial(),
                keys,
                placements,
            ).participants[i].connection_key == keys[i],
{
    assert forall|i: int| 0 <= i < keys.len() implies !has_key(
        initial().participants,
        #[trigger] keys[i],
    ) by {}
    lemma_joins_counted(initial(), keys, placements);
    assert forall|i: int| 0 <= i < keys.len() implies #[trigger] joined(
        initial(),
        keys,
        placements,
    ).participants[i].connection_key == keys[i] by {
        assert(joined(initial(), keys, placements).participants[0 + i] == Participant::spawned(
            (1 + i) as u64,
            keys[i],
            placements[i],
        ));
    }
}

/// A move from a live connection is put, under the sender's own identity,
/// at the end of every other connection's queue; the sender's queue is left
/// as it was, and no queue appears or goes.
pub proof fn lemma_move_excludes_sender(s: SessionModel, key: u64, claimed: u64, x: u32, y: u32)
    requires
        valid(s),
        has_key(s.participants, key),
    ensures
        ({
            let t = dispatched(s, key, MessageModel::Move { identity: claimed, x, y });
            let sender = s.participants[position_of(s.participants, key)];
            &&& t.queues.dom() == s.queues.dom()
            &&& t.queues[key] == s.queues[key]
            &&& forall|k: u64|
                k != key && s.queues.contains_key(k) ==> #[trigger] t.queues[k] == s.queues[k].push(
                    MessageModel::Move { identity: sender.identity, x, y },
                )
            &&& t.participants == s.participants.update(
                position_of(s.participants, key),
                sender.moved_to(x, y),
            )
        }),
{
    let t = dispatched(s, key, MessageModel::Move { identity: claimed, x, y });
    assert(t.queues.dom() =~= s.queues.dom());
}

/// Two moves from one live connection reach every other queue in the order
/// in which they were sent, behind what waited there before, whatever
/// identities the sender wrote into them.
pub proof fn lemma_moves_keep_order(
    s: SessionModel,
    key: u64,
    first: MessageModel,
    second: MessageModel,
)
    requires
        valid(s),
        has_key(s.participants, key),
        first is Move,
        second is Move,
    ensures
        ({
            let t = dispatched(dispatched(s, key, first), key, second);
            let identity = s.participants[position_of(s.participants, key)].identity;
            forall|k: u64|
                k != key && s.queues.contains_key(k) ==> #[trigger] t.queues[k] == s.queues[k].push(
                    MessageModel::Move { identity, x: first->Move_x, y: first->Move_y },
                ).push(MessageModel::Move { identity, x: second->Move_x, y: second->Move_y })
        }),
{
    let mid = dispatched(s, key, first);
    let at = position_of(s.participants, key);
    assert(mid.participants[at].connection_key == key);
    lemma_dispatched_valid(s, key, first);
    lemma_position(mid.participants, at);
}

/// After a live connection was torn down, no participant has its key or
/// its identity, its queue is gone, and every remaining queue has grown by
/// exactly one message: the announcement of that departure.
pub proof fn lemma_departure_announced(s: SessionModel, key: u64)
    requires
        valid(s),
        has_key(s.participants, key),
    ensures
        ({
            let t = torn_down(s, key);
            let gone = s.participants[position_of(s.participants, key)];
            &&& !has_key(t.participants, key)
            &&& !has_identity(t.participants, gone.identity)
            &&& t.participants.len() == s.participants.len() - 1
            &&& t.queues.dom() == s.queues.dom().remove(key)
            &&& forall|k: u64|
                k != key && s.queues.contains_key(k) ==> #[trigger] t.queues[k] == s.queues[k].push(
                    MessageModel::Disconnect { identity: gone.identity },
                )
        }),
{
    let t = torn_down(s, key);
    let at = position_of(s.participants, key);
    let before = s.participants;
    let after = t.participants;
    assert(t.queues.dom() =~= s.queues.dom().remove(key));
    assert forall|i: int| 0 <= i < after.len() implies #[trigger] after[i].connection_key != key
        && after[i].identity != before[at].identity by {
        if i < at {
            assert(before[i].connection_key != before[at].connection_key);
            assert(before[i].identity != before[at].identity);
        } else {
            assert(before[at].connection_key != before[i + 1].connection_key);
            assert(before[at].identity != before[i + 1].identity);
        }
    }
}

/// Tearing a connection down a second time changes nothing: no further
/// announcement is queued and no participant is touched.
pub proof fn lemma_teardown_idempotent(s: SessionModel, key: u64)
    requires
        valid(s),
    ensures
        !has_key(torn_down(s, key).participants, key),
        torn_down(torn_down(s, key), key) == torn_down(s, key),
{
    if has_key(s.participants, key) {
        lemma_departure_announced(s, key);
    }
}

/// What is handed out to a connection is what was queued for it first.
pub proof fn lemma_first_in_first_out(s: SessionModel, key: u64, message: MessageModel)
    requires
        s.queues.contains_key(key),
        s.queues[key].len() > 0,
    ensures
        drained(s, key).queues[key] == s.queues[key].drop_first(),
        drained(s, key).queues[key].push(message) == s.queues[key].push(message).drop_first(),
{
    assert(s.queues[key].drop_first().push(message) =~= s.queues[key].push(message).drop_first());
}

} // verus!
