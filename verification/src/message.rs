//! The messages of the wire protocol.

use vstd::prelude::*;
use crate::participant::Participant;

verus! {

/// One protocol message. Coordinates are bit patterns of 32-bit floats.
#[derive(Debug, PartialEq, Eq)]
pub enum Message {
    /// Server to a newcomer: the identity it was given.
    Connect { identity: u64 },
    /// Server to everyone else: a peer joined, with its initial state.
    OtherPlayerJoined { participant: Participant },
    /// Client to server: its own new position. Server to the others: the relay.
    Move { identity: u64, x: u32, y: u32 },
    /// Server to the remaining clients: a peer left.
    Disconnect { identity: u64 },
    /// Server to the client that asked: every participant known right now.
    PlayerMapSnapshot { participants: Vec<Participant> },
    /// Client to server: send me a fresh snapshot.
    RequestSnapshot,
}

/// What a message says, with the participant list as a mathematical sequence.
pub enum MessageModel {
    Connect { identity: u64 },
    OtherPlayerJoined { participant: Participant },
    Move { identity: u64, x: u32, y: u32 },
    Disconnect { identity: u64 },
    PlayerMapSnapshot { participants: Seq<Participant> },
    RequestSnapshot,
}

impl View for Message {
    type V = MessageModel;

    open spec fn view(&self) -> MessageModel {
        match *self {
            Message::Connect { identity } => MessageModel::Connect { identity },
            Message::OtherPlayerJoined { participant } => MessageModel::OtherPlayerJoined {
                participant,
            },
            Message::Move { identity, x, y } => MessageModel::Move { identity, x, y },
            Message::Disconnect { identity } => MessageModel::Disconnect { identity },
            Message::PlayerMapSnapshot { participants } => MessageModel::PlayerMapSnapshot {
                participants: participants@,
            },
            Message::RequestSnapshot => MessageModel::RequestSnapshot,
        }
    }
}

/// The models of a run of messages, in order.
pub open spec fn models(messages: Seq<Message>) -> Seq<MessageModel> {
    messages.map_values(|m: Message| m@)
}

/// A copy of a participant list, element by element.
pub fn copy_participants(list: &Vec<Participant>) -> (copy: Vec<Participant>)
    ensures
        copy@ == list@,
{
    let mut copy: Vec<Participant> = Vec::new();
    let mut i: usize = 0;
    while i < list.len()
        invariant
            i <= list.len(),
            copy@ == list@.subrange(0, i as int),
        decreases list.len() - i,
    {
        copy.push(list[i]);
        proof {
            assert(copy@ =~= list@.subrange(0, i + 1));
        }
        i += 1;
    }
    proof {
        assert(list@.subrange(0, list.len() as int) =~= list@);
    }
    copy
}

impl Clone for Message {
    fn clone(&self) -> (copy: Message)
        ensures
            copy@ == self@,
    {
        match self {
            Message::Connect { identity } => Message::Connect { identity: *identity },
            Message::OtherPlayerJoined { participant } => Message::OtherPlayerJoined {
                participant: *participant,
            },
            Message::Move { identity, x, y } => Message::Move { identity: *identity, x: *x, y: *y },
            Message::Disconnect { identity } => Message::Disconnect { identity: *identity },
            Message::PlayerMapSnapshot { participants } => Message::PlayerMapSnapshot {
                participants: copy_participants(participants),
            },
            Message::RequestSnapshot => Message::RequestSnapshot,
        }
    }
}

} // verus!
