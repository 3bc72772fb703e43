//! The wire form of a message, and the two directions between it and bytes.
//!
//! A message is a four-byte variant tag followed by its fields in order.
//! Integers are fixed-width and little-endian; a participant list is an
//! eight-byte count followed by the entries. This is the layout `bincode`
//! gives an enum of these shapes, and `bincode` writes and reads each integer.

use vstd::prelude::*;
use vstd::slice::slice_subrange;
use crate::message::{Message, MessageModel};
use crate::participant::Participant;
use crate::wire::{
    lemma_le_bytes, put_u32, put_u64, take_u32, take_u64, u32_from_le, u32_le, u64_from_le, u64_le,
};

verus! {

/// Why bytes were refused.
#[derive(Clone, Copy, Debug, PartialEq, Eq, Structural)]
pub enum CodecError {
    /// The bytes are no message: cut short, too long, or of no known shape.
    MalformedMessage,
}

/// Bytes that one participant takes on the wire.
pub const PARTICIPANT_BYTES: usize = 48;

/// The variant tag of a message.
pub open spec fn tag_of(m: MessageModel) -> u32 {
    match m {
        MessageModel::Connect { .. } => 0,
        MessageModel::OtherPlayerJoined { .. } => 1,
        MessageModel::Move { .. } => 2,
        MessageModel::Disconnect { .. } => 3,
        MessageModel::PlayerMapSnapshot { .. } => 4,
        MessageModel::RequestSnapshot => 5,
    }
}

/// The wire form of one participant: identity, key, then the eight attributes.
pub open spec fn participant_bytes(p: Participant) -> Seq<u8> {
    u64_le(p.identity) + u64_le(p.connection_key) + u32_le(p.x) + u32_le(p.y) + u32_le(p.width)
        + u32_le(p.height) + u32_le(p.red) + u32_le(p.green) + u32_le(p.blue) + u32_le(p.alpha)
}

/// The wire forms of the participants of a list, one after another.
pub open spec fn participants_bytes(list: Seq<Participant>) -> Seq<u8>
    decreases list.len(),
{
    if list.len() == 0 {
        Seq::empty()
    } else {
        participants_bytes(list.drop_last()) + participant_bytes(list.last())
    }
}

/// The fields of a message on the wire, without the tag.
pub open spec fn payload(m: MessageModel) -> Seq<u8> {
    match m {
        MessageModel::Connect { identity } => u64_le(identity),
        MessageModel::OtherPlayerJoined { participant } => participant_bytes(participant),
        MessageModel::Move { identity, x, y } => u64_le(identity) + u32_le(x) + u32_le(y),
        MessageModel::Disconnect { identity } => u64_le(identity),
        MessageModel::PlayerMapSnapshot { participants } => u64_le(participants.len() as u64)
            + participants_bytes(participants),
        MessageModel::RequestSnapshot => Seq::empty(),
    }
}

/// The wire form of a message.
pub open spec fn encoding(m: MessageModel) -> Seq<u8> {
    u32_le(tag_of(m)) + payload(m)
}

/// Whether the count of a participant list fits the eight bytes it is written in.
pub open spec fn fits(m: MessageModel) -> bool {
    m matches MessageModel::PlayerMapSnapshot { participants } ==> participants.len() <= u64::MAX
}

/// `bytes` is the wire form of `m`.
pub open spec fn encodes(m: MessageModel, bytes: Seq<u8>) -> bool {
    fits(m) && encoding(m) == bytes
}

/// The message that `bytes` is the wire form of, if there is one.
pub open spec fn decoding(bytes: Seq<u8>) -> Option<MessageModel> {
    if exists|m: MessageModel| encodes(m, bytes) {
        Some(choose|m: MessageModel| encodes(m, bytes))
    } else {
        None
    }
}

/// The participant whose wire form a run of 48 bytes is.
pub open spec fn participant_from(s: Seq<u8>) -> Participant {
    Participant {
        identity: u64_from_le(s.subrange(0, 8)),
        connection_key: u64_from_le(s.subrange(8, 16)),
        x: u32_from_le(s.subrange(16, 20)),
        y: u32_from_le(s.subrange(20, 24)),
        width: u32_from_le(s.subrange(24, 28)),
        height: u32_from_le(s.subrange(28, 32)),
        red: u32_from_le(s.subrange(32, 36)),
        green: u32_from_le(s.subrange(36, 40)),
        blue: u32_from_le(s.subrange(40, 44)),
        alpha: u32_from_le(s.subrange(44, 48)),
    }
}

/// A participant takes 48 bytes, and reading them back gives the participant.
pub proof fn lemma_participant_bytes(p: Participant)
    ensures
        participant_bytes(p).len() == 48,
        participant_from(participant_bytes(p)) == p,
{
    lemma_le_bytes();
    let s = participant_bytes(p);
    assert(s.subrange(0, 8) =~= u64_le(p.identity));
    assert(s.subrange(8, 16) =~= u64_le(p.connection_key));
    assert(s.subrange(16, 20) =~= u32_le(p.x));
    assert(s.subrange(20, 24) =~= u32_le(p.y));
    assert(s.subrange(24, 28) =~= u32_le(p.width));
    assert(s.subrange(28, 32) =~= u32_le(p.height));
    assert(s.subrange(32, 36) =~= u32_le(p.red));
    assert(s.subrange(36, 40) =~= u32_le(p.green));
    assert(s.subrange(40, 44) =~= u32_le(p.blue));
    assert(s.subrange(44, 48) =~= u32_le(p.alpha));
}

/// Any 48 bytes are the wire form of the participant read from them.
pub proof fn lemma_participant_from(s: Seq<u8>)
    requires
        s.len() == 48,
    ensures
        participant_bytes(participant_from(s)) == s,
{
    lemma_le_bytes();
    let p = participant_from(s);
    assert(u64_le(p.identity) == s.subrange(0, 8));
    assert(u64_le(p.connection_key) == s.subrange(8, 16));
    assert(u32_le(p.x) == s.subrange(16, 20));
    assert(u32_le(p.y) == s.subrange(20, 24));
    assert(u32_le(p.width) == s.subrange(24, 28));
    assert(u32_le(p.height) == s.subrange(28, 32));
    assert(u32_le(p.red) == s.subrange(32, 36));
    assert(u32_le(p.green) == s.subrange(36, 40));
    assert(u32_le(p.blue) == s.subrange(40, 44));
    assert(u32_le(p.alpha) == s.subrange(44, 48));
    assert(participant_bytes(p) =~= s);
}

/// A list of `n` participants takes `48 * n` bytes, and the bytes of the
/// entry at `i` stand at `48 * i`.
pub proof fn lemma_participants_bytes(list: Seq<Participant>)
    ensures
        participants_bytes(list).len() == 48 * list.len(),
        forall|i: int|
            0 <= i < list.len() ==> #[trigger] participants_bytes(list).subrange(
                48 * i,
                48 * i + 48,
            ) == participant_bytes(list[i]),
    decreases list.len(),
{
    if list.len() > 0 {
        let front = list.drop_last();
        lemma_participants_bytes(front);
        lemma_participant_bytes(list.last());
        let all = participants_bytes(list);
        assert forall|i: int| 0 <= i < list.len() implies #[trigger] all.subrange(
            48 * i,
            48 * i + 48,
        ) == participant_bytes(list[i]) by {
            if i < front.len() {
                assert(participants_bytes(front).subrange(48 * i, 48 * i + 48)
                    == participant_bytes(front[i]));
                assert(all.subrange(48 * i, 48 * i + 48) =~= participants_bytes(front).subrange(
                    48 * i,
                    48 * i + 48,
                ));
            } else {
                assert(all.subrange(48 * i, 48 * i + 48) =~= participant_bytes(list.last()));
            }
        }
    }
}

/// Appends the wire form of one participant to `out`.
fn append_participant(out: &mut Vec<u8>, p: &Participant)
    ensures
        final(out)@ == old(out)@ + participant_bytes(*p),
{
    let ghost before = out@;
    let mut identity = put_u64(p.identity);
    let mut key = put_u64(p.connection_key);
    let mut x = put_u32(p.x);
    let mut y = put_u32(p.y);
    let mut width = put_u32(p.width);
    let mut height = put_u32(p.height);
    let mut red = put_u32(p.red);
    let mut green = put_u32(p.green);
    let mut blue = put_u32(p.blue);
    let mut alpha = put_u32(p.alpha);
    out.append(&mut identity);
    out.append(&mut key);
    out.append(&mut x);
    out.append(&mut y);
    out.append(&mut width);
    out.append(&mut height);
    out.append(&mut red);
    out.append(&mut green);
    out.append(&mut blue);
    out.append(&mut alpha);
    proof {
        assert(out@ =~= before + participant_bytes(*p));
    }
}

/// Appends the wire forms of the participants of `list` to `out`, in order.
fn append_participants(out: &mut Vec<u8>, list: &Vec<Participant>)
    ensures
        final(out)@ == old(out)@ + participants_bytes(list@),
{
    let ghost before = out@;
    let mut i: usize = 0;
    proof {
        assert(out@ =~= before + participants_bytes(list@.subrange(0, 0)));
    }
    while i < list.len()
        invariant
            i <= list.len(),
            out@ == before + participants_bytes(list@.subrange(0, i as int)),
        decreases list.len() - i,
    {
        let ghost so_far = out@;
        append_participant(out, &list[i]);
        proof {
            let next = list@.subrange(0, i + 1);
            assert(next.drop_last() =~= list@.subrange(0, i as int));
            assert(next.last() == list@[i as int]);
            assert(out@ =~= before + participants_bytes(next));
        }
        i += 1;
    }
    proof {
        assert(list@.subrange(0, list.len() as int) =~= list@);
    }
}

/// The wire form of `message`.
pub fn encode(message: &Message) -> (bytes: Vec<u8>)
    ensures
        bytes@ == encoding(message@),
{
    match message {
        Message::Connect { identity } => {
            let mut out = put_u32(0);
            let mut field = put_u64(*identity);
            out.append(&mut field);
            out
        },
        Message::OtherPlayerJoined { participant } => {
            let mut out = put_u32(1);
            append_participant(&mut out, participant);
            out
        },
        Message::Move { identity, x, y } => {
            let mut out = put_u32(2);
            let mut who = put_u64(*identity);
            let mut first = put_u32(*x);
            let mut second = put_u32(*y);
            out.append(&mut who);
            out.append(&mut first);
            out.append(&mut second);
            proof {
                assert(out@ =~= encoding(message@));
            }
            out
        },
        Message::Disconnect { identity } => {
            let mut out = put_u32(3);
            let mut field = put_u64(*identity);
            out.append(&mut field);
            out
        },
        Message::PlayerMapSnapshot { participants } => {
            let mut out = put_u32(4);
            let mut count = put_u64(participants.len() as u64);
            out.append(&mut count);
            append_participants(&mut out, participants);
            proof {
                assert(out@ =~= encoding(message@));
            }
            out
        },
        Message::RequestSnapshot => {
            let out = put_u32(5);
            proof {
                assert(out@ =~= encoding(message@));
            }
            out
        },
    }
}

/// The length of the wire form of a message.
pub open spec fn encoded_len(m: MessageModel) -> nat {
    match m {
        MessageModel::Connect { .. } => 12,
        MessageModel::OtherPlayerJoined { .. } => 52,
        MessageModel::Move { .. } => 20,
        MessageModel::Disconnect { .. } => 12,
        MessageModel::PlayerMapSnapshot { participants } => 12 + 48 * participants.len(),
        MessageModel::RequestSnapshot => 4,
    }
}

/// Whether `bytes` open with a known tag and have the length that the tag,
/// and for a participant list its count, demand.
pub open spec fn well_sized(bytes: Seq<u8>) -> bool {
    bytes.len() >= 4 && {
        let tag = u32_from_le(bytes.subrange(0, 4));
        if tag == 0 || tag == 3 {
            bytes.len() == 12
        } else if tag == 1 {
            bytes.len() == 52
        } else if tag == 2 {
            bytes.len() == 20
        } else if tag == 4 {
            bytes.len() >= 12 && bytes.len() == 12 + 48 * u64_from_le(
                bytes.subrange(4, 12),
            )
        } else {
            tag == 5 && bytes.len() == 4
        }
    }
}

/// The wire form of a message opens with its tag, carries the count of a
/// participant list next, and has the length that these demand.
pub proof fn lemma_encoding_shape(m: MessageModel)
    requires
        fits(m),
    ensures
        encoding(m).len() == encoded_len(m),
        encoding(m).subrange(0, 4) == u32_le(tag_of(m)),
        encoding(m).subrange(4, encoded_len(m) as int) == payload(m),
        u32_from_le(encoding(m).subrange(0, 4)) == tag_of(m),
        m matches MessageModel::PlayerMapSnapshot { participants } ==> u64_from_le(
            encoding(m).subrange(4, 12),
        ) == participants.len(),
        well_sized(encoding(m)),
{
    lemma_le_bytes();
    let e = encoding(m);
    match m {
        MessageModel::OtherPlayerJoined { participant } => {
            lemma_participant_bytes(participant);
        },
        MessageModel::PlayerMapSnapshot { participants } => {
            lemma_participants_bytes(participants);
            assert(e.subrange(4, 12) =~= u64_le(participants.len() as u64));
        },
        _ => {},
    }
    assert(e.subrange(0, 4) =~= u32_le(tag_of(m)));
    assert(e.subrange(4, encoded_len(m) as int) =~= payload(m));
}

/// Two messages with the same wire form are the same message.
pub proof fn lemma_encoding_injective(a: MessageModel, b: MessageModel)
    requires
        fits(a),
        fits(b),
        encoding(a) == encoding(b),
    ensures
        a == b,
{
    lemma_le_bytes();
    lemma_encoding_shape(a);
    lemma_encoding_shape(b);
    assert(tag_of(a) == tag_of(b));
    assert(payload(a) == payload(b));
    match (a, b) {
        (
            MessageModel::OtherPlayerJoined { participant: p },
            MessageModel::OtherPlayerJoined { participant: q },
        ) => {
            lemma_participant_bytes(p);
            lemma_participant_bytes(q);
        },
        (MessageModel::Move { identity: i, x: ax, y: ay }, MessageModel::Move { identity: j, x: bx, y: by }) => {
            let s = payload(a);
            assert(s.subrange(0, 8) =~= u64_le(i));
            assert(s.subrange(0, 8) =~= u64_le(j));
            assert(s.subrange(8, 12) =~= u32_le(ax));
            assert(s.subrange(8, 12) =~= u32_le(bx));
            assert(s.subrange(12, 16) =~= u32_le(ay));
            assert(s.subrange(12, 16) =~= u32_le(by));
        },
        (
            MessageModel::PlayerMapSnapshot { participants: la },
            MessageModel::PlayerMapSnapshot { participants: lb },
        ) => {
            lemma_participants_bytes(la);
            lemma_participants_bytes(lb);
            assert(la.len() == lb.len());
            let s = payload(a);
            assert(s.subrange(8, s.len() as int) =~= participants_bytes(la));
            assert(s.subrange(8, s.len() as int) =~= participants_bytes(lb));
            assert forall|i: int| 0 <= i < la.len() implies la[i] == lb[i] by {
                let chunk = participants_bytes(la).subrange(48 * i, 48 * i + 48);
                assert(chunk == participant_bytes(la[i]));
                assert(chunk == participant_bytes(lb[i]));
                lemma_participant_bytes(la[i]);
                lemma_participant_bytes(lb[i]);
            }
            assert(la =~= lb);
        },
        _ => {},
    }
}

/// The wire form of a message decodes to that message and to no other.
pub proof fn lemma_decoding_unique(m: MessageModel, bytes: Seq<u8>)
    requires
        encodes(m, bytes),
    ensures
        decoding(bytes) == Some(m),
{
    let found = choose|other: MessageModel| encodes(other, bytes);
    lemma_encoding_injective(found, m);
}

/// Bytes that are not well sized are the wire form of no message.
pub proof fn lemma_ill_sized(bytes: Seq<u8>)
    requires
        !well_sized(bytes),
    ensures
        decoding(bytes) is None,
{
    assert forall|m: MessageModel| !encodes(m, bytes) by {
        if encodes(m, bytes) {
            lemma_encoding_shape(m);
        }
    }
}

/// Decoding the wire form of a message gives that message back.
pub proof fn round_trip(message: Message)
    ensures
        decoding(encoding(message@)) == Some(message@),
{
    if let Message::PlayerMapSnapshot { participants } = message {
        assert(participants@.len() == participants.len());
    }
    lemma_decoding_unique(message@, encoding(message@));
}

/// Reads the four-byte integer that stands at `at`.
fn read_u32_at(bytes: &[u8], at: usize) -> (r: Result<u32, CodecError>)
    requires
        at <= bytes@.len(),
    ensures
        r is Ok <==> at + 4 <= bytes@.len(),
        r matches Ok(v) ==> u32_le(v) == bytes@.subrange(at as int, at + 4),
        r matches Err(e) ==> e == CodecError::MalformedMessage,
{
    let rest = slice_subrange(bytes, at, bytes.len());
    match take_u32(rest) {
        Ok(v) => {
            proof {
                lemma_le_bytes();
                assert(rest@.subrange(0, 4) =~= bytes@.subrange(at as int, at + 4));
            }
            Ok(v)
        },
        Err(_) => Err(CodecError::MalformedMessage),
    }
}

/// Reads the eight-byte integer that stands at `at`.
fn read_u64_at(bytes: &[u8], at: usize) -> (r: Result<u64, CodecError>)
    requires
        at <= bytes@.len(),
    ensures
        r is Ok <==> at + 8 <= bytes@.len(),
        r matches Ok(v) ==> u64_le(v) == bytes@.subrange(at as int, at + 8),
        r matches Err(e) ==> e == CodecError::MalformedMessage,
{
    let rest = slice_subrange(bytes, at, bytes.len());
    match take_u64(rest) {
        Ok(v) => {
            proof {
                lemma_le_bytes();
                assert(rest@.subrange(0, 8) =~= bytes@.subrange(at as int, at + 8));
            }
            Ok(v)
        },
        Err(_) => Err(CodecError::MalformedMessage),
    }
}

/// Reads the participant that stands at `at`.
fn read_participant_at(bytes: &[u8], at: usize) -> (r: Result<Participant, CodecError>)
    requires
        at <= bytes@.len(),
    ensures
        r is Ok <==> at + 48 <= bytes@.len(),
        r matches Ok(p) ==> participant_bytes(p) == bytes@.subrange(at as int, at + 48),
        r matches Err(e) ==> e == CodecError::MalformedMessage,
{
    if bytes.len() - at < PARTICIPANT_BYTES {
        return Err(CodecError::MalformedMessage);
    }
    let identity = match read_u64_at(bytes, at) {
        Ok(v) => v,
        Err(e) => {
            return Err(e);
        },
    };
    let connection_key = match read_u64_at(bytes, at + 8) {
        Ok(v) => v,
        Err(e) => {
            return Err(e);
        },
    };
    let x = match read_u32_at(bytes, at + 16) {
        Ok(v) => v,
        Err(e) => {
            return Err(e);
        },
    };
    let y = match read_u32_at(bytes, at + 20) {
        Ok(v) => v,
        Err(e) => {
            return Err(e);
        },
    };
    let width = match read_u32_at(bytes, at + 24) {
        Ok(v) => v,
        Err(e) => {
            return Err(e);
        },
    };
    let height = match read_u32_at(bytes, at + 28) {
        Ok(v) => v,
        Err(e) => {
            return Err(e);
        },
    };
    let red = match read_u32_at(bytes, at + 32) {
        Ok(v) => v,
        Err(e) => {
            return Err(e);
        },
    };
    let green = match read_u32_at(bytes, at + 36) {
        Ok(v) => v,
        Err(e) => {
            return Err(e);
        },
    };
    let blue = match read_u32_at(bytes, at + 40) {
        Ok(v) => v,
        Err(e) => {
            return Err(e);
        },
    };
    let alpha = match read_u32_at(bytes, at + 44) {
        Ok(v) => v,
        Err(e) => {
            return Err(e);
        },
    };
    let p = Participant { identity, connection_key, x, y, width, height, red, green, blue, alpha };
    proof {
        lemma_le_bytes();
        assert(participant_bytes(p) =~= bytes@.subrange(at as int, at + 48));
    }
    Ok(p)
}

/// Reads `count` participants that fill `bytes` from offset 12 to the end.
fn read_participants(bytes: &[u8], count: usize) -> (r: Result<Vec<Participant>, CodecError>)
    requires
        bytes@.len() == 12 + 48 * count,
    ensures
        r matches Ok(list) && list@.len() == count && participants_bytes(list@)
            == bytes@.subrange(12, bytes@.len() as int),
{
    let mut list: Vec<Participant> = Vec::new();
    let mut i: usize = 0;
    proof {
        assert(bytes.len() == bytes@.len());
        assert(participants_bytes(list@) =~= bytes@.subrange(12, 12));
    }
    while i < count
        invariant
            i <= count,
            bytes@.len() == 12 + 48 * count <= usize::MAX,
            list@.len() == i,
            participants_bytes(list@) == bytes@.subrange(12, 12 + 48 * i),
        decreases count - i,
    {
        let ghost before = list@;
        let p = match read_participant_at(bytes, 12 + PARTICIPANT_BYTES * i) {
            Ok(p) => p,
            Err(e) => { return Err(e); },
        };
        list.push(p);
        proof {
            assert(list@.drop_last() =~= before);
            assert(participants_bytes(list@) =~= bytes@.subrange(12, 12 + 48 * (i + 1)));
        }
        i += 1;
    }
    Ok(list)
}

/// The message that `bytes` are the wire form of. Bytes that are cut short,
/// run on past the message, or open with an unknown tag are refused.
pub fn decode(bytes: &[u8]) -> (r: Result<Message, CodecError>)
    ensures
        match r {
            Ok(message) => decoding(bytes@) == Some(message@),
            Err(e) => e == CodecError::MalformedMessage && decoding(bytes@) is None,
        },
        r is Ok <==> well_sized(bytes@),
{
    proof {
        lemma_le_bytes();
        if !well_sized(bytes@) {
            lemma_ill_sized(bytes@);
        }
    }
    let tag = match read_u32_at(bytes, 0) {
        Ok(v) => v,
        Err(e) => {
            return Err(e);
        },
    };
    let length = bytes.len();
    if tag == 0 || tag == 3 {
        if length != 12 {
            return Err(CodecError::MalformedMessage);
        }
        let identity = match read_u64_at(bytes, 4) {
            Ok(v) => v,
            Err(e) => {
                return Err(e);
            },
        };
        let message = if tag == 0 {
            Message::Connect { identity }
        } else {
            Message::Disconnect { identity }
        };
        proof {
            assert(encoding(message@) =~= bytes@);
            lemma_decoding_unique(message@, bytes@);
        }
        Ok(message)
    } else if tag == 1 {
        if length != 52 {
            return Err(CodecError::MalformedMessage);
        }
        let participant = match read_participant_at(bytes, 4) {
            Ok(v) => v,
            Err(e) => {
                return Err(e);
            },
        };
        let message = Message::OtherPlayerJoined { participant };
        proof {
            assert(encoding(message@) =~= bytes@);
            lemma_decoding_unique(message@, bytes@);
        }
        Ok(message)
    } else if tag == 2 {
        if length != 20 {
            return Err(CodecError::MalformedMessage);
        }
        let identity = match read_u64_at(bytes, 4) {
            Ok(v) => v,
            Err(e) => {
                return Err(e);
            },
        };
        let x = match read_u32_at(bytes, 12) {
            Ok(v) => v,
            Err(e) => {
                return Err(e);
            },
        };
        let y = match read_u32_at(bytes, 16) {
            Ok(v) => v,
            Err(e) => {
                return Err(e);
            },
        };
        let message = Message::Move { identity, x, y };
        proof {
            assert(encoding(message@) =~= bytes@);
            lemma_decoding_unique(message@, bytes@);
        }
        Ok(message)
    } else if tag == 4 {
        let count = match read_u64_at(bytes, 4) {
            Ok(v) => v,
            Err(e) => {
                return Err(e);
            },
        };
        let room = length - 12;
        if room % PARTICIPANT_BYTES != 0 || (room / PARTICIPANT_BYTES) as u64 != count {
            return Err(CodecError::MalformedMessage);
        }
        let participants = match read_participants(bytes, room / PARTICIPANT_BYTES) {
            Ok(v) => v,
            Err(e) => {
                return Err(e);
            },
        };
        let message = Message::PlayerMapSnapshot { participants };
        proof {
            assert(encoding(message@) =~= bytes@);
            lemma_decoding_unique(message@, bytes@);
        }
        Ok(message)
    } else if tag == 5 {
        if length != 4 {
            return Err(CodecError::MalformedMessage);
        }
        let message = Message::RequestSnapshot;
        proof {
            assert(encoding(message@) =~= bytes@);
            lemma_decoding_unique(message@, bytes@);
        }
        Ok(message)
    } else {
        Err(CodecError::MalformedMessage)
    }
}

} // verus!
