//! The replicated record of one connected client.

use vstd::prelude::*;

verus! {

/// Initial attributes handed to a newcomer by the spawn policy. Every field
/// is the bit pattern of a 32-bit float.
#[derive(Clone, Copy, Debug, PartialEq, Eq, Structural)]
pub struct Placement {
    pub x: u32,
    pub y: u32,
    pub width: u32,
    pub height: u32,
    pub red: u32,
    pub green: u32,
    pub blue: u32,
    pub alpha: u32,
}

/// One connected client as the server knows it. `identity` is the token the
/// server allotted at connection time; `connection_key` routes outbound
/// messages; the remaining fields are bit patterns of 32-bit floats.
#[derive(Clone, Copy, Debug, PartialEq, Eq, Structural)]
pub struct Participant {
    pub identity: u64,
    pub connection_key: u64,
    pub x: u32,
    pub y: u32,
    pub width: u32,
    pub height: u32,
    pub red: u32,
    pub green: u32,
    pub blue: u32,
    pub alpha: u32,
}

impl Participant {
    /// The record of a newcomer: the given identity and key, attributes as placed.
    pub open spec fn spawned(identity: u64, connection_key: u64, placement: Placement) -> Participant {
        Participant {
            identity,
            connection_key,
            x: placement.x,
            y: placement.y,
            width: placement.width,
            height: placement.height,
            red: placement.red,
            green: placement.green,
            blue: placement.blue,
            alpha: placement.alpha,
        }
    }

    /// This record moved to `(x, y)`, everything else kept.
    pub open spec fn moved_to(self, x: u32, y: u32) -> Participant {
        Participant { x, y, ..self }
    }

    /// This record filed under `key`, everything else kept.
    pub open spec fn keyed(self, key: u64) -> Participant {
        Participant { connection_key: key, ..self }
    }

    /// Builds the record of a newcomer.
    pub fn spawn(identity: u64, connection_key: u64, placement: Placement) -> (p: Participant)
        ensures
            p == Participant::spawned(identity, connection_key, placement),
    {
        Participant {
            identity,
            connection_key,
            x: placement.x,
            y: placement.y,
            width: placement.width,
            height: placement.height,
            red: placement.red,
            green: placement.green,
            blue: placement.blue,
            alpha: placement.alpha,
        }
    }
}

} // verus!
