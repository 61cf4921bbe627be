//! The packets that travel between domains, as far as sequencing and
//! sharding read them.
use vstd::prelude::*;

use crate::clock::{DomainIndex, TreeClockDiff};

verus! {

/// One write to a base table: a row added, a row retracted, or a delete
/// request that names the row by its key.
#[derive(Clone, Debug)]
pub enum Record {
    Positive(Vec<u64>),
    Negative(Vec<u64>),
    DeleteRequest(Vec<u64>),
}

/// The identity block of a packet: where it comes from, the label that its
/// producer gave it, and the upstream labels that contributed to it.
#[derive(Clone, Debug)]
pub struct PacketId {
    pub from: DomainIndex,
    pub label: usize,
    pub provenance: TreeClockDiff,
}

/// A packet carries records under an identity block; a replay piece resends
/// records during recovery.
#[derive(Clone, Debug)]
pub enum Packet {
    Message { id: PacketId, data: Vec<Record> },
    ReplayPiece { id: PacketId, data: Vec<Record> },
}

impl Packet {
    pub open spec fn id_spec(&self) -> &PacketId {
        match self {
            Packet::Message { id, .. } => id,
            Packet::ReplayPiece { id, .. } => id,
        }
    }

    pub open spec fn is_replay_spec(&self) -> bool {
        self is ReplayPiece
    }

    /// The packet's identity block.
    pub fn id(&self) -> (r: &PacketId)
        ensures
            r == self.id_spec(),
    {
        match self {
            Packet::Message { id, .. } => id,
            Packet::ReplayPiece { id, .. } => id,
        }
    }

    /// Whether the packet resends records during recovery.
    pub fn is_replay(&self) -> (r: bool)
        ensures
            r == self.is_replay_spec(),
    {
        match self {
            Packet::Message { .. } => false,
            Packet::ReplayPiece { .. } => true,
        }
    }
}

}
