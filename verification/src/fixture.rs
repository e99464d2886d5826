//! The memory a scripted ClientNode peer shares with the client it tests,
//! and what it observes of one cycle.

use vstd::prelude::*;

use crate::activation_abi;

verus! {

/// Memory object roles exported by the scripted peer.
#[derive(Clone, Copy, Debug, PartialEq, Eq, Structural)]
pub enum MemoryRole {
    /// Node's own activation.
    OwnActivation,
    /// Two 16-byte chunk records.
    Metadata,
    /// Two 64-byte media planes.
    Media,
    /// One synchronous `spa_io_buffers` record.
    Io,
    /// Downstream activation.
    PeerActivation,
}

/// The stable Core memory id of a role.
pub open spec fn role_id(role: MemoryRole) -> u32 {
    match role {
        MemoryRole::OwnActivation => 101,
        MemoryRole::Metadata => 102,
        MemoryRole::Media => 103,
        MemoryRole::Io => 104,
        MemoryRole::PeerActivation => 105,
    }
}

impl MemoryRole {
    /// Stable Core memory id.
    pub fn id(self) -> (id: u32)
        ensures
            id == role_id(self),
    {
        match self {
            MemoryRole::OwnActivation => 101,
            MemoryRole::Metadata => 102,
            MemoryRole::Media => 103,
            MemoryRole::Io => 104,
            MemoryRole::PeerActivation => 105,
        }
    }

    /// Position of the role among the exported objects.
    pub fn index(self) -> (i: usize)
        ensures
            i == role_id(self) - 101,
            i < 5,
    {
        (self.id() - 101) as usize
    }

    /// Allocated byte length.
    pub fn size(self) -> (n: usize)
        ensures
            n == match self {
                MemoryRole::OwnActivation | MemoryRole::PeerActivation => activation_abi::SIZE,
                MemoryRole::Metadata => 32usize,
                MemoryRole::Media => 128usize,
                MemoryRole::Io => 8usize,
            },
    {
        match self {
            MemoryRole::OwnActivation | MemoryRole::PeerActivation => activation_abi::SIZE,
            MemoryRole::Metadata => 32,
            MemoryRole::Media => 128,
            MemoryRole::Io => 8,
        }
    }
}

/// Final state copied out of the shared memory after one cycle.
#[derive(Debug, Default, PartialEq, Eq)]
pub struct CycleSnapshot {
    /// Number of entered callbacks.
    pub callbacks: u64,
    /// Runtime missed-wake count reported by the client.
    pub missed_wakes: u64,
    /// Runtime stale-wake count reported by the client.
    pub stale_wakes: u64,
    /// Own activation status.
    pub own_status: u32,
    /// Own process result.
    pub process_status: i32,
    /// Own awake timestamp.
    pub awake_time: u64,
    /// Own finish timestamp.
    pub finish_time: u64,
    /// Synchronous IO status.
    pub io_status: i32,
    /// Synchronous IO selected buffer.
    pub io_buffer_id: u32,
    /// Selected chunk fields `(offset, size, stride, flags)`.
    pub chunk: (u32, u32, i32, u32),
    /// Downstream pending count.
    pub peer_pending: i32,
    /// Downstream activation status.
    pub peer_status: u32,
    /// Downstream signal timestamp.
    pub peer_signal_time: u64,
    /// Downstream eventfd counter.
    pub peer_event_count: u64,
    /// Hidden own completion eventfd counter.
    pub completion_event_count: u64,
    /// Selected media bytes.
    pub media: Vec<u8>,
}

} // verus!
