//! Control-plane events that carry data-plane resources: memory kinds,
//! removed memory and activation locations.

use vstd::prelude::*;

use crate::config::{DATA_TYPE_DMA_BUF, DATA_TYPE_MEM_FD};

verus! {

/// Memory kinds announced by `Core::AddMem`.
#[derive(Clone, Copy, Debug, PartialEq, Eq, Structural)]
pub enum MemoryType {
    /// Shared memory backed by `memfd`.
    MemFd,
    /// DMA-BUF memory.
    DmaBuf,
    /// Any other `SPA_DATA_*` value, kept as it was announced.
    Unknown(u32),
}

/// The memory kind a `SPA_DATA_*` value announces.
pub open spec fn memory_type_of(value: u32) -> MemoryType {
    if value == DATA_TYPE_MEM_FD {
        MemoryType::MemFd
    } else if value == DATA_TYPE_DMA_BUF {
        MemoryType::DmaBuf
    } else {
        MemoryType::Unknown(value)
    }
}

impl From<u32> for MemoryType {
    fn from(value: u32) -> (r: Self) {
        if value == DATA_TYPE_MEM_FD {
            MemoryType::MemFd
        } else if value == DATA_TYPE_DMA_BUF {
            MemoryType::DmaBuf
        } else {
            MemoryType::Unknown(value)
        }
    }
}

impl vstd::std_specs::convert::FromSpecImpl<u32> for MemoryType {
    open spec fn obeys_from_spec() -> bool {
        true
    }

    open spec fn from_spec(v: u32) -> Self {
        memory_type_of(v)
    }
}

/// Removes a memory object from the local registry.
#[derive(Clone, Copy, Debug, PartialEq, Eq, Structural)]
pub struct RemoveMemEvent {
    /// The server-provided memory identifier.
    pub id: u32,
}

/// Activation memory location shared by the transport peer.
#[derive(Clone, Copy, Debug, PartialEq, Eq, Structural)]
pub struct ActivationRegion {
    /// Memory id announced through `AddMem`.
    pub mem_id: u32,
    /// Byte offset of the activation record within the memory object.
    pub offset: usize,
    /// Size of the activation region in bytes.
    pub size: usize,
}

/// Activation memory location for a node transport.
#[derive(Clone, Copy, Debug, PartialEq, Eq, Structural)]
pub struct Activation {
    /// Memory id that contains the activation record.
    pub mem_id: u32,
    /// Byte offset of the activation record within the memory object.
    pub offset: usize,
    /// Activation mapping size in bytes.
    pub size: usize,
}

impl From<ActivationRegion> for Activation {
    fn from(value: ActivationRegion) -> (r: Self) {
        Activation { mem_id: value.mem_id, offset: value.offset, size: value.size }
    }
}

impl vstd::std_specs::convert::FromSpecImpl<ActivationRegion> for Activation {
    open spec fn obeys_from_spec() -> bool {
        true
    }

    open spec fn from_spec(v: ActivationRegion) -> Self {
        Activation { mem_id: v.mem_id, offset: v.offset, size: v.size }
    }
}

} // verus!
