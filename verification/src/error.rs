//! Error vocabulary of the ClientNode session.

use vstd::prelude::*;

use crate::activation::ActivationError;
use crate::config::{NodeId, UnsupportedFeature};
use crate::cycle::CycleError;
use crate::memory::MemoryError;
use crate::port::PortError;

verus! {

/// Why a session command, configuration or cycle was refused.
#[derive(Clone, Debug, PartialEq, Eq)]
pub enum SessionError {
    /// A deliberately unsupported protocol feature was requested.
    Unsupported(UnsupportedFeature),
    /// Descriptor arithmetic overflowed.
    Overflow(&'static str),
    /// A repeated descriptor exceeded the session's own bound.
    TooManyDescriptors(&'static str),
    /// A Format POD was malformed or incomplete.
    InvalidFormat(&'static str),
    /// Imported memory failed to resolve or map.
    Memory(MemoryError),
    /// Activation mapping or transition failed.
    Activation(ActivationError),
    /// Port mapping or publication failed.
    Port(PortError),
    /// Cycle selection or commit failed.
    Cycle(CycleError),
    /// An eventfd operation failed with this OS error number.
    Signal(i32),
    /// A wake referred to a retired transport generation.
    StaleGeneration { expected: u64, received: u64 },
    /// Peer propagation failed after the node's own completion.
    PeerTrigger { peer: NodeId, source: ActivationError },
    /// A peer became TRIGGERED but writing its eventfd failed.
    PeerSignal { peer: NodeId, errno: i32 },
    /// Current configuration does not meet the command's readiness barrier.
    NotReady(&'static str),
    /// Command is not valid in the current state.
    InvalidTransition(&'static str),
    /// The output callback returned an application error.
    Callback(String),
    /// Session has disconnected terminally.
    Disconnected,
}

} // verus!
