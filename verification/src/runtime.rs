//! What a runtime adapter decides around one session: which trigger it
//! waits on, and what it counts of each wake.

use vstd::prelude::*;

use crate::owner::WakeOutcome;

verus! {

/// Default bound for ownership-bearing commands awaiting the process owner.
pub const DEFAULT_COMMAND_CAPACITY: usize = 64;

/// Why a bounded command could not be transferred to its sole owner.
#[derive(Clone, Copy, Debug, PartialEq, Eq, Structural)]
pub enum CommandSendError {
    /// The bounded queue had no remaining capacity. The runtime is terminated.
    Full,
    /// The runtime owner had already stopped. The command was dropped.
    Closed,
}

/// Point-in-time runtime diagnostics.
#[derive(Clone, Copy, Debug, Default, PartialEq, Eq, Structural)]
pub struct RuntimeDiagnostics {
    /// Successfully completed callback cycles.
    pub callbacks: u64,
    /// Coalesced eventfd counts beyond the single permitted claim attempt.
    pub missed_wakes: u64,
    /// Readiness turns tagged with a retired transport generation.
    pub stale_wakes: u64,
}

/// The counters after one wake with `outcome`; like the atomic counters
/// they stand for, they wrap around.
pub open spec fn recorded(d: RuntimeDiagnostics, outcome: WakeOutcome) -> RuntimeDiagnostics {
    match outcome {
        WakeOutcome::Processed { missed, .. } => RuntimeDiagnostics {
            callbacks: ((d.callbacks + 1) % 0x1_0000_0000_0000_0000) as u64,
            missed_wakes: ((d.missed_wakes + missed) % 0x1_0000_0000_0000_0000) as u64,
            stale_wakes: d.stale_wakes,
        },
        WakeOutcome::NotClaimed { missed, .. } => RuntimeDiagnostics {
            missed_wakes: ((d.missed_wakes + missed) % 0x1_0000_0000_0000_0000) as u64,
            ..d
        },
        WakeOutcome::Stale { .. } => RuntimeDiagnostics {
            stale_wakes: ((d.stale_wakes + 1) % 0x1_0000_0000_0000_0000) as u64,
            ..d
        },
        WakeOutcome::NoWake | WakeOutcome::NotRunning { .. } => d,
    }
}

impl RuntimeDiagnostics {
    /// Empty counters.
    pub fn new() -> (d: Self)
        ensures
            d == (RuntimeDiagnostics { callbacks: 0, missed_wakes: 0, stale_wakes: 0 }),
    {
        RuntimeDiagnostics { callbacks: 0, missed_wakes: 0, stale_wakes: 0 }
    }

    /// Counts one wake: a completed callback and its missed wakes, missed
    /// wakes of an unclaimed wake, or a stale wake.
    pub fn record(&mut self, outcome: WakeOutcome)
        ensures
            *final(self) == recorded(*old(self), outcome),
    {
        match outcome {
            WakeOutcome::Processed { missed, .. } => {
                self.callbacks = self.callbacks.wrapping_add(1);
                self.missed_wakes = self.missed_wakes.wrapping_add(missed);
            },
            WakeOutcome::NotClaimed { missed, .. } => {
                self.missed_wakes = self.missed_wakes.wrapping_add(missed);
            },
            WakeOutcome::Stale { .. } => {
                self.stale_wakes = self.stale_wakes.wrapping_add(1);
            },
            WakeOutcome::NoWake | WakeOutcome::NotRunning { .. } => {},
        }
    }
}

} // verus!
