//! PipeWire's `pw_node_activation` record and the ClientNode v6 status
//! transitions on it. The record is held as its byte image; every field is
//! read and written at its ABI offset.

use vstd::prelude::*;

use crate::activation_abi as abi;
use crate::record::{
    i32_field, lemma_i32_u32_field, lemma_with_u32, lemma_with_u64, read_i32, read_u32, read_u64,
    u32_field, u64_field, with_u32, with_u64, write_i32, write_u32, write_u64,
};

verus! {

/// The activation shared-memory ABI version used by ClientNode v6.
pub const ACTIVATION_VERSION: u32 = 1;

/// Values of `PW_NODE_ACTIVATION_*`.
#[derive(Clone, Copy, Debug, PartialEq, Eq, Structural)]
pub enum ActivationStatus {
    /// Prepared but not yet triggered.
    NotTriggered,
    /// Triggered and waiting for the client to claim the cycle.
    Triggered,
    /// Claimed by the processing client.
    Awake,
    /// Processing is complete and the node can be prepared again.
    Finished,
    /// The node is not schedulable.
    Inactive,
}

pub open spec fn status_value(s: ActivationStatus) -> u32 {
    match s {
        ActivationStatus::NotTriggered => 0,
        ActivationStatus::Triggered => 1,
        ActivationStatus::Awake => 2,
        ActivationStatus::Finished => 3,
        ActivationStatus::Inactive => 4,
    }
}

/// The status a stored value denotes, if any.
pub open spec fn status_of(v: u32) -> Option<ActivationStatus> {
    if v == 0 {
        Some(ActivationStatus::NotTriggered)
    } else if v == 1 {
        Some(ActivationStatus::Triggered)
    } else if v == 2 {
        Some(ActivationStatus::Awake)
    } else if v == 3 {
        Some(ActivationStatus::Finished)
    } else if v == 4 {
        Some(ActivationStatus::Inactive)
    } else {
        None
    }
}

impl ActivationStatus {
    /// Parses a stored status value.
    pub fn try_from_u32(v: u32) -> (r: Result<ActivationStatus, ActivationError>)
        ensures
            r == (match status_of(v) {
                Some(s) => Ok::<ActivationStatus, ActivationError>(s),
                None => Err(ActivationError::UnknownStatus(v)),
            }),
    {
        if v == 0 {
            Ok(ActivationStatus::NotTriggered)
        } else if v == 1 {
            Ok(ActivationStatus::Triggered)
        } else if v == 2 {
            Ok(ActivationStatus::Awake)
        } else if v == 3 {
            Ok(ActivationStatus::Finished)
        } else if v == 4 {
            Ok(ActivationStatus::Inactive)
        } else {
            Err(ActivationError::UnknownStatus(v))
        }
    }

    /// The stored value of this status.
    pub fn as_u32(self) -> (v: u32)
        ensures
            v == status_value(self),
            status_of(v) == Some(self),
    {
        match self {
            ActivationStatus::NotTriggered => 0,
            ActivationStatus::Triggered => 1,
            ActivationStatus::Awake => 2,
            ActivationStatus::Finished => 3,
            ActivationStatus::Inactive => 4,
        }
    }
}

/// Failure to construct or operate on an activation view.
#[derive(Clone, Copy, Debug, PartialEq, Eq, Structural)]
pub enum ActivationError {
    /// The region's address was null.
    Null,
    /// The region is smaller than the record.
    Undersized { actual: usize, required: usize },
    /// The region's address does not meet the record's alignment.
    Misaligned { address: usize, required: usize },
    /// The server activation ABI is not version 1.
    UnsupportedVersion(u32),
    /// The record held an unknown status.
    UnknownStatus(u32),
    /// The status was not the transition's required predecessor.
    InvalidTransition { expected: ActivationStatus, actual: ActivationStatus },
    /// A dependency count was already zero or negative.
    InvalidPending(i32),
}

/// Result of decrementing a peer's pending dependency count.
#[derive(Clone, Copy, Debug, PartialEq, Eq, Structural)]
pub enum TriggerOutcome {
    /// Other dependencies remain; no status transition occurred.
    Waiting(i32),
    /// Pending reached zero and `NOT_TRIGGERED -> TRIGGERED` succeeded.
    Triggered,
}

// ---------------------------------------------------------------------------
// The record's fields and the effect of each operation on its bytes.

pub open spec fn status_word(b: Seq<u8>) -> u32 {
    u32_field(b, abi::STATUS as int)
}

pub open spec fn process_result_of(b: Seq<u8>) -> i32 {
    i32_field(b, abi::STATE0_STATUS as int)
}

pub open spec fn required_of(b: Seq<u8>) -> i32 {
    i32_field(b, abi::STATE0_REQUIRED as int)
}

pub open spec fn pending_of(b: Seq<u8>) -> i32 {
    i32_field(b, abi::STATE0_PENDING as int)
}

pub open spec fn signal_time_of(b: Seq<u8>) -> u64 {
    u64_field(b, abi::SIGNAL_TIME as int)
}

pub open spec fn awake_time_of(b: Seq<u8>) -> u64 {
    u64_field(b, abi::AWAKE_TIME as int)
}

pub open spec fn finish_time_of(b: Seq<u8>) -> u64 {
    u64_field(b, abi::FINISH_TIME as int)
}

pub open spec fn with_status(b: Seq<u8>, s: ActivationStatus) -> Seq<u8> {
    with_u32(b, abi::STATUS as int, status_value(s))
}

/// The outcome of a compare-and-swap of the status from `from` to `to`.
pub open spec fn transition_result(b: Seq<u8>, from: ActivationStatus) -> Result<
    (),
    ActivationError,
> {
    if status_word(b) == status_value(from) {
        Ok(())
    } else {
        match status_of(status_word(b)) {
            Some(actual) => Err(ActivationError::InvalidTransition { expected: from, actual }),
            None => Err(ActivationError::UnknownStatus(status_word(b))),
        }
    }
}

/// The record after a compare-and-swap of the status from `from` to `to`.
pub open spec fn transitioned(b: Seq<u8>, from: ActivationStatus, to: ActivationStatus) -> Seq<
    u8,
> {
    if status_word(b) == status_value(from) {
        with_status(b, to)
    } else {
        b
    }
}

/// The record after claiming a cycle at `now`.
pub open spec fn claimed(b: Seq<u8>, now: u64) -> Seq<u8> {
    if status_word(b) == status_value(ActivationStatus::Triggered) {
        with_u64(with_status(b, ActivationStatus::Awake), abi::AWAKE_TIME as int, now)
    } else {
        b
    }
}

/// The record after publishing a cycle result at `now`.
pub open spec fn published(b: Seq<u8>, status: i32, now: u64) -> Seq<u8> {
    transitioned(
        with_u64(
            with_u32(b, abi::STATE0_STATUS as int, status as u32),
            abi::FINISH_TIME as int,
            now,
        ),
        ActivationStatus::Awake,
        ActivationStatus::Finished,
    )
}

/// A record region the views accept: large enough and of activation ABI 1.
pub open spec fn region_ok(b: Seq<u8>) -> bool {
    b.len() >= abi::SIZE
}

/// Why an image of a record mapped at `address` is refused, if it is: a
/// null or misaligned address, a short region, or a server version other
/// than 1.
pub open spec fn view_refusal(address: usize, b: Seq<u8>) -> Option<ActivationError> {
    if address == 0 {
        Some(ActivationError::Null)
    } else if b.len() < abi::SIZE {
        Some(ActivationError::Undersized { actual: b.len() as usize, required: abi::SIZE })
    } else if address % abi::ALIGN != 0 {
        Some(ActivationError::Misaligned { address, required: abi::ALIGN })
    } else if u32_field(b, abi::SERVER_VERSION as int) != ACTIVATION_VERSION {
        Some(ActivationError::UnsupportedVersion(u32_field(b, abi::SERVER_VERSION as int)))
    } else {
        None
    }
}

/// View over the byte image of one `pw_node_activation` record.
pub struct ActivationView {
    region: Vec<u8>,
}

impl View for ActivationView {
    type V = Seq<u8>;

    closed spec fn view(&self) -> Seq<u8> {
        self.region@
    }
}

/// Proof that one triggered cycle was claimed; it authorises publishing
/// that cycle's result once.
pub struct CycleClaim {
    claimed: (),
}

impl ActivationView {
    /// Accepts the byte image of a record mapped at `address`: the address
    /// must be non-null and aligned, the region large enough, and the server
    /// version 1.
    pub fn from_raw_parts(address: usize, region: Vec<u8>) -> (r: Result<Self, ActivationError>)
        ensures
            address == 0 ==> r == Err::<Self, ActivationError>(ActivationError::Null),
            address != 0 && region@.len() < abi::SIZE ==> r == Err::<Self, ActivationError>(
                ActivationError::Undersized { actual: region@.len() as usize, required: abi::SIZE },
            ),
            address != 0 && region@.len() >= abi::SIZE && address % abi::ALIGN != 0 ==> r == Err::<
                Self,
                ActivationError,
            >(ActivationError::Misaligned { address, required: abi::ALIGN }),
            address != 0 && region@.len() >= abi::SIZE && address % abi::ALIGN == 0 && u32_field(
                region@,
                abi::SERVER_VERSION as int,
            ) != ACTIVATION_VERSION ==> r == Err::<Self, ActivationError>(
                ActivationError::UnsupportedVersion(
                    u32_field(region@, abi::SERVER_VERSION as int),
                ),
            ),
            r matches Ok(v) ==> v@ == region@ && u32_field(region@, abi::SERVER_VERSION as int)
                == ACTIVATION_VERSION,
            address != 0 && region@.len() >= abi::SIZE && address % abi::ALIGN == 0 && u32_field(
                region@,
                abi::SERVER_VERSION as int,
            ) == ACTIVATION_VERSION ==> r is Ok,
            r is Ok <==> view_refusal(address, region@) is None,
            r matches Err(e) ==> view_refusal(address, region@) == Some(e),
            r matches Ok(v) ==> region_ok(v@),
    {
        if address == 0 {
            return Err(ActivationError::Null);
        }
        let len = region.len();
        if len < abi::SIZE {
            return Err(ActivationError::Undersized { actual: len, required: abi::SIZE });
        }
        if address % abi::ALIGN != 0 {
            return Err(ActivationError::Misaligned { address, required: abi::ALIGN });
        }
        let version = read_u32(&region, abi::SERVER_VERSION);
        if version != ACTIVATION_VERSION {
            return Err(ActivationError::UnsupportedVersion(version));
        }
        Ok(ActivationView { region })
    }

    /// The size an activation mapping must have.
    pub fn required_size() -> (n: usize)
        ensures
            n == abi::SIZE,
    {
        abi::SIZE
    }

    /// The alignment an activation mapping must have.
    pub fn required_alignment() -> (n: usize)
        ensures
            n == abi::ALIGN,
    {
        abi::ALIGN
    }

    /// The record's bytes.
    pub fn bytes(&self) -> (b: &Vec<u8>)
        ensures
            b@ == self@,
    {
        &self.region
    }

    /// Publishes activation ABI v1 support in `client_version`.
    pub fn initialize_client_v1(&mut self)
        requires
            region_ok(old(self)@),
        ensures
            region_ok(final(self)@),
            final(self)@.len() == old(self)@.len(),
            final(self)@ == with_u32(old(self)@, abi::CLIENT_VERSION as int, ACTIVATION_VERSION),
    {
        proof {
            lemma_with_u32(self.region@, abi::CLIENT_VERSION as int, ACTIVATION_VERSION);
        }
        write_u32(&mut self.region, abi::CLIENT_VERSION, ACTIVATION_VERSION);
    }

    /// The current status.
    pub fn status(&self) -> (r: Result<ActivationStatus, ActivationError>)
        requires
            region_ok(self@),
        ensures
            r == (match status_of(status_word(self@)) {
                Some(s) => Ok::<ActivationStatus, ActivationError>(s),
                None => Err(ActivationError::UnknownStatus(status_word(self@))),
            }),
    {
        ActivationStatus::try_from_u32(read_u32(&self.region, abi::STATUS))
    }

    fn transition(&mut self, from: ActivationStatus, to: ActivationStatus) -> (r: Result<
        (),
        ActivationError,
    >)
        requires
            region_ok(old(self)@),
        ensures
            region_ok(final(self)@),
            final(self)@.len() == old(self)@.len(),
            r == transition_result(old(self)@, from),
            final(self)@ == transitioned(old(self)@, from, to),
    {
        proof {
            lemma_with_u32(self.region@, abi::STATUS as int, status_value(to));
        }
        let current = read_u32(&self.region, abi::STATUS);
        if current == from.as_u32() {
            write_u32(&mut self.region, abi::STATUS, to.as_u32());
            Ok(())
        } else {
            match ActivationStatus::try_from_u32(current) {
                Ok(actual) => Err(ActivationError::InvalidTransition { expected: from, actual }),
                Err(e) => Err(e),
            }
        }
    }

    /// Makes the node schedulable: `INACTIVE -> FINISHED`.
    pub fn mark_ready(&mut self) -> (r: Result<(), ActivationError>)
        requires
            region_ok(old(self)@),
        ensures
            region_ok(final(self)@),
            final(self)@.len() == old(self)@.len(),
            r == transition_result(old(self)@, ActivationStatus::Inactive),
            final(self)@ == transitioned(
                old(self)@,
                ActivationStatus::Inactive,
                ActivationStatus::Finished,
            ),
    {
        self.transition(ActivationStatus::Inactive, ActivationStatus::Finished)
    }

    /// Removes scheduling authorization whatever the prior status, which it
    /// returns.
    pub fn deactivate(&mut self) -> (r: Result<ActivationStatus, ActivationError>)
        requires
            region_ok(old(self)@),
        ensures
            region_ok(final(self)@),
            final(self)@.len() == old(self)@.len(),
            final(self)@ == with_status(old(self)@, ActivationStatus::Inactive),
            r == (match status_of(status_word(old(self)@)) {
                Some(s) => Ok::<ActivationStatus, ActivationError>(s),
                None => Err(ActivationError::UnknownStatus(status_word(old(self)@))),
            }),
    {
        proof {
            lemma_with_u32(self.region@, abi::STATUS as int, 4);
        }
        let previous = read_u32(&self.region, abi::STATUS);
        write_u32(&mut self.region, abi::STATUS, ActivationStatus::Inactive.as_u32());
        ActivationStatus::try_from_u32(previous)
    }

    /// Claims one triggered cycle (`TRIGGERED -> AWAKE`) and records its
    /// awake time.
    pub fn claim_cycle(&mut self, now_ns: u64) -> (r: Result<CycleClaim, ActivationError>)
        requires
            region_ok(old(self)@),
        ensures
            region_ok(final(self)@),
            final(self)@.len() == old(self)@.len(),
            r is Ok <==> transition_result(old(self)@, ActivationStatus::Triggered) is Ok,
            r is Err ==> r == Err::<CycleClaim, ActivationError>(
                transition_result(old(self)@, ActivationStatus::Triggered)->Err_0,
            ),
            final(self)@ == claimed(old(self)@, now_ns),
    {
        proof {
            lemma_with_u32(self.region@, abi::STATUS as int, 2);
        }
        match self.transition(ActivationStatus::Triggered, ActivationStatus::Awake) {
            Ok(()) => {
                proof {
                    lemma_with_u64(self.region@, abi::AWAKE_TIME as int, now_ns);
                }
                write_u64(&mut self.region, abi::AWAKE_TIME, now_ns);
                Ok(CycleClaim { claimed: () })
            },
            Err(e) => Err(e),
        }
    }

    /// `state[0].status`, the process result.
    pub fn process_result(&self) -> (r: i32)
        requires
            region_ok(self@),
        ensures
            r == process_result_of(self@),
    {
        read_i32(&self.region, abi::STATE0_STATUS)
    }

    /// `state[0].required`.
    pub fn required(&self) -> (r: i32)
        requires
            region_ok(self@),
        ensures
            r == required_of(self@),
    {
        read_i32(&self.region, abi::STATE0_REQUIRED)
    }

    /// Sets `state[0].required`.
    pub fn set_required(&mut self, required: i32)
        requires
            region_ok(old(self)@),
        ensures
            region_ok(final(self)@),
            final(self)@.len() == old(self)@.len(),
            final(self)@ == with_u32(old(self)@, abi::STATE0_REQUIRED as int, required as u32),
    {
        proof {
            lemma_with_u32(self.region@, abi::STATE0_REQUIRED as int, required as u32);
        }
        write_i32(&mut self.region, abi::STATE0_REQUIRED, required);
    }

    /// `state[0].pending`.
    pub fn pending(&self) -> (r: i32)
        requires
            region_ok(self@),
        ensures
            r == pending_of(self@),
    {
        read_i32(&self.region, abi::STATE0_PENDING)
    }

    /// Resets the pending dependency count to the required count.
    pub fn reset_pending(&mut self) -> (r: Result<i32, ActivationError>)
        requires
            region_ok(old(self)@),
        ensures
            region_ok(final(self)@),
            final(self)@.len() == old(self)@.len(),
            required_of(old(self)@) < 0 ==> r == Err::<i32, ActivationError>(
                ActivationError::InvalidPending(required_of(old(self)@)),
            ) && final(self)@ == old(self)@,
            required_of(old(self)@) >= 0 ==> r == Ok::<i32, ActivationError>(
                required_of(old(self)@),
            ) && final(self)@ == with_u32(
                old(self)@,
                abi::STATE0_PENDING as int,
                required_of(old(self)@) as u32,
            ),
    {
        proof {
            lemma_with_u32(self.region@, abi::STATE0_PENDING as int, required_of(self@) as u32);
        }
        let required = read_i32(&self.region, abi::STATE0_REQUIRED);
        if required < 0 {
            return Err(ActivationError::InvalidPending(required));
        }
        write_i32(&mut self.region, abi::STATE0_PENDING, required);
        Ok(required)
    }

    /// Decrements the pending count and, when it reaches zero, triggers the
    /// node (`NOT_TRIGGERED -> TRIGGERED`) and records the signal time.
    pub fn decrement_pending_and_trigger(&mut self, now_ns: u64) -> (r: Result<
        TriggerOutcome,
        ActivationError,
    >)
        requires
            region_ok(old(self)@),
        ensures
            region_ok(final(self)@),
            final(self)@.len() == old(self)@.len(),
            pending_of(old(self)@) <= 0 ==> r == Err::<TriggerOutcome, ActivationError>(
                ActivationError::InvalidPending(pending_of(old(self)@)),
            ) && final(self)@ == old(self)@,
            pending_of(old(self)@) > 1 ==> r == Ok::<TriggerOutcome, ActivationError>(
                TriggerOutcome::Waiting((pending_of(old(self)@) - 1) as i32),
            ) && final(self)@ == decremented(old(self)@),
            pending_of(old(self)@) == 1 ==> ({
                let d = decremented(old(self)@);
                match transition_result(d, ActivationStatus::NotTriggered) {
                    Ok(_) => r == Ok::<TriggerOutcome, ActivationError>(TriggerOutcome::Triggered)
                        && final(self)@ == with_u64(
                        with_status(d, ActivationStatus::Triggered),
                        abi::SIGNAL_TIME as int,
                        now_ns,
                    ),
                    Err(e) => r == Err::<TriggerOutcome, ActivationError>(e) && final(self)@ == d,
                }
            }),
    {
        let current = read_i32(&self.region, abi::STATE0_PENDING);
        if current <= 0 {
            return Err(ActivationError::InvalidPending(current));
        }
        proof {
            lemma_with_u32(self.region@, abi::STATE0_PENDING as int, (current - 1) as i32 as u32);
        }
        write_i32(&mut self.region, abi::STATE0_PENDING, current - 1);
        if current > 1 {
            return Ok(TriggerOutcome::Waiting(current - 1));
        }
        match self.transition(ActivationStatus::NotTriggered, ActivationStatus::Triggered) {
            Ok(()) => {
                proof {
                    lemma_with_u64(self.region@, abi::SIGNAL_TIME as int, now_ns);
                }
                write_u64(&mut self.region, abi::SIGNAL_TIME, now_ns);
                Ok(TriggerOutcome::Triggered)
            },
            Err(e) => Err(e),
        }
    }

    /// `signal_time`.
    pub fn signal_time(&self) -> (r: u64)
        requires
            region_ok(self@),
        ensures
            r == signal_time_of(self@),
    {
        read_u64(&self.region, abi::SIGNAL_TIME)
    }

    /// `awake_time`.
    pub fn awake_time(&self) -> (r: u64)
        requires
            region_ok(self@),
        ensures
            r == awake_time_of(self@),
    {
        read_u64(&self.region, abi::AWAKE_TIME)
    }

    /// `finish_time`.
    pub fn finish_time(&self) -> (r: u64)
        requires
            region_ok(self@),
        ensures
            r == finish_time_of(self@),
    {
        read_u64(&self.region, abi::FINISH_TIME)
    }
}

/// The record after decrementing the pending count.
pub open spec fn decremented(b: Seq<u8>) -> Seq<u8> {
    with_u32(b, abi::STATE0_PENDING as int, (pending_of(b) - 1) as i32 as u32)
}

impl CycleClaim {
    /// Publishes the process result and finish time, then completes the
    /// cycle (`AWAKE -> FINISHED`).
    pub fn publish_result_and_finish(
        self,
        activation: &mut ActivationView,
        process_status: i32,
        now_ns: u64,
    ) -> (r: Result<(), ActivationError>)
        requires
            region_ok(old(activation)@),
        ensures
            region_ok(final(activation)@),
            final(activation)@.len() == old(activation)@.len(),
            final(activation)@ == published(old(activation)@, process_status, now_ns),
            r == transition_result(
                with_u64(
                    with_u32(old(activation)@, abi::STATE0_STATUS as int, process_status as u32),
                    abi::FINISH_TIME as int,
                    now_ns,
                ),
                ActivationStatus::Awake,
            ),
    {
        write_i32(&mut activation.region, abi::STATE0_STATUS, process_status);
        proof {
            lemma_with_u32(old(activation)@, abi::STATE0_STATUS as int, process_status as u32);
        }
        write_u64(&mut activation.region, abi::FINISH_TIME, now_ns);
        proof {
            lemma_with_u64(
                with_u32(old(activation)@, abi::STATE0_STATUS as int, process_status as u32),
                abi::FINISH_TIME as int,
                now_ns,
            );
        }
        activation.transition(ActivationStatus::Awake, ActivationStatus::Finished)
    }
}

/// A claimed cycle that publishes its result ends `FINISHED`, with the claim's
/// awake time, the published finish time and the published process result.
pub proof fn law_claim_then_publish(b: Seq<u8>, awake: u64, result: i32, finish: u64)
    requires
        region_ok(b),
        status_word(b) == status_value(ActivationStatus::Triggered),
    ensures
        transition_result(b, ActivationStatus::Triggered) is Ok,
        status_of(status_word(published(claimed(b, awake), result, finish))) == Some(
            ActivationStatus::Finished,
        ),
        awake_time_of(published(claimed(b, awake), result, finish)) == awake,
        finish_time_of(published(claimed(b, awake), result, finish)) == finish,
        process_result_of(published(claimed(b, awake), result, finish)) == result,
{
    let c0 = with_status(b, ActivationStatus::Awake);
    lemma_with_u32(b, abi::STATUS as int, 2);
    let c = with_u64(c0, abi::AWAKE_TIME as int, awake);
    lemma_with_u64(c0, abi::AWAKE_TIME as int, awake);
    assert(claimed(b, awake) == c);
    let d0 = with_u32(c, abi::STATE0_STATUS as int, result as u32);
    lemma_with_u32(c, abi::STATE0_STATUS as int, result as u32);
    let d = with_u64(d0, abi::FINISH_TIME as int, finish);
    lemma_with_u64(d0, abi::FINISH_TIME as int, finish);
    assert(status_word(d) == 2);
    lemma_with_u32(d, abi::STATUS as int, 3);
    lemma_i32_u32_field(result);
}

/// Deactivation always leaves the node `INACTIVE`, from which `mark_ready`
/// makes it `FINISHED`.
pub proof fn law_deactivate_then_ready(b: Seq<u8>)
    requires
        region_ok(b),
    ensures
        status_of(status_word(with_status(b, ActivationStatus::Inactive))) == Some(
            ActivationStatus::Inactive,
        ),
        transition_result(with_status(b, ActivationStatus::Inactive), ActivationStatus::Inactive)
            is Ok,
        status_of(
            status_word(
                transitioned(
                    with_status(b, ActivationStatus::Inactive),
                    ActivationStatus::Inactive,
                    ActivationStatus::Finished,
                ),
            ),
        ) == Some(ActivationStatus::Finished),
{
    lemma_with_u32(b, abi::STATUS as int, 4);
    lemma_with_u32(with_status(b, ActivationStatus::Inactive), abi::STATUS as int, 3);
}

/// A decrement that leaves dependencies outstanding lowers the pending
/// count by one and changes neither the status nor the times.
pub proof fn law_decrement_keeps_status(b: Seq<u8>)
    requires
        region_ok(b),
        pending_of(b) > 1,
    ensures
        pending_of(decremented(b)) == pending_of(b) - 1,
        status_word(decremented(b)) == status_word(b),
        signal_time_of(decremented(b)) == signal_time_of(b),
        required_of(decremented(b)) == required_of(b),
{
    lemma_with_u32(b, abi::STATE0_PENDING as int, (pending_of(b) - 1) as i32 as u32);
    lemma_i32_u32_field((pending_of(b) - 1) as i32);
}

/// After the required count is copied into the pending count, as many
/// decrements as it holds bring a `NOT_TRIGGERED` node to `TRIGGERED`: the
/// last one triggers it.
pub proof fn law_last_decrement_triggers(b: Seq<u8>, now: u64)
    requires
        region_ok(b),
        pending_of(b) == 1,
        status_word(b) == status_value(ActivationStatus::NotTriggered),
    ensures
        transition_result(decremented(b), ActivationStatus::NotTriggered) is Ok,
        pending_of(decremented(b)) == 0,
        status_of(
            status_word(
                with_u64(
                    with_status(decremented(b), ActivationStatus::Triggered),
                    abi::SIGNAL_TIME as int,
                    now,
                ),
            ),
        ) == Some(ActivationStatus::Triggered),
        signal_time_of(
            with_u64(
                with_status(decremented(b), ActivationStatus::Triggered),
                abi::SIGNAL_TIME as int,
                now,
            ),
        ) == now,
{
    let d = decremented(b);
    lemma_with_u32(b, abi::STATE0_PENDING as int, 0);
    lemma_i32_u32_field(0);
    let t = with_status(d, ActivationStatus::Triggered);
    lemma_with_u32(d, abi::STATUS as int, 1);
    lemma_with_u64(t, abi::SIGNAL_TIME as int, now);
}

} // verus!
