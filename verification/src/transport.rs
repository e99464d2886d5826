//! Per-node transport generations: the node's own activation record and
//! its two eventfds.
//!
//! The record lives in memory shared with the server, so every operation
//! reads a fresh image of it through the resolver, checks it, applies one
//! state transition to the image and stores back only the fields that the
//! transition wrote.

use vstd::prelude::*;

use crate::activation::{
    claimed, published, status_of, status_word, transition_result, transitioned, view_refusal,
    with_status, ActivationError, ActivationStatus, ActivationView, CycleClaim,
};
use crate::activation_abi as abi;
use crate::config::TransportDescriptor;
use crate::error::SessionError;
use crate::memory::{
    field_of, store_field, writes_view, MappedRange, MemoryInterval, MemoryKey, MemoryMapping,
    MemoryResolver, RecordStep, RecordWrite,
};
use crate::record::{with_u32, with_u64};

verus! {

/// The activation ABI version the client publishes.
pub const CLIENT_ACTIVATION_VERSION: u32 = 1;

/// Owns one exact activation mapping and both transport eventfds.
pub struct TransportGeneration<F> {
    id: u64,
    trigger: F,
    completion: F,
    activation_key: MemoryKey,
    mapping: MemoryMapping,
}

/// What a status read of `b` gives.
pub open spec fn status_result(b: Seq<u8>) -> Result<ActivationStatus, SessionError> {
    match status_of(status_word(b)) {
        Some(s) => Ok(s),
        None => Err(SessionError::Activation(ActivationError::UnknownStatus(status_word(b)))),
    }
}

/// What reading the status of an image `b` of a record mapped at `address`
/// gives.
pub open spec fn status_outcome(address: usize, b: Seq<u8>) -> Result<ActivationStatus, SessionError> {
    match view_refusal(address, b) {
        Some(e) => Err(SessionError::Activation(e)),
        None => status_result(b),
    }
}

/// What `INACTIVE -> FINISHED` on an image `b` mapped at `address` gives.
pub open spec fn ready_outcome(address: usize, b: Seq<u8>) -> Result<(), SessionError> {
    match view_refusal(address, b) {
        Some(e) => Err(SessionError::Activation(e)),
        None => match transition_result(b, ActivationStatus::Inactive) {
            Ok(_) => Ok(()),
            Err(e) => Err(SessionError::Activation(e)),
        },
    }
}

/// What claiming the cycle of an image `b` mapped at `address` gives:
/// whether a TRIGGERED cycle was claimed, or the failure.
pub open spec fn claim_outcome(address: usize, b: Seq<u8>) -> Result<bool, SessionError> {
    match view_refusal(address, b) {
        Some(e) => Err(SessionError::Activation(e)),
        None => match transition_result(b, ActivationStatus::Triggered) {
            Ok(_) => Ok(true),
            Err(ActivationError::InvalidTransition { .. }) => Ok(false),
            Err(e) => Err(SessionError::Activation(e)),
        },
    }
}

/// What publishing `status` at `now` and `AWAKE -> FINISHED` on an image
/// `b` mapped at `address` gives.
pub open spec fn finish_outcome(address: usize, b: Seq<u8>, status: i32, now: u64) -> Result<
    (),
    SessionError,
> {
    match view_refusal(address, b) {
        Some(e) => Err(SessionError::Activation(e)),
        None => match transition_result(
            with_u64(with_u32(b, abi::STATE0_STATUS as int, status as u32), abi::FINISH_TIME as int, now),
            ActivationStatus::Awake,
        ) {
            Ok(_) => Ok(()),
            Err(e) => Err(SessionError::Activation(e)),
        },
    }
}

/// The stores of `INACTIVE -> FINISHED` on an image `b`: the status, once
/// the transition holds.
pub open spec fn ready_writes(address: usize, b: Seq<u8>) -> Seq<(int, Seq<u8>)> {
    if ready_outcome(address, b) is Ok {
        seq![field_of(transitioned(b, ActivationStatus::Inactive, ActivationStatus::Finished), abi::STATUS as int, 4)]
    } else {
        Seq::empty()
    }
}

/// The stores of leaving scheduling on an image `b`: the INACTIVE status,
/// whenever the record is usable.
pub open spec fn deactivate_writes(address: usize, b: Seq<u8>) -> Seq<(int, Seq<u8>)> {
    if view_refusal(address, b) is None {
        seq![field_of(with_status(b, ActivationStatus::Inactive), abi::STATUS as int, 4)]
    } else {
        Seq::empty()
    }
}

/// The stores of claiming the cycle of an image `b` at `now`: the AWAKE
/// status and the awake time, once a TRIGGERED cycle is claimed.
pub open spec fn claim_writes(address: usize, b: Seq<u8>, now: u64) -> Seq<(int, Seq<u8>)> {
    if claim_outcome(address, b) == Ok::<bool, SessionError>(true) {
        let a = claimed(b, now);
        seq![field_of(a, abi::STATUS as int, 4), field_of(a, abi::AWAKE_TIME as int, 8)]
    } else {
        Seq::empty()
    }
}

/// The stores of finishing a cycle on an image `b`: the process result and
/// the finish time whenever the record is usable, then the FINISHED status
/// once `AWAKE -> FINISHED` holds.
pub open spec fn finish_writes(address: usize, b: Seq<u8>, status: i32, now: u64) -> Seq<(int, Seq<u8>)> {
    if view_refusal(address, b) is None {
        let a = published(b, status, now);
        let fields = seq![field_of(a, abi::STATE0_STATUS as int, 4), field_of(a, abi::FINISH_TIME as int, 8)];
        if finish_outcome(address, b, status, now) is Ok {
            fields.push(field_of(a, abi::STATUS as int, 4))
        } else {
            fields
        }
    } else {
        Seq::empty()
    }
}

impl<F> TransportGeneration<F> {
    pub closed spec fn wf(&self) -> bool {
        &&& self.mapping.range.offset + self.mapping.range.len <= usize::MAX
        &&& self.mapping.range.key == self.activation_key
    }

    pub closed spec fn spec_id(&self) -> u64 {
        self.id
    }

    pub closed spec fn spec_key(&self) -> MemoryKey {
        self.activation_key
    }

    pub closed spec fn spec_interval(&self) -> MemoryInterval {
        self.mapping.range.spec_interval()
    }

    /// Address the activation record is mapped at.
    pub closed spec fn spec_address(&self) -> usize {
        self.mapping.address
    }

    /// Bytes in the activation mapping.
    pub closed spec fn spec_len(&self) -> nat {
        self.mapping.range.len as nat
    }

    /// The process-wake eventfd.
    pub closed spec fn spec_trigger(&self) -> F {
        self.trigger
    }

    /// The completion eventfd.
    pub closed spec fn spec_completion(&self) -> F {
        self.completion
    }

    /// Maps and initializes a candidate before it can replace a live
    /// transport: the activation record must be usable, and the client's
    /// ABI version is published in it.
    pub fn bind<R: MemoryResolver>(id: u64, descriptor: TransportDescriptor<F>, memory: &R) -> (r:
        Result<Self, SessionError>)
        ensures
            r matches Ok(t) ==> {
                &&& t.wf()
                &&& t.spec_id() == id
                &&& t.spec_key().id == descriptor.activation.memory
                &&& t.spec_interval().start == descriptor.activation.offset
                &&& t.spec_interval().end == descriptor.activation.offset + descriptor.activation.len
                &&& t.spec_trigger() == descriptor.trigger_fd
                &&& t.spec_completion() == descriptor.completion_fd
            },
            r matches Err(e) ==> e is Memory || e is Activation,
            r is Ok ==> descriptor.activation.len >= crate::activation_abi::SIZE,
    {
        let key = match memory.resolve(descriptor.activation.memory) {
            Ok(k) => k,
            Err(e) => {
                return Err(SessionError::Memory(e));
            },
        };
        let mapping = match memory.map(
            key,
            descriptor.activation.offset,
            descriptor.activation.len,
            true,
        ) {
            Ok(m) => m,
            Err(e) => {
                return Err(SessionError::Memory(e));
            },
        };
        let image = memory.read(&mapping);
        let mut activation = match ActivationView::from_raw_parts(mapping.address, image) {
            Ok(v) => v,
            Err(e) => {
                return Err(SessionError::Activation(e));
            },
        };
        activation.initialize_client_v1();
        store_field(memory, &mapping, activation.bytes(), abi::CLIENT_VERSION, 4);
        Ok(
            TransportGeneration {
                id,
                trigger: descriptor.trigger_fd,
                completion: descriptor.completion_fd,
                activation_key: key,
                mapping,
            },
        )
    }

    /// Generation attached to runtime readiness registrations.
    pub fn id(&self) -> (g: u64)
        ensures
            g == self.spec_id(),
    {
        self.id
    }

    /// Exact imported generation of the activation mapping.
    pub fn activation_key(&self) -> (k: MemoryKey)
        ensures
            k == self.spec_key(),
    {
        self.activation_key
    }

    /// The activation mapping as an absolute interval.
    pub fn interval(&self) -> (i: MemoryInterval)
        requires
            self.wf(),
        ensures
            i == self.spec_interval(),
    {
        self.mapping.interval()
    }

    /// The checked range of the activation mapping.
    pub fn range(&self) -> (r: MappedRange)
        ensures
            r.spec_interval() == self.spec_interval(),
    {
        self.mapping.range
    }

    /// The activation mapping.
    pub fn mapping(&self) -> (m: &MemoryMapping)
        ensures
            m.range.spec_interval() == self.spec_interval(),
            m.address == self.spec_address(),
    {
        &self.mapping
    }

    /// The process-wake eventfd.
    pub fn trigger_fd(&self) -> (f: &F)
        ensures
            *f == self.spec_trigger(),
    {
        &self.trigger
    }

    /// The completion eventfd.
    pub fn completion_fd(&self) -> (f: &F)
        ensures
            *f == self.spec_completion(),
    {
        &self.completion
    }

    /// A checked view of the current record.
    fn open<R: MemoryResolver>(&self, memory: &R) -> (r: (Vec<u8>, Result<ActivationView, ActivationError>))
        ensures
            r.0@.len() == self.spec_len(),
            r.1 is Ok <==> view_refusal(self.spec_address(), r.0@) is None,
            r.1 matches Err(e) ==> view_refusal(self.spec_address(), r.0@) == Some(e),
            r.1 matches Ok(v) ==> v@ == r.0@ && v@.len() >= abi::SIZE,
    {
        let image = memory.read(&self.mapping);
        let copy = image.clone();
        assert(copy@ == image@);
        (copy, ActivationView::from_raw_parts(self.mapping.address, image))
    }

    /// The node's own activation status, read from the shared record.
    pub fn status<R: MemoryResolver>(&self, memory: &R) -> (r: Result<ActivationStatus, SessionError>)
        ensures
            exists|b: Seq<u8>| b.len() == self.spec_len() && r == #[trigger] status_outcome(self.spec_address(), b),
    {
        let (image, opened) = self.open(memory);
        let ghost b = image@;
        let r = match opened {
            Err(e) => Err(SessionError::Activation(e)),
            Ok(view) => match view.status() {
                Ok(s) => Ok(s),
                Err(e) => Err(SessionError::Activation(e)),
            },
        };
        assert(r == status_outcome(self.spec_address(), b));
        r
    }

    /// Makes the node schedulable: `INACTIVE -> FINISHED`.
    pub fn mark_ready<R: MemoryResolver>(&self, memory: &R) -> (r: (Result<(), SessionError>, RecordStep))
        requires
            self.wf(),
        ensures
            r.1.image@.len() == self.spec_len(),
            r.0 == ready_outcome(self.spec_address(), r.1.image@),
            writes_view(r.1.writes@) == ready_writes(self.spec_address(), r.1.image@),
    {
        let (image, opened) = self.open(memory);
        let ghost b = image@;
        let mut writes: Vec<RecordWrite> = Vec::new();
        let r = match opened {
            Err(e) => Err(SessionError::Activation(e)),
            Ok(view) => {
                let mut view = view;
                match view.mark_ready() {
                    Ok(()) => {
                        writes.push(store_field(memory, &self.mapping, view.bytes(), abi::STATUS, 4));
                        Ok(())
                    },
                    Err(e) => Err(SessionError::Activation(e)),
                }
            },
        };
        assert(r == ready_outcome(self.spec_address(), b));
        assert(writes_view(writes@) =~= ready_writes(self.spec_address(), b));
        (r, RecordStep { image, writes })
    }

    /// Leaves graph scheduling between callbacks; returns the prior status.
    pub fn deactivate<R: MemoryResolver>(&self, memory: &R) -> (r: (Result<ActivationStatus, SessionError>, RecordStep))
        requires
            self.wf(),
        ensures
            r.1.image@.len() == self.spec_len(),
            r.0 == status_outcome(self.spec_address(), r.1.image@),
            writes_view(r.1.writes@) == deactivate_writes(self.spec_address(), r.1.image@),
    {
        let (image, opened) = self.open(memory);
        let ghost b = image@;
        let mut writes: Vec<RecordWrite> = Vec::new();
        let r = match opened {
            Err(e) => Err(SessionError::Activation(e)),
            Ok(view) => {
                let mut view = view;
                let prior = view.deactivate();
                writes.push(store_field(memory, &self.mapping, view.bytes(), abi::STATUS, 4));
                match prior {
                    Ok(s) => Ok(s),
                    Err(e) => Err(SessionError::Activation(e)),
                }
            },
        };
        assert(r == status_outcome(self.spec_address(), b));
        assert(writes_view(writes@) =~= deactivate_writes(self.spec_address(), b));
        (r, RecordStep { image, writes })
    }

    /// Claims the triggered cycle a wake announces. `None` when the record
    /// was not TRIGGERED, so that no callback may run.
    pub fn claim_cycle<R: MemoryResolver>(&self, memory: &R, awake_ns: u64) -> (r: (Result<
        Option<CycleClaim>,
        SessionError,
    >, RecordStep))
        requires
            self.wf(),
        ensures
            r.1.image@.len() == self.spec_len(),
            claim_outcome(self.spec_address(), r.1.image@) == (match r.0 {
                Ok(c) => Ok::<bool, SessionError>(c is Some),
                Err(e) => Err(e),
            }),
            writes_view(r.1.writes@) == claim_writes(self.spec_address(), r.1.image@, awake_ns),
    {
        let (image, opened) = self.open(memory);
        let ghost b = image@;
        let mut writes: Vec<RecordWrite> = Vec::new();
        let r = match opened {
            Err(e) => Err(SessionError::Activation(e)),
            Ok(view) => {
                let mut view = view;
                match view.claim_cycle(awake_ns) {
                    Ok(claim) => {
                        writes.push(store_field(memory, &self.mapping, view.bytes(), abi::STATUS, 4));
                        writes.push(store_field(memory, &self.mapping, view.bytes(), abi::AWAKE_TIME, 8));
                        Ok(Some(claim))
                    },
                    Err(ActivationError::InvalidTransition { expected, actual }) => Ok(None),
                    Err(e) => Err(SessionError::Activation(e)),
                }
            },
        };
        assert(claim_outcome(self.spec_address(), b) == (match r {
            Ok(c) => Ok::<bool, SessionError>(c is Some),
            Err(e) => Err(e),
        }));
        assert(writes_view(writes@) =~= claim_writes(self.spec_address(), b, awake_ns));
        (r, RecordStep { image, writes })
    }

    /// Publishes a claimed cycle's result and finish time and completes it.
    pub fn finish_cycle<R: MemoryResolver>(
        &self,
        memory: &R,
        claim: CycleClaim,
        process_status: i32,
        finish_ns: u64,
    ) -> (r: (Result<(), SessionError>, RecordStep))
        requires
            self.wf(),
        ensures
            r.1.image@.len() == self.spec_len(),
            r.0 == finish_outcome(self.spec_address(), r.1.image@, process_status, finish_ns),
            writes_view(r.1.writes@) == finish_writes(self.spec_address(), r.1.image@, process_status, finish_ns),
    {
        let (image, opened) = self.open(memory);
        let ghost b = image@;
        let mut writes: Vec<RecordWrite> = Vec::new();
        let r = match opened {
            Err(e) => Err(SessionError::Activation(e)),
            Ok(view) => {
                let mut view = view;
                let finished = claim.publish_result_and_finish(&mut view, process_status, finish_ns);
                writes.push(store_field(memory, &self.mapping, view.bytes(), abi::STATE0_STATUS, 4));
                writes.push(store_field(memory, &self.mapping, view.bytes(), abi::FINISH_TIME, 8));
                match finished {
                    Ok(()) => {
                        writes.push(store_field(memory, &self.mapping, view.bytes(), abi::STATUS, 4));
                        Ok(())
                    },
                    Err(e) => Err(SessionError::Activation(e)),
                }
            },
        };
        assert(r == finish_outcome(self.spec_address(), b, process_status, finish_ns));
        assert(writes_view(writes@) =~= finish_writes(self.spec_address(), b, process_status, finish_ns));
        (r, RecordStep { image, writes })
    }
}

} // verus!
