//! The single-owner ClientNode session state machine: configuration
//! commands between callbacks, and one claimed cycle per wake.
//!
//! Every mapping the session binds (its own activation, the output IO,
//! metadata and media ranges, and each downstream activation) is checked
//! against all others before it is installed, so that no two writable
//! mappings alias one backing range.

use vstd::prelude::*;

use crate::activation::{ActivationError, ActivationStatus};
use crate::config::{
    same_buffer_set, same_format, BufferSetDescriptor, NegotiatedAudioFormat, NodeId, PeerActivationDescriptor,
    PeerActivationUpdate, PortIoDescriptor, PortIoUpdate, TransportDescriptor,
    UnsupportedFeature,
};
use crate::error::SessionError;
use crate::config::{MemoryId, RegionRef};
use crate::memory::{MemoryError, MemoryInterval, MemoryKey, MemoryResolver};
use crate::output::{
    bound_as, descriptor_ok, output_published, requested_buffer, OutputGeneration, OutputProcess, OutputStep,
};
use crate::peer::{propagated, triggered_all, PeerActivation, PeerSet};
use crate::memory::{writes_view, RecordStep};
use crate::transport::{
    claim_outcome, claim_writes, deactivate_writes, finish_outcome, finish_writes, TransportGeneration,
};
use crate::wire;

verus! {

/// Most downstream activations, installed and pending together.
pub const MAX_SESSION_PEERS: usize = 64;
/// `EAGAIN`: a non-blocking eventfd had no count to read.
pub const EAGAIN: i32 = 11;
/// `-EIO`, the process result of a failed cycle.
pub const PROCESS_FAILED: i32 = -5;

/// Node command intent, kept apart from graph-active intent.
#[derive(Clone, Copy, Debug, PartialEq, Eq, Structural)]
pub enum NodeCommandState {
    /// Not started or explicitly paused.
    Pause,
    /// Start once configuration and active intent are both present.
    Start,
    /// Configuration-discarding suspension.
    Suspend,
}

/// Observable state of one session owner.
#[derive(Clone, Copy, Debug, PartialEq, Eq, Structural)]
pub enum SessionState {
    /// Required configuration or memory is absent.
    Configuring,
    /// Complete configuration is bound but not scheduled.
    Ready,
    /// Active and accepting process claims.
    Running,
    /// The callback currently owns a cycle.
    CycleClaimed,
    /// Configuration remains but scheduling is paused.
    Stopped,
    /// A claimed cycle met a callback or propagation failure.
    Failed,
    /// Terminal teardown completed.
    Disconnected,
}

/// A command from the protocol conversion to the session owner.
pub enum SessionCommand<F> {
    /// Install or replace transport.
    ReplaceTransport(TransportDescriptor<F>),
    /// Install an exact supported format.
    SetFormat(NegotiatedAudioFormat),
    /// Clear format and the buffers and IO that depend on it.
    ClearFormat,
    /// Install or replace output buffers.
    UseBuffers(BufferSetDescriptor),
    /// Clear output buffers and IO.
    ClearBuffers,
    /// Install synchronous Buffers IO.
    SetPortIo(PortIoDescriptor),
    /// Clear synchronous Buffers IO.
    ClearPortIo,
    /// Install or replace a downstream activation.
    SetPeerActivation(PeerActivationDescriptor<F>),
    /// Idempotently remove a downstream activation.
    RemovePeerActivation(NodeId),
    /// An unresolved memory id may now resolve.
    MemoryAvailable(MemoryId),
    /// Drop the mappings that pin this exact retired memory generation.
    RemoveMemory(MemoryKey),
    /// Join or leave graph scheduling.
    SetActive(bool),
    /// Apply Start, Pause, or Suspend intent.
    SetNodeCommand(NodeCommandState),
    /// Terminal idempotent teardown.
    Disconnect,
}

/// Result of applying a command between callbacks.
#[derive(Clone, Copy, Debug, PartialEq, Eq, Structural)]
pub enum ApplyOutcome {
    /// Command applied and its dependencies are bound.
    Applied,
    /// Command is kept until one or more memory ids resolve.
    PendingMemory,
    /// Disconnect had already completed.
    AlreadyDisconnected,
}

/// Result of one wake of the trigger eventfd.
#[derive(Clone, Copy, Debug, PartialEq, Eq, Structural)]
pub enum WakeOutcome {
    /// The eventfd had no count to drain.
    NoWake,
    /// The wake belongs to a retired transport generation.
    Stale { expected: u64, received: u64 },
    /// The count was drained while scheduling was stopped.
    NotRunning { drained: u64 },
    /// The count was drained but the activation was not TRIGGERED.
    NotClaimed { drained: u64, missed: u64 },
    /// Exactly one callback ran.
    Processed { drained: u64, missed: u64, produced: bool },
}

impl<F> SessionCommand<F> {
    /// Converts one ClientNode event into a session command.
    pub fn from_wire(event: wire::Event<F>) -> (r: Result<Self, SessionError>)
        ensures
            event matches wire::Event::Command(c) ==> r matches Ok(SessionCommand::SetNodeCommand(s))
                && s == (match c {
                wire::Command::Start => NodeCommandState::Start,
                wire::Command::Pause => NodeCommandState::Pause,
                wire::Command::Suspend => NodeCommandState::Suspend,
            }),
            event matches wire::Event::PortSetParam(p) ==> (p.param is None ==> (
            match crate::config::validate_port_spec(p.direction, p.port_id, None) {
                Err(e) => r == Err::<Self, SessionError>(e),
                Ok(_) => if p.param_id != wire::SPA_PARAM_FORMAT {
                    r == Err::<Self, SessionError>(
                        SessionError::Unsupported(UnsupportedFeature::Parameter(p.param_id)),
                    )
                } else {
                    r matches Ok(SessionCommand::ClearFormat)
                },
            })),
            event matches wire::Event::PortSetIo(v) ==> (match crate::config::port_io_update_spec(v) {
                Err(e) => r == Err::<Self, SessionError>(e),
                Ok(PortIoUpdate::Install(d)) => r matches Ok(SessionCommand::SetPortIo(x)) && x == d,
                Ok(PortIoUpdate::Clear) => r matches Ok(SessionCommand::ClearPortIo),
            }),
            event matches wire::Event::PortUseBuffers(v) ==> (match crate::config::buffer_set_refusal(
                v,
            ) {
                Some(e) => r == Err::<Self, SessionError>(e),
                None => (v.buffers@.len() == 0 ==> r matches Ok(SessionCommand::ClearBuffers)) && (
                v.buffers@.len() > 0 ==> r matches Ok(SessionCommand::UseBuffers(_))),
            }),
            event matches wire::Event::SetActivation(wire::SetActivation::Remove { node_id }) ==> r
                matches Ok(SessionCommand::RemovePeerActivation(n)) && n == NodeId(node_id),
    {
        match event {
            wire::Event::Transport(value) => match TransportDescriptor::try_from_wire(value) {
                Ok(d) => Ok(SessionCommand::ReplaceTransport(d)),
                Err(e) => Err(e),
            },
            wire::Event::PortSetParam(value) => {
                if value.param.is_none() {
                    match crate::config::validate_port(value.direction, value.port_id, None) {
                        Err(e) => {
                            return Err(e);
                        },
                        Ok(_) => {},
                    }
                    if value.param_id != wire::SPA_PARAM_FORMAT {
                        return Err(
                            SessionError::Unsupported(UnsupportedFeature::Parameter(value.param_id)),
                        );
                    }
                    Ok(SessionCommand::ClearFormat)
                } else {
                    match NegotiatedAudioFormat::from_wire(&value) {
                        Ok(f) => Ok(SessionCommand::SetFormat(f)),
                        Err(e) => Err(e),
                    }
                }
            },
            wire::Event::PortUseBuffers(value) => match BufferSetDescriptor::try_from_wire(value) {
                Err(e) => Err(e),
                Ok(descriptor) => {
                    if descriptor.buffers.len() == 0 {
                        Ok(SessionCommand::ClearBuffers)
                    } else {
                        Ok(SessionCommand::UseBuffers(descriptor))
                    }
                },
            },
            wire::Event::PortSetIo(value) => match PortIoUpdate::try_from_wire(value) {
                Err(e) => Err(e),
                Ok(PortIoUpdate::Install(d)) => Ok(SessionCommand::SetPortIo(d)),
                Ok(PortIoUpdate::Clear) => Ok(SessionCommand::ClearPortIo),
            },
            wire::Event::SetActivation(value) => match PeerActivationUpdate::try_from_wire(value) {
                Err(e) => Err(e),
                Ok(PeerActivationUpdate::Install(d)) => Ok(SessionCommand::SetPeerActivation(d)),
                Ok(PeerActivationUpdate::Remove(node)) => Ok(SessionCommand::RemovePeerActivation(node)),
            },
            wire::Event::Command(value) => Ok(
                SessionCommand::SetNodeCommand(
                    match value {
                        wire::Command::Start => NodeCommandState::Start,
                        wire::Command::Pause => NodeCommandState::Pause,
                        wire::Command::Suspend => NodeCommandState::Suspend,
                    },
                ),
            ),
        }
    }
}

/// No candidate interval overlaps an existing one.
pub open spec fn disjoint_from(candidate: Seq<MemoryInterval>, existing: Seq<MemoryInterval>) -> bool {
    forall|i: int, j: int|
        0 <= i < candidate.len() && 0 <= j < existing.len() ==> !(#[trigger] candidate[i]).spec_overlaps(
            #[trigger] existing[j],
        )
}

fn ensure_disjoint(candidate: &Vec<MemoryInterval>, existing: &Vec<MemoryInterval>) -> (r: Result<
    (),
    SessionError,
>)
    ensures
        r is Ok <==> disjoint_from(candidate@, existing@),
        r is Err ==> r == Err::<(), SessionError>(
            SessionError::InvalidTransition("overlapping generation mappings"),
        ),
{
    let n = candidate.len();
    let m = existing.len();
    let mut i: usize = 0;
    while i < n
        invariant
            n == candidate@.len(),
            m == existing@.len(),
            i <= n,
            forall|a: int, b: int|
                0 <= a < i && 0 <= b < m ==> !(#[trigger] candidate@[a]).spec_overlaps(
                    #[trigger] existing@[b],
                ),
        decreases n - i,
    {
        let mut j: usize = 0;
        while j < m
            invariant
                n == candidate@.len(),
                m == existing@.len(),
                i < n,
                j <= m,
                forall|a: int, b: int|
                    0 <= a < i && 0 <= b < m ==> !(#[trigger] candidate@[a]).spec_overlaps(
                        #[trigger] existing@[b],
                    ),
                forall|b: int| 0 <= b < j ==> !candidate@[i as int].spec_overlaps(#[trigger] existing@[b]),
            decreases m - j,
        {
            if candidate[i].overlaps(existing[j]) {
                return Err(SessionError::InvalidTransition("overlapping generation mappings"));
            }
            j = j + 1;
        }
        i = i + 1;
    }
    Ok(())
}

/// Whether a resolution failed only because the id is not live yet.
fn unresolved(result: Result<MemoryKey, MemoryError>) -> (r: Result<bool, SessionError>)
    ensures
        result is Ok ==> r == Ok::<bool, SessionError>(false),
        result matches Err(MemoryError::UnknownMemory(_)) ==> r == Ok::<bool, SessionError>(true),
        result is Err && !(result->Err_0 is UnknownMemory) ==> r == Err::<bool, SessionError>(
            SessionError::Memory(result->Err_0),
        ),
{
    match result {
        Ok(_) => Ok(false),
        Err(MemoryError::UnknownMemory(_)) => Ok(true),
        Err(e) => Err(SessionError::Memory(e)),
    }
}

/// The activation interval of each peer.
pub open spec fn peer_intervals<F>(s: Seq<PeerActivation<F>>) -> Seq<MemoryInterval> {
    Seq::new(s.len(), |k: int| s[k].spec_interval())
}

/// The intervals of a bound output, if any.
pub open spec fn output_intervals(o: Option<OutputGeneration>) -> Seq<MemoryInterval> {
    match o {
        Some(o) => o.spec_intervals(),
        None => Seq::empty(),
    }
}

/// The activation interval of a bound transport, if any.
pub open spec fn transport_intervals<F>(t: Option<TransportGeneration<F>>) -> Seq<MemoryInterval> {
    match t {
        Some(t) => seq![t.spec_interval()],
        None => Seq::empty(),
    }
}

/// Transport generation `t` maps exactly the activation region `a`.
pub open spec fn bound_from<F>(t: TransportGeneration<F>, a: RegionRef) -> bool {
    &&& t.spec_key().id == a.memory
    &&& t.spec_interval().start == a.offset
    &&& t.spec_interval().end == a.offset + a.len
}

/// `after` keeps the output generation of `before`, with the buffers and
/// the synchronous IO it was bound from.
pub open spec fn kept_output<R: MemoryResolver, F>(
    before: ClientNodeSession<R, F>,
    after: ClientNodeSession<R, F>,
) -> bool {
    &&& after.spec_output() == before.spec_output()
    &&& after.spec_buffers() == before.spec_buffers()
    &&& after.spec_io() == before.spec_io()
}

/// Whether the session is due to be scheduled: active, started and fully
/// configured, so that a command's outcome may still be refused when its
/// activation is scheduled.
pub open spec fn due_to_run<R: MemoryResolver, F>(s: ClientNodeSession<R, F>) -> bool {
    s.spec_active() && s.spec_command() == NodeCommandState::Start && s.spec_ready()
}

/// Nothing waits for memory: no pending transport or peer, and the output
/// is bound once format, buffers and IO are known.
pub open spec fn settled<R: MemoryResolver, F>(s: ClientNodeSession<R, F>) -> bool {
    &&& !s.spec_has_pending_transport()
    &&& forall|n: NodeId| !s.has_pending_peer(n)
    &&& s.spec_format() is Some && s.spec_buffers() is Some && s.spec_io() is Some ==> s.spec_output() is Some
}

/// What the claim read decides of a wake's result: `NotClaimed` only when
/// the record was not TRIGGERED, `Processed` only after a successful claim,
/// with output produced exactly when the IO record asked for a buffer.
pub open spec fn claim_effect<F>(
    t: TransportGeneration<F>,
    output: Option<OutputGeneration>,
    r: Result<WakeOutcome, SessionError>,
) -> bool {
    &&& r matches Ok(WakeOutcome::NotClaimed { .. }) ==> exists|b: Seq<u8>|
        b.len() == t.spec_len() && #[trigger] claim_outcome(t.spec_address(), b) == Ok::<bool, SessionError>(false)
    &&& r matches Ok(WakeOutcome::Processed { produced, .. }) ==> {
        &&& exists|b: Seq<u8>|
            b.len() == t.spec_len() && #[trigger] claim_outcome(t.spec_address(), b) == Ok::<bool, SessionError>(true)
        &&& output is Some
        &&& exists|io: Seq<u8>|
            io.len() == crate::port_abi::IO_BUFFERS_SIZE && (produced <==> #[trigger] requested_buffer(io) is Some)
    }
}

/// Resolving `id` before the resolutions `rest`: a live id goes on, an
/// unknown one means memory is missing, any other failure is the error.
pub open spec fn resolve_step<R: MemoryResolver>(
    memory: R,
    id: MemoryId,
    rest: Result<bool, SessionError>,
) -> Result<bool, SessionError> {
    match memory.spec_resolve(id) {
        Ok(_) => rest,
        Err(MemoryError::UnknownMemory(_)) => Ok(true),
        Err(e) => Err(SessionError::Memory(e)),
    }
}

/// Whether an output's memory is missing (`Ok(true)`), all live
/// (`Ok(false)`) or unusable: the metadata and media ids of the buffers
/// from `i` on, in order, then the IO's.
pub open spec fn output_memory<R: MemoryResolver>(
    memory: R,
    buffers: Seq<crate::config::BufferDescriptor>,
    i: int,
    io: PortIoDescriptor,
) -> Result<bool, SessionError>
    decreases buffers.len() - i,
{
    if i < 0 || i >= buffers.len() {
        resolve_step(memory, io.region.memory, Ok(false))
    } else {
        resolve_step(
            memory,
            buffers[i].metadata.memory,
            resolve_step(memory, buffers[i].media_memory, output_memory(memory, buffers, i + 1, io)),
        )
    }
}

/// Every buffer descriptor of a set is usable on its own.
pub open spec fn all_descriptors_ok(buffers: Seq<crate::config::BufferDescriptor>) -> bool {
    forall|k: int| 0 <= k < buffers.len() ==> descriptor_ok(#[trigger] buffers[k])
}

/// A buffer set that replaces the current one while format and IO are
/// known, whose memory is all imported but one of whose descriptors is
/// unusable: it cannot bind.
pub open spec fn buffers_unbindable<R: MemoryResolver, F>(
    before: ClientNodeSession<R, F>,
    v: BufferSetDescriptor,
) -> bool {
    &&& before.spec_buffers() matches Some(b) && !same_buffer_set(b, v)
    &&& before.spec_format() is Some
    &&& before.spec_io() matches Some(io) && output_memory(before.spec_memory(), v.buffers@, 0, io) == Ok::<
        bool,
        SessionError,
    >(false)
    &&& !all_descriptors_ok(v.buffers@)
}

/// A buffer set that replaces the current one while format and IO are
/// known, with some of its memory or the IO's not yet imported.
pub open spec fn buffers_awaiting_memory<R: MemoryResolver, F>(
    before: ClientNodeSession<R, F>,
    v: BufferSetDescriptor,
) -> bool {
    &&& before.spec_buffers() matches Some(b) && !same_buffer_set(b, v)
    &&& before.spec_format() is Some
    &&& before.spec_io() matches Some(io) && output_memory(before.spec_memory(), v.buffers@, 0, io) == Ok::<
        bool,
        SessionError,
    >(true)
}

/// Removing generation `key` drops neither the transport nor the output,
/// so the node need not leave scheduling.
pub open spec fn removal_idle<R: MemoryResolver, F>(key: MemoryKey, before: ClientNodeSession<R, F>) -> bool {
    &&& !(before.spec_transport() matches Some(t) && t.spec_key() == key)
    &&& !(before.spec_output() matches Some(o) && o.spec_depends_on(key))
}

/// What does not hold exactly generation `key` survives its removal: the
/// transport, the output and each peer bound to another generation, of
/// the same id or not.
pub open spec fn kept_unpinned<R: MemoryResolver, F>(
    key: MemoryKey,
    before: ClientNodeSession<R, F>,
    after: ClientNodeSession<R, F>,
) -> bool {
    &&& (before.spec_transport() matches Some(t) && t.spec_key() != key) ==> after.spec_transport()
        == before.spec_transport()
    &&& (before.spec_output() matches Some(o) && !o.spec_depends_on(key)) ==> after.spec_output()
        == before.spec_output()
    &&& forall|j: int|
        0 <= j < before.spec_peers().len() && (#[trigger] before.spec_peers()[j]).spec_key() != key
            ==> after.spec_peers().contains(before.spec_peers()[j])
}

/// The commands `before` accepts whatever the resolver and the shared
/// records hold: those whose work touches no memory or that wait for it.
pub open spec fn command_owed<R: MemoryResolver, F>(command: SessionCommand<F>, before: ClientNodeSession<R, F>) -> bool {
    let replaced_format = |v: NegotiatedAudioFormat| before.spec_format() matches Some(c) && !same_format(c, v);
    let replaced_buffers = |v: BufferSetDescriptor| before.spec_buffers() matches Some(b) && !same_buffer_set(b, v);
    match command {
        SessionCommand::ReplaceTransport(d) => before.spec_memory().spec_resolve(d.activation.memory) matches Err(
            MemoryError::UnknownMemory(_),
        ),
        SessionCommand::SetFormat(v) => (replaced_format(v) && before.spec_transport() is None) || (
        !replaced_format(v) && (before.spec_buffers() is None || before.spec_io() is None)),
        SessionCommand::ClearFormat => before.spec_transport() is None,
        SessionCommand::UseBuffers(v) => ((before.spec_format() is None || before.spec_io() is None)
            || buffers_awaiting_memory(before, v)) && (replaced_buffers(v) ==> before.spec_transport() is None),
        SessionCommand::ClearBuffers => before.spec_transport() is None,
        SessionCommand::SetPortIo(_) => before.spec_format() is None || before.spec_buffers() is None,
        SessionCommand::ClearPortIo => before.spec_transport() is None,
        SessionCommand::SetPeerActivation(_) => false,
        SessionCommand::RemovePeerActivation(_) => true,
        SessionCommand::MemoryAvailable(_) => !before.spec_has_pending_transport() && !(before.spec_format() is Some
            && before.spec_buffers() is Some && before.spec_io() is Some) && before.spec_pending_peers().len() == 0,
        SessionCommand::RemoveMemory(k) => before.spec_transport() is None || removal_idle(k, before),
        SessionCommand::SetActive(a) => (!a && before.spec_transport() is None) || (a && before.spec_command()
            != NodeCommandState::Start),
        SessionCommand::SetNodeCommand(c) => (c == NodeCommandState::Start && !before.spec_active()) || (c
            != NodeCommandState::Start && before.spec_transport() is None),
        SessionCommand::Disconnect => true,
    }
}

/// What applying `command` to `before` promises of `after` and the result.
pub open spec fn command_effect<R: MemoryResolver, F>(
    command: SessionCommand<F>,
    before: ClientNodeSession<R, F>,
    after: ClientNodeSession<R, F>,
    r: Result<ApplyOutcome, SessionError>,
) -> bool {
    match command {
        SessionCommand::Disconnect => r == Ok::<ApplyOutcome, SessionError>(ApplyOutcome::Applied)
            && after.spec_state() == SessionState::Disconnected,
        SessionCommand::ReplaceTransport(d) => {
            &&& d.activation.len < crate::activation_abi::SIZE && before.spec_memory().spec_resolve(
                d.activation.memory,
            ) is Ok ==> r is Err
            &&& before.spec_memory().spec_resolve(d.activation.memory) matches Err(MemoryError::UnknownMemory(_))
                ==> after.spec_transport() == before.spec_transport() && after.spec_has_pending_transport() && (
            r is Ok ==> r == Ok::<ApplyOutcome, SessionError>(ApplyOutcome::PendingMemory))
            &&& before.spec_memory().spec_resolve(d.activation.memory) matches Err(e) ==> (!(e is UnknownMemory)
                ==> r == Err::<ApplyOutcome, SessionError>(SessionError::Memory(e)))
            &&& r is Ok ==> (r == Ok::<ApplyOutcome, SessionError>(ApplyOutcome::Applied)
                && after.spec_transport() is Some && bound_from(after.spec_transport()->Some_0, d.activation)
                && !after.spec_has_pending_transport()) || (r == Ok::<ApplyOutcome, SessionError>(
                ApplyOutcome::PendingMemory,
            ) && after.spec_has_pending_transport())
        },
        SessionCommand::SetFormat(v) => r is Ok ==> after.spec_format() == Some(v),
        SessionCommand::ClearFormat => r is Ok ==> after.spec_format() is None
            && after.spec_buffers() is None && after.spec_io() is None && after.spec_output() is None,
        SessionCommand::UseBuffers(v) => (buffers_unbindable(before, v) ==> r is Err) && (r is Ok ==> after.spec_buffers() == Some(v)) && (r is Ok && (
        before.spec_buffers() matches Some(b) && !same_buffer_set(b, v)) ==> after.spec_io() is None
            && after.spec_output() is None) && (buffers_awaiting_memory(before, v) && r is Ok ==> r == Ok::<
            ApplyOutcome,
            SessionError,
        >(ApplyOutcome::PendingMemory)),
        SessionCommand::ClearBuffers => r is Ok ==> after.spec_buffers() is None
            && after.spec_io() is None && after.spec_output() is None && after.spec_format()
            == before.spec_format(),
        SessionCommand::SetPortIo(v) => r is Ok ==> after.spec_io() == Some(v),
        SessionCommand::ClearPortIo => r is Ok ==> after.spec_io() is None && after.spec_output() is None,
        SessionCommand::SetPeerActivation(v) => (!before.has_pending_peer(v.node)
            && !before.spec_peer_set().has_node(v.node) && before.spec_pending_peers().len()
            + before.spec_peers().len() >= MAX_SESSION_PEERS ==> r == Err::<ApplyOutcome, SessionError>(
            SessionError::TooManyDescriptors("peer activations"),
        )) && (r == Ok::<ApplyOutcome, SessionError>(ApplyOutcome::Applied)
            ==> after.spec_peer_set().has_node(v.node) && after.spec_peer_set().binds(
            v.node,
            v.activation,
        )) && (r == Ok::<ApplyOutcome, SessionError>(
            ApplyOutcome::PendingMemory,
        ) ==> after.has_pending_peer(v.node)),
        SessionCommand::RemovePeerActivation(n) => r is Ok ==> !after.spec_peer_set().has_node(n)
            && !after.has_pending_peer(n),
        SessionCommand::RemoveMemory(key) => r is Ok ==> !after.pins(key) && kept_unpinned(key, before, after),
        SessionCommand::SetActive(a) => r is Ok ==> after.spec_active() == a,
        SessionCommand::SetNodeCommand(c) => r is Ok ==> after.spec_command() == c && (c
            == NodeCommandState::Suspend ==> after.spec_format() is None && after.spec_buffers() is None
            && after.spec_io() is None && after.spec_output() is None),
        SessionCommand::MemoryAvailable(_) => after.spec_format() == before.spec_format()
            && after.spec_buffers() == before.spec_buffers() && after.spec_io() == before.spec_io()
            && (r == Ok::<ApplyOutcome, SessionError>(ApplyOutcome::Applied) ==> settled(after)),
    }
}

/// What a refused replacement keeps: a refused transport keeps the bound
/// transport, and a refused Buffers IO, or a refused buffer set that
/// differs from the current one, keeps the bound output.
pub open spec fn rejection_effect<R: MemoryResolver, F>(
    command: SessionCommand<F>,
    before: ClientNodeSession<R, F>,
    after: ClientNodeSession<R, F>,
    r: Result<ApplyOutcome, SessionError>,
) -> bool {
    r is Err ==> match command {
        SessionCommand::ReplaceTransport(_) => after.spec_transport() == before.spec_transport(),
        SessionCommand::UseBuffers(v) => (before.spec_buffers() matches Some(b) && !same_buffer_set(
            b,
            v,
        )) ==> kept_output(before, after),
        SessionCommand::SetPortIo(_) => kept_output(before, after),
        _ => true,
    }
}

/// What a wake for transport `generation` gives when `current` is the
/// bound transport generation and `drain` what reading its eventfd gave.
pub open spec fn wake_effect(
    current: u64,
    generation: u64,
    drain: Result<u64, i32>,
    before: SessionState,
    after: SessionState,
    r: Result<WakeOutcome, SessionError>,
) -> bool {
    if generation != current {
        r == Ok::<WakeOutcome, SessionError>(WakeOutcome::Stale { expected: current, received: generation })
    } else {
        match drain {
            Err(e) => if e == EAGAIN {
                r == Ok::<WakeOutcome, SessionError>(WakeOutcome::NoWake)
            } else {
                r == Err::<WakeOutcome, SessionError>(SessionError::Signal(e))
            },
            Ok(d) => if before != SessionState::Running {
                r == Ok::<WakeOutcome, SessionError>(WakeOutcome::NotRunning { drained: d })
            } else {
                let missed = if d > 0 { (d - 1) as u64 } else { 0 };
                &&& r matches Ok(w) ==> (w == (WakeOutcome::NotClaimed { drained: d, missed }) || (
                w matches WakeOutcome::Processed { drained, missed: m, .. } && drained == d && m
                    == missed))
                &&& r is Ok ==> after == SessionState::Running
                &&& r is Err ==> after == SessionState::Failed
            },
        }
    }
}

/// Coherent owner of one node's mappings, descriptors, state and cycle
/// authority.
pub struct ClientNodeSession<R, F> {
    memory: R,
    next_generation: u64,
    transport: Option<TransportGeneration<F>>,
    pending_transport: Option<TransportDescriptor<F>>,
    format: Option<NegotiatedAudioFormat>,
    buffer_descriptor: Option<BufferSetDescriptor>,
    io_descriptor: Option<PortIoDescriptor>,
    output: Option<OutputGeneration>,
    peers: PeerSet<F>,
    pending_peers: Vec<PeerActivationDescriptor<F>>,
    active_requested: bool,
    command: NodeCommandState,
    state: SessionState,
    peer_signals: Vec<NodeId>,
    last_wake: Option<WakeRecord>,
    last_failure: Option<RecordStep>,
}

/// What the last claimed wake read from the node's own activation record
/// and stored back: the claim step, then, when a cycle was claimed, what
/// the output step read and stored, and the process result and finish time
/// published with the finish step.
#[derive(Clone, Debug)]
pub struct WakeRecord {
    pub claim: RecordStep,
    pub output: Option<OutputStep>,
    pub process_status: i32,
    pub finish_ns: u64,
    pub finish: Option<RecordStep>,
    pub peers: Vec<RecordStep>,
}

/// `d` is leaving scheduling on `t`'s record: the INACTIVE status stored
/// over the image read, whenever that image is usable.
pub open spec fn deactivated<F>(t: TransportGeneration<F>, d: RecordStep) -> bool {
    &&& d.image@.len() == t.spec_len()
    &&& writes_view(d.writes@) == deactivate_writes(t.spec_address(), d.image@)
}

/// How a wake's result follows from what it read of the own record: a
/// refused or untriggered record gives its error or `NotClaimed` with no
/// finish; a claimed cycle is always finished with the process result,
/// the result being `Processed` only when that finish completed.
pub open spec fn wake_record<F>(
    t: TransportGeneration<F>,
    awake_ns: u64,
    w: WakeRecord,
    r: Result<WakeOutcome, SessionError>,
) -> bool {
    let addr = t.spec_address();
    let c = claim_outcome(addr, w.claim.image@);
    &&& w.claim.image@.len() == t.spec_len()
    &&& writes_view(w.claim.writes@) == claim_writes(addr, w.claim.image@, awake_ns)
    &&& c matches Err(e) ==> r == Err::<WakeOutcome, SessionError>(e) && w.finish is None
    &&& c == Ok::<bool, SessionError>(false) ==> (r matches Ok(WakeOutcome::NotClaimed { .. })) && w.finish is None
    &&& c == Ok::<bool, SessionError>(true) ==> (w.finish matches Some(f) && {
        let fin = finish_outcome(addr, f.image@, w.process_status, w.finish_ns);
        &&& f.image@.len() == t.spec_len()
        &&& writes_view(f.writes@) == finish_writes(addr, f.image@, w.process_status, w.finish_ns)
        &&& fin matches Err(e) ==> r == Err::<WakeOutcome, SessionError>(e)
        &&& r matches Ok(WakeOutcome::Processed { produced, .. }) ==> fin is Ok && w.process_status == (
        if produced {
            2i32
        } else {
            0i32
        })
        &&& !(r matches Ok(WakeOutcome::NotClaimed { .. }))
        &&& w.process_status == 0 || w.process_status == 2 || (w.process_status == PROCESS_FAILED && r is Err)
    })
}

/// Pending peer descriptors in strictly increasing node-id order.
pub open spec fn pending_sorted<F>(s: Seq<PeerActivationDescriptor<F>>) -> bool {
    forall|i: int, j: int| 0 <= i < j < s.len() ==> (#[trigger] s[i]).node.0 < (#[trigger] s[j]).node.0
}

impl<R: MemoryResolver, F> ClientNodeSession<R, F> {
    /// What the last claimed wake read and stored.
    pub closed spec fn spec_last_wake(&self) -> Option<WakeRecord> {
        self.last_wake
    }

    /// What leaving scheduling on the last failure read and stored.
    pub closed spec fn spec_last_failure(&self) -> Option<RecordStep> {
        self.last_failure
    }

    /// The resolver the session maps through.
    pub closed spec fn spec_memory(&self) -> R {
        self.memory
    }

    pub closed spec fn spec_state(&self) -> SessionState {
        self.state
    }

    pub closed spec fn spec_format(&self) -> Option<NegotiatedAudioFormat> {
        self.format
    }

    pub closed spec fn spec_buffers(&self) -> Option<BufferSetDescriptor> {
        self.buffer_descriptor
    }

    pub closed spec fn spec_io(&self) -> Option<PortIoDescriptor> {
        self.io_descriptor
    }

    pub closed spec fn spec_transport(&self) -> Option<TransportGeneration<F>> {
        self.transport
    }

    /// The activation region of the transport waiting for memory, if any.
    pub closed spec fn spec_pending_transport_region(&self) -> Option<RegionRef> {
        match self.pending_transport {
            Some(d) => Some(d.activation),
            None => None,
        }
    }

    pub closed spec fn spec_has_pending_transport(&self) -> bool {
        self.pending_transport is Some
    }

    pub closed spec fn spec_output(&self) -> Option<OutputGeneration> {
        self.output
    }

    pub closed spec fn spec_peer_set(&self) -> PeerSet<F> {
        self.peers
    }

    pub closed spec fn spec_pending_peers(&self) -> Seq<PeerActivationDescriptor<F>> {
        self.pending_peers@
    }

    pub closed spec fn spec_active(&self) -> bool {
        self.active_requested
    }

    pub closed spec fn spec_command(&self) -> NodeCommandState {
        self.command
    }

    pub closed spec fn spec_next_generation(&self) -> u64 {
        self.next_generation
    }

    pub closed spec fn spec_peer_signals(&self) -> Seq<NodeId> {
        self.peer_signals@
    }

    pub open spec fn spec_peers(&self) -> Seq<PeerActivation<F>> {
        self.spec_peer_set().spec_peers()
    }

    /// Transport, format and output are all bound.
    pub open spec fn spec_ready(&self) -> bool {
        self.spec_transport() is Some && self.spec_format() is Some && self.spec_output() is Some
    }

    pub open spec fn has_pending_peer(&self, node: NodeId) -> bool {
        exists|i: int|
            0 <= i < self.spec_pending_peers().len() && (#[trigger] self.spec_pending_peers()[i]).node
                == node
    }

    /// Whether some bound generation maps a range of memory generation `key`.
    pub open spec fn pins(&self, key: MemoryKey) -> bool {
        ||| (self.spec_transport() matches Some(t) && t.spec_key() == key)
        ||| (self.spec_output() matches Some(o) && o.spec_depends_on(key))
        ||| exists|k: int| 0 <= k < self.spec_peers().len() && (#[trigger] self.spec_peers()[k]).spec_key() == key
    }

    /// No two bound generations map overlapping ranges of one backing
    /// object (the output's own ranges are apart by its `wf`).
    pub open spec fn separated(&self) -> bool {
        let peers = self.spec_peers();
        &&& (self.spec_transport() matches Some(t) ==> (self.spec_output() matches Some(o) ==> forall|
            i: int,
        |
            0 <= i < o.spec_intervals().len() ==> !t.spec_interval().spec_overlaps(
                #[trigger] o.spec_intervals()[i],
            )))
        &&& (self.spec_transport() matches Some(t) ==> forall|k: int|
            0 <= k < peers.len() ==> !t.spec_interval().spec_overlaps(
                (#[trigger] peers[k]).spec_interval(),
            ))
        &&& (self.spec_output() matches Some(o) ==> forall|i: int, k: int|
            0 <= i < o.spec_intervals().len() && 0 <= k < peers.len() ==> !(
            #[trigger] o.spec_intervals()[i]).spec_overlaps((#[trigger] peers[k]).spec_interval()))
        &&& forall|k: int, m: int|
            0 <= k < m < peers.len() ==> !(#[trigger] peers[k]).spec_interval().spec_overlaps(
                (#[trigger] peers[m]).spec_interval(),
            )
    }

    /// Everything is released.
    pub open spec fn cleared(&self) -> bool {
        &&& self.spec_transport() is None
        &&& !self.spec_has_pending_transport()
        &&& self.spec_format() is None
        &&& self.spec_buffers() is None
        &&& self.spec_io() is None
        &&& self.spec_output() is None
        &&& self.spec_peers().len() == 0
        &&& self.spec_pending_peers().len() == 0
    }

    pub open spec fn wf(&self) -> bool {
        &&& self.spec_next_generation() >= 1
        &&& (self.spec_transport() matches Some(t) ==> t.wf() && t.spec_id()
            < self.spec_next_generation())
        &&& (self.spec_output() matches Some(o) ==> o.wf() && o.spec_id() < self.spec_next_generation()
            && self.spec_format() is Some && self.spec_buffers() is Some && self.spec_io() is Some)
        &&& self.spec_peer_set().wf()
        &&& forall|k: int|
            0 <= k < self.spec_peers().len() ==> (#[trigger] self.spec_peers()[k]).spec_generation()
                < self.spec_next_generation()
        &&& pending_sorted(self.spec_pending_peers())
        &&& self.spec_state() != SessionState::CycleClaimed
        &&& (self.spec_state() == SessionState::Running ==> self.spec_ready())
        &&& (self.spec_state() == SessionState::Disconnected ==> self.cleared())
        &&& self.separated()
    }

    /// The session's configuration other than its state is that of `o`.
    pub closed spec fn same_config(&self, o: &Self) -> bool {
        &&& self.memory == o.memory
        &&& self.next_generation == o.next_generation
        &&& self.transport == o.transport
        &&& self.pending_transport == o.pending_transport
        &&& self.format == o.format
        &&& self.buffer_descriptor == o.buffer_descriptor
        &&& self.io_descriptor == o.io_descriptor
        &&& self.output == o.output
        &&& self.peers == o.peers
        &&& self.pending_peers == o.pending_peers
        &&& self.active_requested == o.active_requested
        &&& self.command == o.command
        &&& self.peer_signals == o.peer_signals
    }

    /// The invariant only depends on the bindings, the descriptors and the
    /// state, so a session with the same ones keeps it.
    proof fn lemma_wf_frame(&self, o: &Self)
        requires
            o.wf(),
            self.next_generation >= o.next_generation,
            self.transport is Some ==> o.transport is Some && self.transport->Some_0 == o.transport->Some_0 && self.transport->Some_0.wf(),
            self.output is Some ==> o.output is Some && self.output->Some_0 == o.output->Some_0 && self.output->Some_0.wf() && self.format is Some && self.buffer_descriptor is Some
                && self.io_descriptor is Some,
            self.peers.wf(),
            self.spec_peers().len() == o.spec_peers().len(),
            forall|i: int|
                0 <= i < self.spec_peers().len() ==> (#[trigger] self.spec_peers()[i]) == o.spec_peers()[i],
            pending_sorted(self.pending_peers@),
            self.state != SessionState::CycleClaimed,
            self.state == SessionState::Running ==> self.spec_ready(),
            self.state == SessionState::Disconnected ==> self.cleared(),
        ensures
            self.wf(),
    {
        let ps = self.spec_peers();
        let os = o.spec_peers();
        assert forall|k: int| 0 <= k < ps.len() implies (#[trigger] ps[k]).spec_generation()
            < self.spec_next_generation() by {
            assert(ps[k] == os[k]);
        }
        if self.transport is Some {
            assert(self.transport->Some_0.spec_interval() == o.transport->Some_0.spec_interval());
            let t = self.spec_transport()->Some_0;
            assert forall|k: int| 0 <= k < ps.len() implies !t.spec_interval().spec_overlaps(
                (#[trigger] ps[k]).spec_interval()) by {
                assert(ps[k] == os[k]);
            }
        }
        if self.output is Some {
            let out = self.spec_output()->Some_0;
            assert(out.spec_intervals() == o.spec_output()->Some_0.spec_intervals());
            assert forall|i: int, k: int|
                0 <= i < out.spec_intervals().len() && 0 <= k < ps.len() implies !(
                #[trigger] out.spec_intervals()[i]).spec_overlaps((#[trigger] ps[k]).spec_interval()) by {
                assert(ps[k] == os[k]);
            }
        }
        assert forall|k: int, m: int| 0 <= k < m < ps.len() implies !(#[trigger] ps[k]).spec_interval().spec_overlaps(
            (#[trigger] ps[m]).spec_interval()) by {
            assert(ps[k] == os[k]);
            assert(ps[m] == os[m]);
        }
        assert forall|k: int, m: int| 0 <= k < m < ps.len() implies (#[trigger] ps[k]).spec_node().0
            < (#[trigger] ps[m]).spec_node().0 by {
            assert(ps[k] == os[k]);
            assert(ps[m] == os[m]);
        }
        assert(self.separated());
    }

    /// Only the pending peer descriptors may differ from `o`.
    pub closed spec fn same_except_pending(&self, o: &Self) -> bool {
        &&& self.memory == o.memory
        &&& self.next_generation == o.next_generation
        &&& self.transport == o.transport
        &&& self.pending_transport == o.pending_transport
        &&& self.format == o.format
        &&& self.buffer_descriptor == o.buffer_descriptor
        &&& self.io_descriptor == o.io_descriptor
        &&& self.output == o.output
        &&& self.peers == o.peers
        &&& self.active_requested == o.active_requested
        &&& self.command == o.command
        &&& self.state == o.state
        &&& self.peer_signals == o.peer_signals
    }

    /// Only the next generation number may differ from `o`.
    pub closed spec fn same_except_generation(&self, o: &Self) -> bool {
        &&& self.memory == o.memory
        &&& self.next_generation >= o.next_generation
        &&& self.transport == o.transport
        &&& self.pending_transport == o.pending_transport
        &&& self.format == o.format
        &&& self.buffer_descriptor == o.buffer_descriptor
        &&& self.io_descriptor == o.io_descriptor
        &&& self.output == o.output
        &&& self.peers == o.peers
        &&& self.pending_peers == o.pending_peers
        &&& self.active_requested == o.active_requested
        &&& self.command == o.command
        &&& self.state == o.state
        &&& self.peer_signals == o.peer_signals
    }

    /// Only the installed peers may differ from `o`.
    pub closed spec fn same_except_peers(&self, o: &Self) -> bool {
        &&& self.memory == o.memory
        &&& self.next_generation == o.next_generation
        &&& self.transport == o.transport
        &&& self.pending_transport == o.pending_transport
        &&& self.format == o.format
        &&& self.buffer_descriptor == o.buffer_descriptor
        &&& self.io_descriptor == o.io_descriptor
        &&& self.output == o.output
        &&& self.pending_peers == o.pending_peers
        &&& self.active_requested == o.active_requested
        &&& self.command == o.command
        &&& self.state == o.state
        &&& self.peer_signals == o.peer_signals
    }

    /// An empty configuring session over a resolver.
    pub fn new(memory: R) -> (s: Self)
        ensures
            s.wf(),
            s.spec_state() == SessionState::Configuring,
            s.cleared(),
            !s.spec_active(),
            s.spec_command() == NodeCommandState::Pause,
            s.spec_memory() == memory,
    {
        ClientNodeSession {
            memory,
            next_generation: 1,
            transport: None,
            pending_transport: None,
            format: None,
            buffer_descriptor: None,
            io_descriptor: None,
            output: None,
            peers: PeerSet::new(),
            pending_peers: Vec::new(),
            active_requested: false,
            command: NodeCommandState::Pause,
            state: SessionState::Configuring,
            peer_signals: Vec::new(),
            last_wake: None,
            last_failure: None,
        }
    }

    /// Current state.
    pub fn state(&self) -> (s: SessionState)
        ensures
            s == self.spec_state(),
    {
        self.state
    }

    /// Current transport generation, for tagging wakes.
    pub fn transport_generation(&self) -> (g: Option<u64>)
        ensures
            g == (match self.spec_transport() {
                Some(t) => Some(t.spec_id()),
                None => None::<u64>,
            }),
    {
        match &self.transport {
            Some(t) => Some(t.id()),
            None => None,
        }
    }

    /// Number of installed downstream peers.
    pub fn peer_count(&self) -> (n: usize)
        ensures
            n == self.spec_peers().len(),
    {
        self.peers.len()
    }

    /// The bound transport generation.
    pub fn transport(&self) -> (t: Option<&TransportGeneration<F>>)
        ensures
            t is Some == self.spec_transport() is Some,
            t matches Some(x) ==> *x == self.spec_transport()->Some_0,
    {
        self.transport.as_ref()
    }

    /// The bound output generation.
    pub fn output(&self) -> (o: Option<&OutputGeneration>)
        ensures
            o is Some == self.spec_output() is Some,
            o matches Some(x) ==> *x == self.spec_output()->Some_0,
    {
        self.output.as_ref()
    }

    /// The negotiated format, if one is set.
    pub fn format(&self) -> (f: Option<&NegotiatedAudioFormat>)
        ensures
            f is Some == self.spec_format() is Some,
            f matches Some(x) ==> *x == self.spec_format()->Some_0,
    {
        self.format.as_ref()
    }

    /// The output buffer set, if one is set.
    pub fn buffer_descriptor(&self) -> (b: Option<&BufferSetDescriptor>)
        ensures
            b is Some == self.spec_buffers() is Some,
            b matches Some(x) ==> *x == self.spec_buffers()->Some_0,
    {
        self.buffer_descriptor.as_ref()
    }

    /// The synchronous IO descriptor, if one is set.
    pub fn io_descriptor(&self) -> (d: Option<PortIoDescriptor>)
        ensures
            d == self.spec_io(),
    {
        self.io_descriptor
    }

    /// The transport generation whose trigger eventfd a runtime waits on:
    /// the bound one while the session runs, none otherwise.
    pub fn wake_registration(&self) -> (g: Option<u64>)
        requires
            self.wf(),
        ensures
            self.spec_state() == SessionState::Running ==> g == Some(self.spec_transport()->Some_0.spec_id()),
            self.spec_state() != SessionState::Running ==> g is None,
    {
        if self.state != SessionState::Running {
            return None;
        }
        match &self.transport {
            Some(t) => Some(t.id()),
            None => None,
        }
    }

    /// The installed downstream peers.
    pub fn peers(&self) -> (p: &PeerSet<F>)
        ensures
            *p == self.spec_peer_set(),
    {
        &self.peers
    }

    /// What the last claimed wake read from the own record and stored.
    pub fn last_wake(&self) -> (w: &Option<WakeRecord>)
        ensures
            *w == self.spec_last_wake(),
    {
        &self.last_wake
    }

    /// What leaving scheduling on the last failure read from the own
    /// record and stored.
    pub fn last_failure(&self) -> (d: &Option<RecordStep>)
        ensures
            *d == self.spec_last_failure(),
    {
        &self.last_failure
    }

    /// The resolver.
    pub fn memory(&self) -> (m: &R)
        ensures
            *m == self.spec_memory(),
    {
        &self.memory
    }

    /// Takes the peers that became TRIGGERED in the last cycle; the caller
    /// writes each one's eventfd.
    pub fn take_peer_signals(&mut self) -> (s: Vec<NodeId>)
        requires
            old(self).wf(),
        ensures
            final(self).wf(),
            s@ == old(self).spec_peer_signals(),
            final(self).spec_peer_signals().len() == 0,
            final(self).spec_state() == old(self).spec_state(),
    {
        let ghost before = *self;
        let mut s: Vec<NodeId> = Vec::new();
        std::mem::swap(&mut s, &mut self.peer_signals);
        proof {
            self.lemma_wf_frame(&before);
        }
        s
    }

    /// Writing a triggered peer's eventfd failed: the session fails.
    pub fn fail_peer_signal(&mut self, peer: NodeId, errno: i32) -> (e: SessionError)
        requires
            old(self).wf(),
        ensures
            final(self).wf(),
            old(self).spec_state() != SessionState::Disconnected ==> final(self).spec_state()
                == SessionState::Failed,
            e == (SessionError::PeerSignal { peer, errno }),
    {
        if self.state != SessionState::Disconnected {
            self.fail();
        }
        SessionError::PeerSignal { peer, errno }
    }

    fn is_ready(&self) -> (b: bool)
        ensures
            b == self.spec_ready(),
    {
        self.transport.is_some() && self.format.is_some() && self.output.is_some()
    }

    /// Leaves scheduling: the own activation becomes INACTIVE, and a state
    /// other than Failed or Disconnected becomes Stopped or Configuring.
    fn stop(&mut self) -> (r: Result<(), SessionError>)
        requires
            old(self).wf(),
        ensures
            final(self).wf(),
            final(self).same_config(old(self)),
            r is Ok && old(self).spec_state() != SessionState::Disconnected && old(self).spec_state()
                != SessionState::Failed ==> final(self).spec_state() == (if old(self).spec_ready() {
                SessionState::Stopped
            } else {
                SessionState::Configuring
            }),
            r is Err || old(self).spec_state() == SessionState::Disconnected || old(self).spec_state()
                == SessionState::Failed ==> final(self).spec_state() == old(self).spec_state(),
            r is Err ==> old(self).spec_transport() is Some,
    {
        let ghost before = *self;
        let result = match &self.transport {
            Some(t) => match t.deactivate(&self.memory).0 {
                Ok(_) => Ok(()),
                Err(e) => Err(e),
            },
            None => Ok(()),
        };
        if result.is_err() {
            return result;
        }
        if self.state != SessionState::Disconnected && self.state != SessionState::Failed {
            self.state = if self.is_ready() {
                SessionState::Stopped
            } else {
                SessionState::Configuring
            };
        }
        proof {
            self.lemma_wf_frame(&before);
        }
        Ok(())
    }

    /// A claimed cycle failed: leave scheduling and record the failure.
    fn fail(&mut self)
        requires
            old(self).wf(),
            old(self).spec_state() != SessionState::Disconnected,
        ensures
            final(self).wf(),
            final(self).same_config(old(self)),
            final(self).spec_state() == SessionState::Failed,
            final(self).spec_last_wake() == old(self).spec_last_wake(),
            old(self).spec_transport() matches Some(t) ==> (final(self).spec_last_failure() matches Some(d)
                && deactivated(t, d)),
    {
        let ghost before = *self;
        match &self.transport {
            Some(t) => {
                let (_, step) = t.deactivate(&self.memory);
                self.last_failure = Some(step);
            },
            None => {},
        }
        self.state = SessionState::Failed;
        proof {
            self.lemma_wf_frame(&before);
        }
    }

    /// Between commands, a scheduled state stays; any other becomes Ready or
    /// Configuring as the configuration is complete or not.
    fn refresh_state(&mut self)
        requires
            old(self).wf(),
        ensures
            final(self).wf(),
            final(self).same_config(old(self)),
            final(self).spec_transport() == old(self).spec_transport(),
            old(self).spec_state() == SessionState::Running || old(self).spec_state()
                == SessionState::Failed || old(self).spec_state() == SessionState::Disconnected
                ==> final(self).spec_state() == old(self).spec_state(),
            !(old(self).spec_state() == SessionState::Running || old(self).spec_state()
                == SessionState::Failed || old(self).spec_state() == SessionState::Disconnected)
                ==> final(self).spec_state() == (if old(self).spec_ready() {
                SessionState::Ready
            } else {
                SessionState::Configuring
            }),
    {
        let ghost before = *self;
        if self.state == SessionState::Running || self.state == SessionState::CycleClaimed
            || self.state == SessionState::Failed || self.state == SessionState::Disconnected {
            return;
        }
        self.state = if self.is_ready() {
            SessionState::Ready
        } else {
            SessionState::Configuring
        };
        proof {
            self.lemma_wf_frame(&before);
        }
    }

    fn allocate_generation(&mut self) -> (r: Result<u64, SessionError>)
        requires
            old(self).wf(),
        ensures
            final(self).wf(),
            final(self).spec_state() == old(self).spec_state(),
            final(self).spec_transport() == old(self).spec_transport(),
            final(self).spec_output() == old(self).spec_output(),
            final(self).spec_peer_set() == old(self).spec_peer_set(),
            final(self).spec_pending_peers() == old(self).spec_pending_peers(),
            final(self).spec_format() == old(self).spec_format(),
            final(self).spec_buffers() == old(self).spec_buffers(),
            final(self).spec_io() == old(self).spec_io(),
            final(self).spec_has_pending_transport() == old(self).spec_has_pending_transport(),
            final(self).spec_active() == old(self).spec_active(),
            final(self).spec_command() == old(self).spec_command(),
            final(self).same_except_generation(old(self)),
            match r {
                Ok(g) => g == old(self).spec_next_generation() && final(self).spec_next_generation()
                    == g + 1,
                Err(e) => e == SessionError::Overflow("session generation") && final(
                    self).spec_next_generation() == old(self).spec_next_generation(),
            },
    {
        let ghost before = *self;
        let generation = self.next_generation;
        if generation == u64::MAX {
            return Err(SessionError::Overflow("session generation"));
        }
        self.next_generation = generation + 1;
        proof {
            self.lemma_wf_frame(&before);
        }
        Ok(generation)
    }

    fn transport_interval_vec(&self) -> (r: Vec<MemoryInterval>)
        requires
            self.wf(),
        ensures
            r@ == transport_intervals(self.spec_transport()),
    {
        let mut v: Vec<MemoryInterval> = Vec::new();
        match &self.transport {
            Some(t) => {
                v.push(t.interval());
                assert(v@ =~= transport_intervals(self.spec_transport()));
            },
            None => {
                assert(v@ =~= transport_intervals(self.spec_transport()));
            },
        }
        v
    }

    fn output_interval_vec(&self) -> (r: Vec<MemoryInterval>)
        requires
            self.wf(),
        ensures
            r@ == output_intervals(self.spec_output()),
    {
        match &self.output {
            Some(o) => o.intervals(),
            None => {
                let v: Vec<MemoryInterval> = Vec::new();
                assert(v@ =~= output_intervals(self.spec_output()));
                v
            },
        }
    }

    fn peer_interval_vec(&self) -> (r: Vec<MemoryInterval>)
        requires
            self.wf(),
        ensures
            r@ == peer_intervals(self.spec_peers()),
    {
        let v = self.peers.intervals();
        assert(v@ =~= peer_intervals(self.spec_peers()));
        v
    }

    /// Binds the pending transport once its activation memory resolves; the
    /// candidate must not alias the output or a peer.
    fn bind_transport(&mut self) -> (r: Result<ApplyOutcome, SessionError>)
        requires
            old(self).wf(),
            old(self).spec_state() != SessionState::Disconnected,
        ensures
            final(self).wf(),
            final(self).spec_state() != SessionState::Disconnected,
            final(self).spec_format() == old(self).spec_format(),
            final(self).spec_buffers() == old(self).spec_buffers(),
            final(self).spec_io() == old(self).spec_io(),
            final(self).spec_output() == old(self).spec_output(),
            final(self).spec_peer_set() == old(self).spec_peer_set(),
            final(self).spec_pending_peers() == old(self).spec_pending_peers(),
            final(self).spec_active() == old(self).spec_active(),
            final(self).spec_command() == old(self).spec_command(),
            !old(self).spec_has_pending_transport() ==> r == Ok::<ApplyOutcome, SessionError>(
                ApplyOutcome::Applied,
            ) && final(self).spec_state() == old(self).spec_state() && final(self).spec_transport()
                == old(self).spec_transport() && !final(self).spec_has_pending_transport(),
            r == Ok::<ApplyOutcome, SessionError>(ApplyOutcome::Applied) && old(
                self).spec_has_pending_transport() ==> final(self).spec_transport() is Some
                && !final(self).spec_has_pending_transport(),
            r == Ok::<ApplyOutcome, SessionError>(ApplyOutcome::PendingMemory) ==> final(
                self).spec_has_pending_transport() && final(self).spec_transport() == old(self).spec_transport()
                && final(self).spec_state() == old(self).spec_state(),
            r != Ok::<ApplyOutcome, SessionError>(ApplyOutcome::AlreadyDisconnected),
            final(self).spec_transport() is None ==> old(self).spec_transport() is None,
            final(self).spec_state() == SessionState::Running ==> old(self).spec_state()
                == SessionState::Running,
            r is Err ==> final(self).spec_transport() == old(self).spec_transport(),
            r == Ok::<ApplyOutcome, SessionError>(ApplyOutcome::Applied) ==> (old(
                self).spec_pending_transport_region() matches Some(a) ==> final(self).spec_transport() is Some
                && bound_from(final(self).spec_transport()->Some_0, a)),
            old(self).spec_pending_transport_region() matches Some(a) ==> (old(self).spec_memory().spec_resolve(
                a.memory,
            ) matches Err(MemoryError::UnknownMemory(_)) ==> r == Ok::<ApplyOutcome, SessionError>(
                ApplyOutcome::PendingMemory,
            ) && *final(self) == *old(self)),
            old(self).spec_pending_transport_region() matches Some(a) ==> (old(self).spec_memory().spec_resolve(
                a.memory,
            ) matches Err(e) ==> (!(e is UnknownMemory) ==> r == Err::<ApplyOutcome, SessionError>(
                SessionError::Memory(e),
            ))),
            final(self).spec_memory() == old(self).spec_memory(),
            old(self).spec_pending_transport_region() matches Some(a) ==> (a.len < crate::activation_abi::SIZE
                && old(self).spec_memory().spec_resolve(a.memory) is Ok ==> r is Err),
    {
        let memory_id = match &self.pending_transport {
            None => {
                return Ok(ApplyOutcome::Applied);
            },
            Some(d) => d.activation.memory,
        };
        match unresolved(self.memory.resolve(memory_id)) {
            Err(e) => {
                return Err(e);
            },
            Ok(true) => {
                return Ok(ApplyOutcome::PendingMemory);
            },
            Ok(false) => {},
        }
        let descriptor = self.pending_transport.take().unwrap();
        proof {
            self.lemma_wf_frame(&*old(self));
        }
        let generation = self.allocate_generation()?;
        let candidate = TransportGeneration::bind(generation, descriptor, &self.memory)?;
        let mut existing = self.output_interval_vec();
        let mut peer_ints = self.peer_interval_vec();
        existing.append(&mut peer_ints);
        let mut cand: Vec<MemoryInterval> = Vec::new();
        cand.push(candidate.interval());
        ensure_disjoint(&cand, &existing)?;
        let ghost stopped_from = *self;
        self.stop()?;
        self.transport = Some(candidate);
        proof {
            let t = candidate;
            let o_ints = output_intervals(self.spec_output());
            assert(self.spec_output() == stopped_from.spec_output());
            assert(self.spec_peers() == stopped_from.spec_peers());
            assert(existing@ == o_ints + peer_intervals(self.spec_peers()));
            assert(cand@[0] == t.spec_interval());
            assert forall|i: int| 0 <= i < o_ints.len() implies !t.spec_interval().spec_overlaps(
                #[trigger] o_ints[i]) by {
                assert(existing@[i] == o_ints[i]);
            }
            assert forall|k: int| 0 <= k < self.spec_peers().len() implies !t.spec_interval().spec_overlaps(
                (#[trigger] self.spec_peers()[k]).spec_interval()) by {
                assert(existing@[o_ints.len() + k] == self.spec_peers()[k].spec_interval());
            }
            assert(self.separated());
        }
        Ok(ApplyOutcome::Applied)
    }

    fn pending_index(&self, node: NodeId) -> (r: Option<usize>)
        ensures
            r matches Some(i) ==> i < self.spec_pending_peers().len()
                && self.spec_pending_peers()[i as int].node == node,
            r is None ==> !self.has_pending_peer(node),
    {
        let n = self.pending_peers.len();
        let mut i: usize = 0;
        while i < n
            invariant
                n == self.pending_peers@.len(),
                i <= n,
                forall|k: int| 0 <= k < i ==> (#[trigger] self.pending_peers@[k]).node != node,
            decreases n - i,
        {
            if self.pending_peers[i].node.0 == node.0 {
                return Some(i);
            }
            i = i + 1;
        }
        None
    }

    /// Keeps `d` pending, replacing a pending descriptor of the same node.
    fn insert_pending(&mut self, d: PeerActivationDescriptor<F>)
        requires
            old(self).wf(),
            old(self).spec_state() != SessionState::Disconnected,
        ensures
            final(self).wf(),
            final(self).same_except_pending(old(self)),
            final(self).has_pending_peer(d.node),
            final(self).spec_pending_peers().contains(d),
            forall|n: NodeId| n != d.node ==> (#[trigger] final(self).has_pending_peer(n) <==> old(
                self).has_pending_peer(n)),
    {
        let ghost before = *self;
        let ghost s0 = self.spec_pending_peers();
        let n = self.pending_peers.len();
        let mut i: usize = 0;
        while i < n && self.pending_peers[i].node.0 < d.node.0
            invariant
                n == self.pending_peers@.len(),
                i <= n,
                self.pending_peers@ == s0,
                forall|k: int| 0 <= k < i ==> (#[trigger] s0[k]).node.0 < d.node.0,
            decreases n - i,
        {
            i = i + 1;
        }
        let node = d.node;
        if i < n && self.pending_peers[i].node.0 == d.node.0 {
            let _ = self.pending_peers.remove(i);
            self.pending_peers.insert(i, d);
            assert(self.pending_peers@ =~= s0.update(i as int, self.pending_peers@[i as int]));
        } else {
            self.pending_peers.insert(i, d);
        }
        proof {
            let s1 = self.spec_pending_peers();
            assert(s1[i as int].node == node);
            assert(pending_sorted(s1)) by {
                assert forall|a: int, b: int| 0 <= a < b < s1.len() implies (#[trigger] s1[a]).node.0
                    < (#[trigger] s1[b]).node.0 by {
                    if s1.len() == s0.len() {
                        if a != i && b != i {
                            assert(s1[a] == s0[a] && s1[b] == s0[b]);
                        } else if a == i {
                            assert(s1[b] == s0[b]);
                        } else {
                            assert(s1[a] == s0[a]);
                        }
                    } else {
                        if a < i {
                            assert(s1[a] == s0[a]);
                        } else if a > i {
                            assert(s1[a] == s0[a - 1]);
                        }
                        if b < i {
                            assert(s1[b] == s0[b]);
                        } else if b > i {
                            assert(s1[b] == s0[b - 1]);
                        }
                    }
                }
            }
            assert(self.has_pending_peer(node));
            assert forall|m: NodeId| m != node implies (#[trigger] self.has_pending_peer(m)
                <==> before.has_pending_peer(m)) by {
                if self.has_pending_peer(m) {
                    let k = choose|k: int| 0 <= k < s1.len() && (#[trigger] s1[k]).node == m;
                    if s1.len() == s0.len() {
                        assert(s0[k] == s1[k]);
                    } else if k < i {
                        assert(s0[k] == s1[k]);
                    } else {
                        assert(s0[k - 1] == s1[k]);
                    }
                }
                if before.has_pending_peer(m) {
                    let k = choose|k: int| 0 <= k < s0.len() && (#[trigger] s0[k]).node == m;
                    if s1.len() == s0.len() {
                        assert(s1[k] == s0[k]);
                    } else if k < i {
                        assert(s1[k] == s0[k]);
                    } else {
                        assert(s1[k + 1] == s0[k]);
                    }
                }
            }
            self.lemma_wf_frame(&before);
        }
    }

    /// Drops the pending descriptor of `node`, if any.
    fn remove_pending(&mut self, node: NodeId)
        requires
            old(self).wf(),
        ensures
            final(self).wf(),
            final(self).same_except_pending(old(self)),
            !final(self).has_pending_peer(node),
            forall|n: NodeId| n != node ==> (#[trigger] final(self).has_pending_peer(n) <==> old(
                self).has_pending_peer(n)),
    {
        let ghost before = *self;
        let ghost s0 = self.spec_pending_peers();
        match self.pending_index(node) {
            None => {},
            Some(i) => {
                let _ = self.pending_peers.remove(i);
                proof {
                    let s1 = self.spec_pending_peers();
                    assert forall|a: int, b: int| 0 <= a < b < s1.len() implies (#[trigger] s1[a]).node.0
                        < (#[trigger] s1[b]).node.0 by {
                        let a0 = if a < i { a } else { a + 1 };
                        let b0 = if b < i { b } else { b + 1 };
                        assert(s1[a] == s0[a0]);
                        assert(s1[b] == s0[b0]);
                    }
                    assert forall|m: NodeId| #[trigger] self.has_pending_peer(m) implies before.has_pending_peer(m)
                        && m != node by {
                        let k = choose|k: int| 0 <= k < s1.len() && (#[trigger] s1[k]).node == m;
                        let k0 = if k < i { k } else { k + 1 };
                        assert(s0[k0] == s1[k]);
                        if k0 < i {
                            assert(s0[k0].node.0 < s0[i as int].node.0);
                        } else {
                            assert(s0[i as int].node.0 < s0[k0].node.0);
                        }
                    }
                    assert forall|m: NodeId| m != node && #[trigger] before.has_pending_peer(m) implies self.has_pending_peer(m) by {
                        let k = choose|k: int| 0 <= k < s0.len() && (#[trigger] s0[k]).node == m;
                        assert(k != i);
                        if k < i {
                            assert(s1[k] == s0[k]);
                        } else {
                            assert(s1[k - 1] == s0[k]);
                        }
                    }
                }
            },
        }
        proof {
            self.lemma_wf_frame(&before);
        }
    }

    /// Builds an output candidate once all its memory resolves; it must
    /// not alias the transport or a peer. `None` while memory is missing.
    fn output_candidate(
        &mut self,
        format: NegotiatedAudioFormat,
        buffers: &BufferSetDescriptor,
        io: PortIoDescriptor,
    ) -> (r: Result<Option<OutputGeneration>, SessionError>)
        requires
            old(self).wf(),
        ensures
            final(self).wf(),
            final(self).same_except_generation(old(self)),
            output_memory(old(self).spec_memory(), buffers.buffers@, 0, io) == Ok::<bool, SessionError>(true)
                <==> r == Ok::<Option<OutputGeneration>, SessionError>(None),
            output_memory(old(self).spec_memory(), buffers.buffers@, 0, io) matches Err(e) ==> r == Err::<
                Option<OutputGeneration>,
                SessionError,
            >(e),
            output_memory(old(self).spec_memory(), buffers.buffers@, 0, io) == Ok::<bool, SessionError>(false)
                && !all_descriptors_ok(buffers.buffers@) ==> r is Err,
            r matches Ok(Some(c)) ==> {
                &&& c.wf()
                &&& c.spec_id() < final(self).spec_next_generation()
                &&& disjoint_from(
                    c.spec_intervals(),
                    transport_intervals(final(self).spec_transport()) + peer_intervals(
                        final(self).spec_peers(),
                    ),
                )
            },
    {
        let n = buffers.buffers.len();
        let mut i: usize = 0;
        let mut missing = false;
        let mut failure: Option<SessionError> = None;
        let ghost total = output_memory(self.spec_memory(), buffers.buffers@, 0, io);
        while i < n
            invariant_except_break
                !missing,
                failure is None,
            invariant
                n == buffers.buffers@.len(),
                i <= n,
                self == old(self),
                total == output_memory(self.spec_memory(), buffers.buffers@, 0, io),
                !missing && failure is None ==> total == output_memory(self.spec_memory(), buffers.buffers@, i as int, io),
                missing ==> failure is None && total == Ok::<bool, SessionError>(true),
                failure matches Some(e) ==> !missing && total == Err::<bool, SessionError>(e),
            ensures
                !missing && failure is None ==> i == n,
            decreases n - i,
        {
            proof {
                let m = self.spec_memory();
                let b = buffers.buffers@;
                assert(output_memory(m, b, i as int, io) == resolve_step(
                    m,
                    b[i as int].metadata.memory,
                    resolve_step(m, b[i as int].media_memory, output_memory(m, b, i + 1, io)),
                ));
            }
            match unresolved(self.memory.resolve(buffers.buffers[i].metadata.memory)) {
                Err(e) => {
                    failure = Some(e);
                    break;
                },
                Ok(true) => {
                    missing = true;
                    break;
                },
                Ok(false) => {},
            }
            match unresolved(self.memory.resolve(buffers.buffers[i].media_memory)) {
                Err(e) => {
                    failure = Some(e);
                    break;
                },
                Ok(true) => {
                    missing = true;
                    break;
                },
                Ok(false) => {},
            }
            i = i + 1;
        }
        if let Some(e) = failure {
            return Err(e);
        }
        if missing {
            return Ok(None);
        }
        if unresolved(self.memory.resolve(io.region.memory))? {
            return Ok(None);
        }
        let generation = self.allocate_generation()?;
        let candidate = OutputGeneration::bind(generation, format, buffers, io, &self.memory)?;
        let mut existing = self.transport_interval_vec();
        let mut peer_ints = self.peer_interval_vec();
        existing.append(&mut peer_ints);
        let ints = candidate.intervals();
        ensure_disjoint(&ints, &existing)?;
        proof {
            assert forall|k: int| 0 <= k < buffers.buffers@.len() implies descriptor_ok(
                #[trigger] buffers.buffers@[k],
            ) by {
                assert(bound_as(candidate.spec_buffers()[k], buffers.buffers@[k]));
            }
        }
        Ok(Some(candidate))
    }

    /// Binds the output once format, buffers and IO are all present.
    fn bind_output(&mut self) -> (r: Result<ApplyOutcome, SessionError>)
        requires
            old(self).wf(),
            old(self).spec_state() != SessionState::Disconnected,
        ensures
            final(self).wf(),
            final(self).spec_state() != SessionState::Disconnected,
            final(self).spec_state() == SessionState::Running ==> old(self).spec_state()
                == SessionState::Running,
            final(self).spec_format() == old(self).spec_format(),
            final(self).spec_buffers() == old(self).spec_buffers(),
            final(self).spec_io() == old(self).spec_io(),
            final(self).spec_transport() is Some == old(self).spec_transport() is Some,
            final(self).spec_has_pending_transport() == old(self).spec_has_pending_transport(),
            final(self).spec_peer_set() == old(self).spec_peer_set(),
            final(self).spec_pending_peers() == old(self).spec_pending_peers(),
            final(self).spec_active() == old(self).spec_active(),
            final(self).spec_command() == old(self).spec_command(),
            r != Ok::<ApplyOutcome, SessionError>(ApplyOutcome::AlreadyDisconnected),
            r == Ok::<ApplyOutcome, SessionError>(ApplyOutcome::Applied) && old(self).spec_format() is Some
                && old(self).spec_buffers() is Some && old(self).spec_io() is Some ==> final(
                self).spec_output() is Some,
            !(old(self).spec_format() is Some && old(self).spec_buffers() is Some && old(
                self).spec_io() is Some) ==> r == Ok::<ApplyOutcome, SessionError>(
                ApplyOutcome::Applied,
            ) && final(self).spec_output() == old(self).spec_output() && final(self).spec_state()
                == old(self).spec_state(),
    {
        let format = match &self.format {
            Some(f) => crate::cycle::clone_format(f),
            None => {
                return Ok(ApplyOutcome::Applied);
            },
        };
        let buffers = match &self.buffer_descriptor {
            Some(b) => b.clone(),
            None => {
                return Ok(ApplyOutcome::Applied);
            },
        };
        let io = match self.io_descriptor {
            Some(io) => io,
            None => {
                return Ok(ApplyOutcome::Applied);
            },
        };
        let candidate = match self.output_candidate(format, &buffers, io)? {
            None => {
                return Ok(ApplyOutcome::PendingMemory);
            },
            Some(c) => c,
        };
        let ghost computed = *self;
        self.stop()?;
        let ghost stopped = *self;
        self.output = Some(candidate);
        proof {
            let c = candidate;
            let ex = transport_intervals(computed.spec_transport()) + peer_intervals(computed.spec_peers());
            assert(self.spec_peers() == computed.spec_peers());
            assert forall|i: int, k: int|
                0 <= i < c.spec_intervals().len() && 0 <= k < self.spec_peers().len() implies !(
                #[trigger] c.spec_intervals()[i]).spec_overlaps(
                (#[trigger] self.spec_peers()[k]).spec_interval()) by {
                assert(ex[transport_intervals(computed.spec_transport()).len() + k]
                    == self.spec_peers()[k].spec_interval());
            }
            if self.spec_transport() is Some {
                let t = self.spec_transport()->Some_0;
                assert(t.spec_interval() == computed.spec_transport()->Some_0.spec_interval());
                assert forall|i: int| 0 <= i < c.spec_intervals().len() implies !t.spec_interval().spec_overlaps(
                    #[trigger] c.spec_intervals()[i]) by {
                    assert(ex[0] == t.spec_interval());
                    assert(!c.spec_intervals()[i].spec_overlaps(ex[0]));
                }
            }
            assert(self.separated());
            assert(self.wf());
        }
        Ok(ApplyOutcome::Applied)
    }

    /// Binds the pending peer of `node` once its memory resolves; the
    /// candidate must not alias the transport, the output or another peer.
    fn bind_peer(&mut self, node: NodeId) -> (r: Result<ApplyOutcome, SessionError>)
        requires
            old(self).wf(),
            old(self).spec_state() != SessionState::Disconnected,
            old(self).has_pending_peer(node),
        ensures
            final(self).wf(),
            final(self).spec_state() == old(self).spec_state(),
            final(self).spec_format() == old(self).spec_format(),
            final(self).spec_buffers() == old(self).spec_buffers(),
            final(self).spec_io() == old(self).spec_io(),
            final(self).spec_transport() == old(self).spec_transport(),
            final(self).spec_has_pending_transport() == old(self).spec_has_pending_transport(),
            final(self).spec_output() == old(self).spec_output(),
            final(self).spec_active() == old(self).spec_active(),
            final(self).spec_command() == old(self).spec_command(),
            forall|n: NodeId| n != node ==> (#[trigger] final(self).has_pending_peer(n) <==> old(
                self).has_pending_peer(n)),
            r != Ok::<ApplyOutcome, SessionError>(ApplyOutcome::AlreadyDisconnected),
            r == Ok::<ApplyOutcome, SessionError>(ApplyOutcome::Applied) ==> final(self).spec_peer_set().has_node(node)
                && !final(self).has_pending_peer(node),
            r == Ok::<ApplyOutcome, SessionError>(ApplyOutcome::Applied) ==> exists|k: int|
                0 <= k < old(self).spec_pending_peers().len() && (#[trigger] old(
                    self,
                ).spec_pending_peers()[k]).node == node && final(self).spec_peer_set().binds(
                    node,
                    old(self).spec_pending_peers()[k].activation,
                ),
            r == Ok::<ApplyOutcome, SessionError>(ApplyOutcome::PendingMemory) ==> final(
                self).has_pending_peer(node),
    {
        let index = self.pending_index(node).unwrap();
        match unresolved(self.memory.resolve(self.pending_peers[index].activation.memory)) {
            Err(e) => {
                return Err(e);
            },
            Ok(true) => {
                return Ok(ApplyOutcome::PendingMemory);
            },
            Ok(false) => {},
        }
        let ghost before = *self;
        let ghost s0 = self.spec_pending_peers();
        let descriptor = self.pending_peers.remove(index);
        assert(descriptor.node == node);
        proof {
            let s1 = self.spec_pending_peers();
            assert forall|a: int, b: int| 0 <= a < b < s1.len() implies (#[trigger] s1[a]).node.0
                < (#[trigger] s1[b]).node.0 by {
                let a0 = if a < index { a } else { a + 1 };
                let b0 = if b < index { b } else { b + 1 };
                assert(s1[a] == s0[a0]);
                assert(s1[b] == s0[b0]);
            }
            assert forall|m: NodeId| #[trigger] self.has_pending_peer(m) implies before.has_pending_peer(m)
                && m != node by {
                let k = choose|k: int| 0 <= k < s1.len() && (#[trigger] s1[k]).node == m;
                let k0 = if k < index { k } else { k + 1 };
                assert(s0[k0] == s1[k]);
                if k0 < index {
                    assert(s0[k0].node.0 < s0[index as int].node.0);
                } else {
                    assert(s0[index as int].node.0 < s0[k0].node.0);
                }
            }
            assert forall|m: NodeId| m != node && #[trigger] before.has_pending_peer(m) implies self.has_pending_peer(m) by {
                let k = choose|k: int| 0 <= k < s0.len() && (#[trigger] s0[k]).node == m;
                assert(k != index);
                if k < index {
                    assert(s1[k] == s0[k]);
                } else {
                    assert(s1[k - 1] == s0[k]);
                }
            }
            self.lemma_wf_frame(&before);
        }
        let generation = self.allocate_generation()?;
        let candidate = PeerActivation::bind(generation, descriptor, &self.memory)?;
        let mut existing = self.transport_interval_vec();
        let mut output_ints = self.output_interval_vec();
        let mut others = self.peers.intervals_except(node);
        let ghost ti = existing@;
        let ghost oi = output_ints@;
        let ghost rest = others@;
        existing.append(&mut output_ints);
        existing.append(&mut others);
        proof {
            assert(existing@ =~= ti + oi + rest);
            assert(existing@.skip((ti.len() + oi.len()) as int) =~= rest);
            assert(candidate.spec_node() == node);
        }
        let mut cand: Vec<MemoryInterval> = Vec::new();
        cand.push(candidate.interval());
        ensure_disjoint(&cand, &existing)?;
        let ghost installed_from = *self;
        let _ = self.peers.insert(candidate);
        proof {
            self.lemma_peer_installed(&installed_from, candidate, existing@);
            let w = choose|w: int| 0 <= w < self.spec_peers().len() && self.spec_peers()[w] == candidate;
            assert(self.spec_peers()[w].spec_node() == node);
            assert(s0[index as int].node == node);
        }
        Ok(ApplyOutcome::Applied)
    }

    /// Installing a peer whose interval avoids `existing` (the transport,
    /// the output and every other node's peer) keeps the invariant.
    proof fn lemma_peer_installed(
        &self,
        o: &Self,
        c: PeerActivation<F>,
        existing: Seq<MemoryInterval>,
    )
        requires
            o.wf(),
            c.wf(),
            c.spec_generation() < o.spec_next_generation(),
            self.spec_peer_set().wf(),
            self.spec_peers().contains(c),
            forall|i: int|
                0 <= i < self.spec_peers().len() ==> #[trigger] self.spec_peers()[i] == c || (
                self.spec_peers()[i].spec_node() != c.spec_node() && o.spec_peers().contains(
                    self.spec_peers()[i],
                )),
            existing == transport_intervals(o.spec_transport()) + output_intervals(o.spec_output())
                + existing.skip(transport_intervals(o.spec_transport()).len() + output_intervals(
                o.spec_output()).len() as int),
            forall|j: int|
                0 <= j < o.spec_peers().len() && (#[trigger] o.spec_peers()[j]).spec_node()
                    != c.spec_node() ==> existing.skip(
                    transport_intervals(o.spec_transport()).len() + output_intervals(
                        o.spec_output(),
                    ).len() as int,
                ).contains(o.spec_peers()[j].spec_interval()),
            disjoint_from(seq![c.spec_interval()], existing),
            self.same_except_peers(o),
            o.spec_state() != SessionState::Disconnected,
        ensures
            self.wf(),
    {
        let ps = self.spec_peers();
        let os = o.spec_peers();
        let ti = transport_intervals(o.spec_transport());
        let oi = output_intervals(o.spec_output());
        let rest = existing.skip(ti.len() + oi.len() as int);
        let ci = seq![c.spec_interval()];
        assert(ci[0] == c.spec_interval());
        assert forall|k: int| 0 <= k < ps.len() implies (#[trigger] ps[k]).spec_generation()
            < self.spec_next_generation() by {
            if ps[k] != c {
                let j = choose|j: int| 0 <= j < os.len() && os[j] == ps[k];
            }
        }
        // the candidate avoids the transport and the output
        if self.spec_transport() is Some {
            let t = self.spec_transport()->Some_0;
            assert(existing[0] == ti[0]);
            assert(!ci[0].spec_overlaps(existing[0]));
            assert forall|k: int| 0 <= k < ps.len() implies !t.spec_interval().spec_overlaps(
                (#[trigger] ps[k]).spec_interval()) by {
                if ps[k] != c {
                    let j = choose|j: int| 0 <= j < os.len() && os[j] == ps[k];
                    assert(!t.spec_interval().spec_overlaps(os[j].spec_interval()));
                }
            }
        }
        if self.spec_output() is Some {
            let out = self.spec_output()->Some_0;
            assert forall|i: int, k: int|
                0 <= i < out.spec_intervals().len() && 0 <= k < ps.len() implies !(
                #[trigger] out.spec_intervals()[i]).spec_overlaps((#[trigger] ps[k]).spec_interval()) by {
                if ps[k] == c {
                    assert(existing[ti.len() + i] == oi[i]);
                    assert(!ci[0].spec_overlaps(existing[ti.len() + i]));
                } else {
                    let j = choose|j: int| 0 <= j < os.len() && os[j] == ps[k];
                    assert(!out.spec_intervals()[i].spec_overlaps(os[j].spec_interval()));
                }
            }
        }
        assert forall|k: int, m: int| 0 <= k < m < ps.len() implies !(#[trigger] ps[k]).spec_interval().spec_overlaps(
            (#[trigger] ps[m]).spec_interval()) by {
            assert(ps[k].spec_node().0 < ps[m].spec_node().0);
            if ps[k] == c {
                let j = choose|j: int| 0 <= j < os.len() && os[j] == ps[m];
                assert(os[j].spec_node() != c.spec_node());
                assert(rest.contains(os[j].spec_interval()));
                let e = choose|e: int| 0 <= e < rest.len() && rest[e] == os[j].spec_interval();
                assert(existing[ti.len() + oi.len() + e] == rest[e]);
                assert(!ci[0].spec_overlaps(existing[ti.len() + oi.len() + e]));
            } else if ps[m] == c {
                let j = choose|j: int| 0 <= j < os.len() && os[j] == ps[k];
                assert(os[j].spec_node() != c.spec_node());
                assert(rest.contains(os[j].spec_interval()));
                let e = choose|e: int| 0 <= e < rest.len() && rest[e] == os[j].spec_interval();
                assert(existing[ti.len() + oi.len() + e] == rest[e]);
                assert(!ci[0].spec_overlaps(existing[ti.len() + oi.len() + e]));
            } else {
                let a = choose|j: int| 0 <= j < os.len() && os[j] == ps[k];
                let b = choose|j: int| 0 <= j < os.len() && os[j] == ps[m];
                assert(a != b);
                if a < b {
                    assert(!os[a].spec_interval().spec_overlaps(os[b].spec_interval()));
                } else {
                    assert(!os[b].spec_interval().spec_overlaps(os[a].spec_interval()));
                }
            }
        }
        assert(self.separated());
    }

    /// Keeping only some of the installed peers keeps the invariant.
    proof fn lemma_peers_subset(&self, o: &Self)
        requires
            o.wf(),
            self.spec_peer_set().wf(),
            forall|i: int|
                0 <= i < self.spec_peers().len() ==> o.spec_peers().contains(
                    #[trigger] self.spec_peers()[i],
                ),
            self.next_generation >= o.next_generation,
            self.transport is Some ==> o.transport is Some && self.transport->Some_0 == o.transport->Some_0 && self.transport->Some_0.wf(),
            self.output is Some ==> self.output == o.output && self.format is Some
                && self.buffer_descriptor is Some && self.io_descriptor is Some,
            pending_sorted(self.pending_peers@),
            self.state != SessionState::CycleClaimed,
            self.state == SessionState::Running ==> self.spec_ready(),
            self.state == SessionState::Disconnected ==> self.cleared(),
        ensures
            self.wf(),
    {
        let ps = self.spec_peers();
        let os = o.spec_peers();
        assert forall|k: int| 0 <= k < ps.len() implies (#[trigger] ps[k]).spec_generation()
            < self.spec_next_generation() by {
            let j = choose|j: int| 0 <= j < os.len() && os[j] == ps[k];
        }
        if self.spec_transport() is Some {
            let t = self.spec_transport()->Some_0;
            assert(t.spec_interval() == o.spec_transport()->Some_0.spec_interval());
            assert forall|k: int| 0 <= k < ps.len() implies !t.spec_interval().spec_overlaps(
                (#[trigger] ps[k]).spec_interval()) by {
                let j = choose|j: int| 0 <= j < os.len() && os[j] == ps[k];
                assert(!t.spec_interval().spec_overlaps(os[j].spec_interval()));
            }
        }
        if self.spec_output() is Some {
            let out = self.spec_output()->Some_0;
            assert forall|i: int, k: int|
                0 <= i < out.spec_intervals().len() && 0 <= k < ps.len() implies !(
                #[trigger] out.spec_intervals()[i]).spec_overlaps((#[trigger] ps[k]).spec_interval()) by {
                let j = choose|j: int| 0 <= j < os.len() && os[j] == ps[k];
                assert(!out.spec_intervals()[i].spec_overlaps(os[j].spec_interval()));
            }
        }
        assert forall|k: int, m: int| 0 <= k < m < ps.len() implies !(#[trigger] ps[k]).spec_interval().spec_overlaps(
            (#[trigger] ps[m]).spec_interval()) by {
            assert(ps[k].spec_node().0 < ps[m].spec_node().0);
            let a = choose|j: int| 0 <= j < os.len() && os[j] == ps[k];
            let b = choose|j: int| 0 <= j < os.len() && os[j] == ps[m];
            assert(a != b);
            if a < b {
                assert(!os[a].spec_interval().spec_overlaps(os[b].spec_interval()));
            } else {
                assert(!os[b].spec_interval().spec_overlaps(os[a].spec_interval()));
            }
        }
        assert(self.separated());
    }

    /// Drops every bound generation that pins memory generation `key`.
    fn remove_memory(&mut self, key: MemoryKey) -> (r: Result<(), SessionError>)
        requires
            old(self).wf(),
            old(self).spec_state() != SessionState::Disconnected,
        ensures
            final(self).wf(),
            final(self).spec_state() != SessionState::Disconnected,
            final(self).spec_format() == old(self).spec_format(),
            final(self).spec_buffers() == old(self).spec_buffers(),
            final(self).spec_io() == old(self).spec_io(),
            final(self).spec_active() == old(self).spec_active(),
            final(self).spec_command() == old(self).spec_command(),
            final(self).spec_state() == SessionState::Running ==> old(self).spec_state()
                == SessionState::Running,
            r is Ok ==> !final(self).pins(key),
            old(self).spec_transport() is None ==> r is Ok,
            removal_idle(key, *old(self)) ==> r is Ok,
            r is Ok ==> kept_unpinned(key, *old(self), *final(self)),
    {
        let drop_transport = match &self.transport {
            Some(t) => t.activation_key() == key,
            None => false,
        };
        if drop_transport {
            self.stop()?;
            let ghost stopped = *self;
            self.transport = None;
            proof {
                self.lemma_wf_frame(&stopped);
            }
        }
        let drop_output = match &self.output {
            Some(o) => o.depends_on(key),
            None => false,
        };
        if drop_output {
            self.stop()?;
            let ghost stopped = *self;
            self.output = None;
            proof {
                self.lemma_wf_frame(&stopped);
            }
        }
        let ghost kept = *self;
        self.peers.remove_memory(key);
        proof {
            self.lemma_peers_subset(&kept);
        }
        Ok(())
    }

    /// Schedules the node when it is active, started and fully configured:
    /// its activation moves from INACTIVE to FINISHED (or is FINISHED).
    fn ensure_running(&mut self) -> (r: Result<(), SessionError>)
        requires
            old(self).wf(),
            old(self).spec_state() != SessionState::Disconnected,
        ensures
            final(self).wf(),
            final(self).spec_state() != SessionState::Disconnected,
            final(self).same_config(old(self)),
            !(old(self).spec_active() && old(self).spec_command() == NodeCommandState::Start) ==> r is Ok
                && final(self).spec_state() == old(self).spec_state(),
            old(self).spec_active() && old(self).spec_command() == NodeCommandState::Start && !old(
                self).spec_ready() ==> r == Err::<(), SessionError>(
                SessionError::NotReady("Start has unresolved configuration"),
            ) && final(self).spec_state() == SessionState::Configuring,
            r is Ok && old(self).spec_active() && old(self).spec_command() == NodeCommandState::Start
                ==> final(self).spec_state() == SessionState::Running,
            r is Err ==> final(self).spec_state() == old(self).spec_state() || final(self).spec_state()
                == SessionState::Configuring,
    {
        let ghost before = *self;
        if !self.active_requested || self.command != NodeCommandState::Start {
            return Ok(());
        }
        if !self.is_ready() {
            self.state = SessionState::Configuring;
            proof {
                self.lemma_wf_frame(&before);
            }
            return Err(SessionError::NotReady("Start has unresolved configuration"));
        }
        let result = match &self.transport {
            Some(t) => match t.status(&self.memory) {
                Err(e) => Err(e),
                Ok(ActivationStatus::Inactive) => t.mark_ready(&self.memory).0,
                Ok(ActivationStatus::Finished) => Ok(()),
                Ok(_) => Err(SessionError::InvalidTransition("Start activation status")),
            },
            None => Ok(()),
        };
        if result.is_err() {
            return result;
        }
        self.state = SessionState::Running;
        proof {
            self.lemma_wf_frame(&before);
        }
        Ok(())
    }

    /// Retries every binding that waits for memory.
    fn retry_pending(&mut self) -> (r: Result<ApplyOutcome, SessionError>)
        requires
            old(self).wf(),
            old(self).spec_state() != SessionState::Disconnected,
        ensures
            final(self).wf(),
            final(self).spec_state() != SessionState::Disconnected,
            final(self).spec_format() == old(self).spec_format(),
            final(self).spec_buffers() == old(self).spec_buffers(),
            final(self).spec_io() == old(self).spec_io(),
            final(self).spec_active() == old(self).spec_active(),
            final(self).spec_command() == old(self).spec_command(),
            final(self).spec_state() == SessionState::Running ==> old(self).spec_state()
                == SessionState::Running,
            r != Ok::<ApplyOutcome, SessionError>(ApplyOutcome::AlreadyDisconnected),
            r == Ok::<ApplyOutcome, SessionError>(ApplyOutcome::Applied) ==> settled(*final(self)),
            !old(self).spec_has_pending_transport() && !(old(self).spec_format() is Some && old(
                self).spec_buffers() is Some && old(self).spec_io() is Some) && old(
                self).spec_pending_peers().len() == 0 ==> r == Ok::<ApplyOutcome, SessionError>(
                ApplyOutcome::Applied,
            ),
    {
        let mut pending = false;
        if self.pending_transport.is_some() {
            if self.bind_transport()? == ApplyOutcome::PendingMemory {
                pending = true;
            }
        }
        if self.buffer_descriptor.is_some() && self.io_descriptor.is_some() {
            if self.bind_output()? == ApplyOutcome::PendingMemory {
                pending = true;
            }
        }
        let mut nodes: Vec<NodeId> = Vec::new();
        let n = self.pending_peers.len();
        let mut k: usize = 0;
        while k < n
            invariant
                n == self.spec_pending_peers().len(),
                k <= n,
                nodes@.len() == k,
                forall|j: int| 0 <= j < k ==> #[trigger] nodes@[j] == self.spec_pending_peers()[j].node,
            decreases n - k,
        {
            nodes.push(self.pending_peers[k].node);
            k = k + 1;
        }
        let ghost s0 = self.spec_pending_peers();
        let ghost fmt = self.spec_format();
        let ghost bufs = self.spec_buffers();
        let ghost io = self.spec_io();
        let ghost active = self.spec_active();
        let ghost command = self.spec_command();
        let ghost running = self.spec_state() == SessionState::Running;
        let ghost full = fmt is Some && bufs is Some && io is Some;
        proof {
            assert forall|j: int| 0 <= j < nodes@.len() implies self.has_pending_peer(#[trigger] nodes@[j]) by {
                assert(self.spec_pending_peers()[j].node == nodes@[j]);
            }
            assert forall|m: NodeId| #[trigger] self.has_pending_peer(m) implies exists|j: int|
                0 <= j < n && nodes@[j] == m by {
                let k = choose|k: int| 0 <= k < s0.len() && (#[trigger] s0[k]).node == m;
                assert(nodes@[k] == m);
            }
        }
        let mut failure: Option<SessionError> = None;
        let ghost p0 = pending;
        let mut i: usize = 0;
        while i < n
            invariant_except_break
                forall|j: int| i <= j < n ==> self.has_pending_peer(#[trigger] nodes@[j]),
                failure is None,
            invariant
                !pending ==> !self.spec_has_pending_transport(),
                !pending && full ==> self.spec_output() is Some,
                !pending ==> forall|j: int| 0 <= j < i ==> !self.has_pending_peer(#[trigger] nodes@[j]),
                forall|m: NodeId|
                    #[trigger] self.has_pending_peer(m) ==> exists|j: int| 0 <= j < n && nodes@[j] == m,
                n == nodes@.len(),
                i <= n,
                self.wf(),
                self.spec_state() != SessionState::Disconnected,
                self.spec_format() == fmt,
                self.spec_buffers() == bufs,
                self.spec_io() == io,
                self.spec_active() == active,
                self.spec_command() == command,
                self.spec_state() == SessionState::Running ==> running,
                forall|j: int| 0 <= j < n ==> #[trigger] nodes@[j] == s0[j].node,
                pending_sorted(s0),
                s0.len() == n,
                i == 0 ==> pending == p0,
            ensures
                failure is None ==> i == n,
                failure is Some ==> n > 0,
            decreases n - i,
        {
            let node = nodes[i];
            match self.bind_peer(node) {
                Err(e) => {
                    failure = Some(e);
                    break;
                },
                Ok(o) => {
                    if o == ApplyOutcome::PendingMemory {
                        pending = true;
                    }
                },
            }
            proof {
                assert forall|j: int| i + 1 <= j < n implies self.has_pending_peer(#[trigger] nodes@[j]) by {
                    assert(s0[i as int].node.0 < s0[j].node.0);
                    assert(nodes@[j] != node);
                }
                assert forall|j: int| 0 <= j < i implies nodes@[j] != node by {
                    assert(s0[j].node.0 < s0[i as int].node.0);
                }
            }
            i = i + 1;
        }
        if let Some(e) = failure {
            return Err(e);
        }
        proof {
            if !pending {
                assert forall|m: NodeId| !self.has_pending_peer(m) by {
                    if self.has_pending_peer(m) {
                        let j = choose|j: int| 0 <= j < n && nodes@[j] == m;
                        assert(!self.has_pending_peer(nodes@[j]));
                    }
                }
            }
        }
        Ok(
            if pending {
                ApplyOutcome::PendingMemory
            } else {
                ApplyOutcome::Applied
            },
        )
    }

    /// Applies one command while no callback owns a cycle. Afterwards an
    /// active, started and fully bound session is scheduled.
    pub fn apply(&mut self, command: SessionCommand<F>) -> (r: Result<ApplyOutcome, SessionError>)
        requires
            old(self).wf(),
        ensures
            final(self).wf(),
            old(self).spec_state() == SessionState::Disconnected ==> *final(self) == *old(self) && (
            if command is Disconnect {
                r == Ok::<ApplyOutcome, SessionError>(ApplyOutcome::AlreadyDisconnected)
            } else {
                r == Err::<ApplyOutcome, SessionError>(SessionError::Disconnected)
            }),
            old(self).spec_state() != SessionState::Disconnected ==> command_effect(
                command,
                *old(self),
                *final(self),
                r,
            ),
            r is Ok && final(self).spec_active() && final(self).spec_command() == NodeCommandState::Start
                && final(self).spec_ready() ==> final(self).spec_state() == SessionState::Running,
            old(self).spec_state() != SessionState::Disconnected && !due_to_run(*final(self))
                ==> rejection_effect(command, *old(self), *final(self), r),
            old(self).spec_state() != SessionState::Disconnected && r is Err ==> rejection_effect(
                command,
                *old(self),
                *final(self),
                r,
            ) || exists|o: ApplyOutcome|
                #[trigger] command_effect(command, *old(self), *final(self), Ok::<ApplyOutcome, SessionError>(o)),
            old(self).spec_state() != SessionState::Disconnected && old(self).spec_state()
                != SessionState::CycleClaimed && command_owed(command, *old(self)) && !due_to_run(
                *final(self),
            ) ==> r is Ok,
            r is Ok && old(self).spec_state() != SessionState::Disconnected ==> {
                ||| final(self).spec_state() == SessionState::Running
                ||| final(self).spec_state() == SessionState::Failed
                ||| final(self).spec_state() == SessionState::Disconnected
                ||| final(self).spec_state() == (if final(self).spec_ready() {
                    SessionState::Ready
                } else {
                    SessionState::Configuring
                })
            },
    {
        if self.state == SessionState::Disconnected {
            return match command {
                SessionCommand::Disconnect => Ok(ApplyOutcome::AlreadyDisconnected),
                _ => Err(SessionError::Disconnected),
            };
        }
        if self.state == SessionState::CycleClaimed {
            return Err(SessionError::InvalidTransition("configuration during callback"));
        }
        let ghost applied_to = *self;
        let ghost cmd = command;
        let outcome = self.apply_command(command)?;
        let ghost applied = *self;
        self.refresh_state();
        proof {
            Self::lemma_effect_kept(cmd, applied_to, applied, *self, outcome);
        }
        if self.active_requested && self.command == NodeCommandState::Start && self.is_ready() {
            let ghost refreshed = *self;
            let started = self.ensure_running();
            proof {
                Self::lemma_effect_kept(cmd, applied_to, refreshed, *self, outcome);
            }
            if let Err(e) = started {
                assert(command_effect(cmd, applied_to, *self, Ok::<ApplyOutcome, SessionError>(outcome)));
                return Err(e);
            }
        }
        Ok(outcome)
    }

    /// The promises of a command survive steps that keep the configuration.
    proof fn lemma_effect_kept(
        cmd: SessionCommand<F>,
        before: Self,
        mid: Self,
        after: Self,
        outcome: ApplyOutcome,
    )
        requires
            command_effect(cmd, before, mid, Ok(outcome)),
            after.same_config(&mid),
            mid.spec_state() == SessionState::Disconnected ==> after.spec_state()
                == SessionState::Disconnected,
        ensures
            command_effect(cmd, before, after, Ok(outcome)),
    {
        assert(after.spec_peers() == mid.spec_peers());
        assert(after.spec_pending_peers() == mid.spec_pending_peers());
        if after.spec_transport() is Some {
            assert(after.spec_transport()->Some_0.spec_key() == mid.spec_transport()->Some_0.spec_key());
        }
        match cmd {
            SessionCommand::RemovePeerActivation(n) => {
                assert(after.spec_peer_set().has_node(n) == mid.spec_peer_set().has_node(n));
                assert(after.has_pending_peer(n) == mid.has_pending_peer(n));
            },
            SessionCommand::SetPeerActivation(v) => {
                assert(after.spec_peer_set() == mid.spec_peer_set());
                assert(after.spec_peer_set().has_node(v.node) == mid.spec_peer_set().has_node(v.node));
                assert(after.has_pending_peer(v.node) == mid.has_pending_peer(v.node));
            },
            SessionCommand::RemoveMemory(key) => {
                assert(after.pins(key) == mid.pins(key));
            },
            SessionCommand::MemoryAvailable(_) => {
                assert forall|n: NodeId| after.has_pending_peer(n) == mid.has_pending_peer(n) by {}
            },
            _ => {},
        }
    }

    fn apply_command(&mut self, command: SessionCommand<F>) -> (r: Result<ApplyOutcome, SessionError>)
        requires
            old(self).wf(),
            old(self).spec_state() != SessionState::Disconnected,
            old(self).spec_state() != SessionState::CycleClaimed,
        ensures
            final(self).wf(),
            command_effect(command, *old(self), *final(self), r),
            rejection_effect(command, *old(self), *final(self), r),
            r != Ok::<ApplyOutcome, SessionError>(ApplyOutcome::AlreadyDisconnected),
            !(command is Disconnect) ==> final(self).spec_state() != SessionState::Disconnected,
            command_owed(command, *old(self)) ==> r is Ok,
    {
        match command {
            SessionCommand::ReplaceTransport(value) => self.cmd_replace_transport(value),
            SessionCommand::SetFormat(value) => self.cmd_set_format(value),
            SessionCommand::ClearFormat => self.cmd_clear(true, true, true),
            SessionCommand::UseBuffers(value) => self.cmd_use_buffers(value),
            SessionCommand::ClearBuffers => self.cmd_clear(false, true, true),
            SessionCommand::SetPortIo(value) => self.cmd_set_port_io(value),
            SessionCommand::ClearPortIo => self.cmd_clear(false, false, true),
            SessionCommand::SetPeerActivation(value) => self.cmd_set_peer(value),
            SessionCommand::RemovePeerActivation(node) => self.cmd_remove_peer(node),
            SessionCommand::MemoryAvailable(_) => self.retry_pending(),
            SessionCommand::RemoveMemory(key) => {
                self.remove_memory(key)?;
                Ok(ApplyOutcome::Applied)
            },
            SessionCommand::SetActive(active) => self.cmd_set_active(active),
            SessionCommand::SetNodeCommand(command) => self.cmd_set_node_command(command),
            SessionCommand::Disconnect => self.cmd_disconnect(),
        }
    }

    fn cmd_replace_transport(&mut self, value: TransportDescriptor<F>) -> (r: Result<
        ApplyOutcome,
        SessionError,
    >)
        requires
            old(self).wf(),
            old(self).spec_state() != SessionState::Disconnected,
        ensures
            final(self).wf(),
            final(self).spec_state() != SessionState::Disconnected,
            r != Ok::<ApplyOutcome, SessionError>(ApplyOutcome::AlreadyDisconnected),
            r is Ok ==> (r == Ok::<ApplyOutcome, SessionError>(ApplyOutcome::Applied) && final(
                self).spec_transport() is Some && !final(self).spec_has_pending_transport()) || (r
                == Ok::<ApplyOutcome, SessionError>(ApplyOutcome::PendingMemory) && final(
                self).spec_has_pending_transport()),
            r is Err ==> final(self).spec_transport() == old(self).spec_transport(),
            r == Ok::<ApplyOutcome, SessionError>(ApplyOutcome::Applied) ==> final(self).spec_transport() is Some
                && bound_from(final(self).spec_transport()->Some_0, value.activation),
            old(self).spec_memory().spec_resolve(value.activation.memory) matches Err(
                MemoryError::UnknownMemory(_),
            ) ==> r == Ok::<ApplyOutcome, SessionError>(ApplyOutcome::PendingMemory) && final(
                self).spec_transport() == old(self).spec_transport() && final(self).spec_state() == old(
                self).spec_state() && final(self).spec_has_pending_transport(),
            old(self).spec_memory().spec_resolve(value.activation.memory) matches Err(e) ==> (!(e is UnknownMemory)
                ==> r == Err::<ApplyOutcome, SessionError>(SessionError::Memory(e))),
            value.activation.len < crate::activation_abi::SIZE && old(self).spec_memory().spec_resolve(
                value.activation.memory,
            ) is Ok ==> r is Err,
    {
        let ghost before = *self;
        self.pending_transport = Some(value);
        proof {
            self.lemma_wf_frame(&before);
        }
        assert(self.spec_has_pending_transport());
        let r = self.bind_transport();
        assert(r is Ok ==> r->Ok_0 is Applied || r->Ok_0 is PendingMemory);
        r
    }

    fn cmd_set_format(&mut self, value: NegotiatedAudioFormat) -> (r: Result<ApplyOutcome, SessionError>)
        requires
            old(self).wf(),
            old(self).spec_state() != SessionState::Disconnected,
        ensures
            final(self).wf(),
            final(self).spec_state() != SessionState::Disconnected,
            r != Ok::<ApplyOutcome, SessionError>(ApplyOutcome::AlreadyDisconnected),
            r is Ok ==> final(self).spec_format() == Some(value),
            r is Ok && (old(self).spec_format() matches Some(c) && !same_format(c, value)) ==> final(
                self).spec_buffers() is None && final(self).spec_io() is None && final(self).spec_output() is None,
            (old(self).spec_format() matches Some(c) && !same_format(c, value)) && old(self).spec_transport() is None
                ==> r == Ok::<ApplyOutcome, SessionError>(ApplyOutcome::Applied),
            !(old(self).spec_format() matches Some(c) && !same_format(c, value)) && (old(self).spec_buffers() is None
                || old(self).spec_io() is None) ==> r == Ok::<ApplyOutcome, SessionError>(
                ApplyOutcome::Applied,
            ) && final(self).spec_buffers() == old(self).spec_buffers() && final(self).spec_io() == old(
                self).spec_io(),
    {
        let replacement = match &self.format {
            Some(current) => !current.same_as(&value),
            None => false,
        };
        let ghost before = *self;
        self.format = Some(value);
        proof {
            self.lemma_wf_frame(&before);
        }
        if replacement {
            self.stop()?;
            let ghost stopped = *self;
            self.buffer_descriptor = None;
            self.io_descriptor = None;
            self.output = None;
            proof {
                self.lemma_wf_frame(&stopped);
            }
        }
        self.bind_output()
    }

    /// Leaves scheduling and clears the output with the IO and, as asked,
    /// the buffers and the format.
    fn cmd_clear(&mut self, format: bool, buffers: bool, io: bool) -> (r: Result<ApplyOutcome, SessionError>)
        requires
            old(self).wf(),
            old(self).spec_state() != SessionState::Disconnected,
            io,
            format ==> buffers,
        ensures
            final(self).wf(),
            final(self).spec_state() != SessionState::Disconnected,
            r is Ok ==> r == Ok::<ApplyOutcome, SessionError>(ApplyOutcome::Applied) && final(
                self).spec_output() is None && final(self).spec_io() is None && (buffers ==> final(
                self).spec_buffers() is None) && (!buffers ==> final(self).spec_buffers() == old(
                self).spec_buffers()) && (format ==> final(self).spec_format() is None) && (!format
                ==> final(self).spec_format() == old(self).spec_format()),
            final(self).spec_active() == old(self).spec_active(),
            final(self).spec_command() == old(self).spec_command(),
            old(self).spec_transport() is None ==> r is Ok,
    {
        self.stop()?;
        let ghost stopped = *self;
        self.output = None;
        self.io_descriptor = None;
        if buffers {
            self.buffer_descriptor = None;
        }
        if format {
            self.format = None;
        }
        proof {
            self.lemma_wf_frame(&stopped);
        }
        Ok(ApplyOutcome::Applied)
    }

    fn cmd_use_buffers(&mut self, value: BufferSetDescriptor) -> (r: Result<ApplyOutcome, SessionError>)
        requires
            old(self).wf(),
            old(self).spec_state() != SessionState::Disconnected,
        ensures
            final(self).wf(),
            final(self).spec_state() != SessionState::Disconnected,
            r != Ok::<ApplyOutcome, SessionError>(ApplyOutcome::AlreadyDisconnected),
            r is Ok ==> final(self).spec_buffers() == Some(value),
            r is Err ==> ((old(self).spec_buffers() matches Some(b) && !same_buffer_set(b, value))
                ==> kept_output(*old(self), *final(self))),
            r is Ok && (old(self).spec_buffers() matches Some(b) && !same_buffer_set(b, value))
                ==> final(self).spec_io() is None && final(self).spec_output() is None,
            buffers_unbindable(*old(self), value) ==> r is Err,
            buffers_awaiting_memory(*old(self), value) ==> (r is Ok ==> r == Ok::<ApplyOutcome, SessionError>(
                ApplyOutcome::PendingMemory,
            )) && (old(self).spec_transport() is None ==> r is Ok),
            (old(self).spec_format() is None || old(self).spec_io() is None) && ((old(
                self).spec_buffers() matches Some(b) && !same_buffer_set(b, value)) ==> old(
                self).spec_transport() is None) ==> r == Ok::<ApplyOutcome, SessionError>(
                ApplyOutcome::Applied,
            ),
    {
        let replacement = match &self.buffer_descriptor {
            Some(current) => !current.same_as(&value),
            None => false,
        };
        if replacement {
            let format = match &self.format {
                Some(f) => Some(crate::cycle::clone_format(f)),
                None => None,
            };
            let io = self.io_descriptor;
            let pending = match (format, io) {
                (Some(format), Some(io)) => self.output_candidate(format, &value, io)?.is_none(),
                _ => false,
            };
            self.stop()?;
            let ghost stopped = *self;
            self.output = None;
            self.io_descriptor = None;
            self.buffer_descriptor = Some(value);
            proof {
                self.lemma_wf_frame(&stopped);
            }
            Ok(
                if pending {
                    ApplyOutcome::PendingMemory
                } else {
                    ApplyOutcome::Applied
                },
            )
        } else {
            let ghost before = *self;
            self.buffer_descriptor = Some(value);
            proof {
                self.lemma_wf_frame(&before);
            }
            self.bind_output()
        }
    }

    fn cmd_set_port_io(&mut self, value: PortIoDescriptor) -> (r: Result<ApplyOutcome, SessionError>)
        requires
            old(self).wf(),
            old(self).spec_state() != SessionState::Disconnected,
        ensures
            final(self).wf(),
            final(self).spec_state() != SessionState::Disconnected,
            r != Ok::<ApplyOutcome, SessionError>(ApplyOutcome::AlreadyDisconnected),
            r is Ok ==> final(self).spec_io() == Some(value),
            r is Err ==> kept_output(*old(self), *final(self)),
            old(self).spec_format() is None || old(self).spec_buffers() is None ==> r == Ok::<
                ApplyOutcome,
                SessionError,
            >(ApplyOutcome::Applied) && final(self).spec_output() == old(self).spec_output(),
            r == Ok::<ApplyOutcome, SessionError>(ApplyOutcome::PendingMemory) ==> final(self).spec_output() is None,
    {
        let format = match &self.format {
            Some(f) => Some(crate::cycle::clone_format(f)),
            None => None,
        };
        let buffers = match &self.buffer_descriptor {
            Some(b) => Some(b.clone()),
            None => None,
        };
        match (format, buffers) {
            (Some(format), Some(buffers)) => {
                match self.output_candidate(format, &buffers, value)? {
                    Some(candidate) => {
                        let ghost computed = *self;
                        self.stop()?;
                        let ghost stopped = *self;
                        self.io_descriptor = Some(value);
                        self.output = Some(candidate);
                        proof {
                            self.lemma_output_installed(&stopped, &computed, candidate);
                        }
                        Ok(ApplyOutcome::Applied)
                    },
                    None => {
                        self.stop()?;
                        let ghost stopped = *self;
                        self.io_descriptor = Some(value);
                        self.output = None;
                        proof {
                            self.lemma_wf_frame(&stopped);
                        }
                        Ok(ApplyOutcome::PendingMemory)
                    },
                }
            },
            _ => {
                let ghost before = *self;
                self.io_descriptor = Some(value);
                proof {
                    self.lemma_wf_frame(&before);
                }
                Ok(ApplyOutcome::Applied)
            },
        }
    }

    fn cmd_set_peer(&mut self, value: PeerActivationDescriptor<F>) -> (r: Result<
        ApplyOutcome,
        SessionError,
    >)
        requires
            old(self).wf(),
            old(self).spec_state() != SessionState::Disconnected,
        ensures
            final(self).wf(),
            final(self).spec_state() != SessionState::Disconnected,
            r != Ok::<ApplyOutcome, SessionError>(ApplyOutcome::AlreadyDisconnected),
            !old(self).has_pending_peer(value.node) && !old(self).spec_peer_set().has_node(value.node)
                && old(self).spec_pending_peers().len() + old(self).spec_peers().len()
                >= MAX_SESSION_PEERS ==> r == Err::<ApplyOutcome, SessionError>(
                SessionError::TooManyDescriptors("peer activations"),
            ),
            r == Ok::<ApplyOutcome, SessionError>(ApplyOutcome::Applied) ==> final(self).spec_peer_set().has_node(value.node)
                && final(self).spec_peer_set().binds(value.node, value.activation),
            r == Ok::<ApplyOutcome, SessionError>(ApplyOutcome::PendingMemory) ==> final(self).has_pending_peer(value.node),
    {
        let node = value.node;
        let pending_count = self.pending_peers.len();
        let peer_count = self.peers.len();
        if self.pending_index(node).is_none() && !self.peers.contains(node) && (pending_count
            >= MAX_SESSION_PEERS || peer_count >= MAX_SESSION_PEERS - pending_count) {
            return Err(SessionError::TooManyDescriptors("peer activations"));
        }
        self.insert_pending(value);
        let ghost listed = self.spec_pending_peers();
        let r = self.bind_peer(node);
        proof {
            if r == Ok::<ApplyOutcome, SessionError>(ApplyOutcome::Applied) {
                let k = choose|k: int|
                    0 <= k < listed.len() && (#[trigger] listed[k]).node == node
                        && self.spec_peer_set().binds(node, listed[k].activation);
                let j = choose|j: int| 0 <= j < listed.len() && listed[j] == value;
                if j < k {
                    assert(listed[j].node.0 < listed[k].node.0);
                } else if k < j {
                    assert(listed[k].node.0 < listed[j].node.0);
                }
            }
        }
        r
    }

    fn cmd_remove_peer(&mut self, node: NodeId) -> (r: Result<ApplyOutcome, SessionError>)
        requires
            old(self).wf(),
            old(self).spec_state() != SessionState::Disconnected,
        ensures
            final(self).wf(),
            final(self).spec_state() != SessionState::Disconnected,
            r == Ok::<ApplyOutcome, SessionError>(ApplyOutcome::Applied),
            !final(self).spec_peer_set().has_node(node) && !final(self).has_pending_peer(node),
    {
        self.remove_pending(node);
        let ghost kept = *self;
        let _ = self.peers.remove(node);
        proof {
            self.lemma_peers_subset(&kept);
            assert(!self.has_pending_peer(node));
        }
        Ok(ApplyOutcome::Applied)
    }

    fn cmd_set_active(&mut self, active: bool) -> (r: Result<ApplyOutcome, SessionError>)
        requires
            old(self).wf(),
            old(self).spec_state() != SessionState::Disconnected,
        ensures
            final(self).wf(),
            final(self).spec_state() != SessionState::Disconnected,
            r is Ok ==> r == Ok::<ApplyOutcome, SessionError>(ApplyOutcome::Applied) && final(
                self).spec_active() == active,
            !active && old(self).spec_transport() is None ==> r is Ok,
            active && old(self).spec_command() != NodeCommandState::Start ==> r is Ok,
            active && old(self).spec_command() == NodeCommandState::Start && !old(self).spec_ready()
                ==> r == Err::<ApplyOutcome, SessionError>(
                SessionError::NotReady("Start has unresolved configuration"),
            ),
    {
        let ghost before = *self;
        self.active_requested = active;
        proof {
            self.lemma_wf_frame(&before);
        }
        if active {
            self.ensure_running()?;
        } else {
            self.stop()?;
        }
        Ok(ApplyOutcome::Applied)
    }

    fn cmd_set_node_command(&mut self, command: NodeCommandState) -> (r: Result<
        ApplyOutcome,
        SessionError,
    >)
        requires
            old(self).wf(),
            old(self).spec_state() != SessionState::Disconnected,
        ensures
            final(self).wf(),
            final(self).spec_state() != SessionState::Disconnected,
            r is Ok ==> r == Ok::<ApplyOutcome, SessionError>(ApplyOutcome::Applied) && final(
                self).spec_command() == command && (command == NodeCommandState::Suspend ==> final(
                self).spec_format() is None && final(self).spec_buffers() is None && final(
                self).spec_io() is None && final(self).spec_output() is None),
            command == NodeCommandState::Start && !old(self).spec_active() ==> r is Ok,
            command == NodeCommandState::Start && old(self).spec_active() && !old(self).spec_ready()
                ==> r == Err::<ApplyOutcome, SessionError>(
                SessionError::NotReady("Start has unresolved configuration"),
            ),
            command != NodeCommandState::Start && old(self).spec_transport() is None ==> r is Ok,
    {
        let ghost before = *self;
        self.command = command;
        proof {
            self.lemma_wf_frame(&before);
        }
        match command {
            NodeCommandState::Start => {
                self.ensure_running()?;
            },
            NodeCommandState::Pause => {
                self.stop()?;
            },
            NodeCommandState::Suspend => {
                self.cmd_clear(true, true, true)?;
            },
        }
        Ok(ApplyOutcome::Applied)
    }

    fn cmd_disconnect(&mut self) -> (r: Result<ApplyOutcome, SessionError>)
        requires
            old(self).wf(),
            old(self).spec_state() != SessionState::Disconnected,
        ensures
            final(self).wf(),
            final(self).spec_state() == SessionState::Disconnected,
            r == Ok::<ApplyOutcome, SessionError>(ApplyOutcome::Applied),
    {
        let _ = self.stop();
        self.pending_peers = Vec::new();
        self.peers = PeerSet::new();
        self.output = None;
        self.io_descriptor = None;
        self.buffer_descriptor = None;
        self.format = None;
        self.pending_transport = None;
        self.transport = None;
        self.state = SessionState::Disconnected;
        proof {
            assert(self.spec_peers().len() == 0);
            assert(self.separated());
        }
        Ok(ApplyOutcome::Applied)
    }

    /// Installing an output whose intervals avoid the transport and the
    /// peers keeps the invariant.
    proof fn lemma_output_installed(&self, stopped: &Self, computed: &Self, c: OutputGeneration)
        requires
            stopped.wf(),
            stopped.same_config(computed),
            c.wf(),
            c.spec_id() < computed.spec_next_generation(),
            disjoint_from(
                c.spec_intervals(),
                transport_intervals(computed.spec_transport()) + peer_intervals(computed.spec_peers()),
            ),
            self.output == Some(c),
            self.format is Some && self.buffer_descriptor is Some && self.io_descriptor is Some,
            self.memory == stopped.memory,
            self.next_generation == stopped.next_generation,
            self.transport == stopped.transport,
            self.pending_transport == stopped.pending_transport,
            self.peers == stopped.peers,
            self.pending_peers == stopped.pending_peers,
            self.state == stopped.state,
            self.state != SessionState::Running,
            self.state != SessionState::Disconnected,
        ensures
            self.wf(),
    {
        let ex = transport_intervals(computed.spec_transport()) + peer_intervals(computed.spec_peers());
        assert(self.spec_peers() == computed.spec_peers());
        assert(self.spec_peers() == stopped.spec_peers());
        assert(self.spec_transport() == stopped.spec_transport());
        assert forall|i: int, k: int|
            0 <= i < c.spec_intervals().len() && 0 <= k < self.spec_peers().len() implies !(
            #[trigger] c.spec_intervals()[i]).spec_overlaps(
            (#[trigger] self.spec_peers()[k]).spec_interval()) by {
            assert(ex[transport_intervals(computed.spec_transport()).len() + k]
                == self.spec_peers()[k].spec_interval());
        }
        if self.spec_transport() is Some {
            let t = self.spec_transport()->Some_0;
            assert(t.spec_interval() == computed.spec_transport()->Some_0.spec_interval());
            assert forall|i: int| 0 <= i < c.spec_intervals().len() implies !t.spec_interval().spec_overlaps(
                #[trigger] c.spec_intervals()[i]) by {
                assert(ex[0] == t.spec_interval());
                assert(!c.spec_intervals()[i].spec_overlaps(ex[0]));
            }
        }
        assert(self.separated());
    }

    /// Handles one wake tagged with transport `generation`. `drain` is what
    /// reading the trigger eventfd gave (an OS error number on failure); it
    /// is consulted only for the current generation. A running session
    /// claims the TRIGGERED cycle, runs the callback on it, publishes the
    /// result with `finish_time()` and propagates to the peers; any failure
    /// after the claim leaves the session Failed.
    pub fn on_wake_with_finish<P: OutputProcess, C: FnOnce() -> u64>(
        &mut self,
        generation: u64,
        drain: Result<u64, i32>,
        awake_ns: u64,
        finish_time: C,
        callback: &mut P,
    ) -> (r: Result<WakeOutcome, SessionError>)
        requires
            old(self).wf(),
            call_requires(finish_time, ()),
        ensures
            final(self).wf(),
            old(self).spec_transport() is None ==> r == Err::<WakeOutcome, SessionError>(
                SessionError::NotReady("transport"),
            ) && *final(self) == *old(self),
            old(self).spec_transport() matches Some(t) ==> wake_effect(
                t.spec_id(),
                generation,
                drain,
                old(self).spec_state(),
                final(self).spec_state(),
                r,
            ),
            old(self).spec_transport() matches Some(t) && (generation != t.spec_id() || drain is Err
                || old(self).spec_state() != SessionState::Running) ==> *final(self) == *old(self),
            r matches Ok(WakeOutcome::Processed { .. }) ==> propagated(
                old(self).spec_peers(),
                final(self).spec_peer_signals(),
                Ok(()),
            ),
            r matches Ok(WakeOutcome::Processed { produced, .. }) ==> (old(self).spec_output() matches Some(o)
                && final(self).spec_last_wake() matches Some(w) && w.output matches Some(s) && output_published(
                o,
                s,
                produced,
            )),
            r matches Ok(WakeOutcome::Processed { .. }) ==> (final(self).spec_last_wake() matches Some(w)
                && triggered_all(old(self).spec_peers(), w.peers@, w.finish_ns, final(self).spec_peer_signals(), Ok(()))),
            old(self).spec_transport() matches Some(t) ==> claim_effect(t, old(self).spec_output(), r),
            r matches Ok(w) && !(w is Processed) ==> *final(callback) == *old(callback),
            r is Err && !(old(self).spec_transport() matches Some(t) && generation == t.spec_id() && drain is Ok
                && old(self).spec_state() == SessionState::Running) ==> *final(callback) == *old(callback),
            old(self).spec_transport() matches Some(t) ==> (generation == t.spec_id() && drain is Ok && old(
                self,
            ).spec_state() == SessionState::Running ==> (final(self).spec_last_wake() matches Some(w) && wake_record(
                t,
                awake_ns,
                w,
                r,
            ) && (w.finish is Some ==> call_ensures(finish_time, (), w.finish_ns)))),
            old(self).spec_transport() matches Some(t) ==> (generation == t.spec_id() && drain is Ok && old(
                self,
            ).spec_state() == SessionState::Running && r is Err ==> (final(self).spec_last_failure() matches Some(
                d,
            ) && deactivated(t, d))),
    {
        let expected = match &self.transport {
            None => {
                return Err(SessionError::NotReady("transport"));
            },
            Some(t) => t.id(),
        };
        if generation != expected {
            return Ok(WakeOutcome::Stale { expected, received: generation });
        }
        let drained = match drain {
            Ok(v) => v,
            Err(e) => {
                if e == EAGAIN {
                    return Ok(WakeOutcome::NoWake);
                }
                return Err(SessionError::Signal(e));
            },
        };
        if self.state != SessionState::Running {
            return Ok(WakeOutcome::NotRunning { drained });
        }
        let missed = if drained > 0 {
            drained - 1
        } else {
            0
        };
        let ghost before = *self;
        let (claimed, claim_step) = self.transport.as_ref().unwrap().claim_cycle(&self.memory, awake_ns);
        let claim = match claimed {
            Err(e) => {
                self.last_wake = Some(
                    WakeRecord {
                        claim: claim_step,
                        output: None,
                        process_status: 0,
                        finish_ns: 0,
                        finish: None,
                        peers: Vec::new(),
                    },
                );
                proof {
                    self.lemma_wf_frame(&before);
                }
                self.fail();
                return Err(e);
            },
            Ok(None) => {
                self.last_wake = Some(
                    WakeRecord {
                        claim: claim_step,
                        output: None,
                        process_status: 0,
                        finish_ns: 0,
                        finish: None,
                        peers: Vec::new(),
                    },
                );
                proof {
                    self.lemma_wf_frame(&before);
                }
                return Ok(WakeOutcome::NotClaimed { drained, missed });
            },
            Ok(Some(c)) => c,
        };
        let (processed, output_step) = self.output.as_ref().unwrap().process(&self.memory, callback);
        let status = match &processed {
            Ok((_, s)) => *s,
            Err(_) => PROCESS_FAILED,
        };
        let finish_ns = finish_time();
        let (finished, finish_step) = self.transport.as_ref().unwrap().finish_cycle(&self.memory, claim, status, finish_ns);
        let mut record = WakeRecord {
            claim: claim_step,
            output: Some(output_step),
            process_status: status,
            finish_ns,
            finish: Some(finish_step),
            peers: Vec::new(),
        };
        if let Err(e) = finished {
            self.last_wake = Some(record);
            proof {
                self.lemma_wf_frame(&before);
            }
            self.fail();
            return Err(e);
        }
        match processed {
            Err(e) => {
                self.last_wake = Some(record);
                proof {
                    self.lemma_wf_frame(&before);
                }
                self.fail();
                Err(e)
            },
            Ok((published, _)) => {
                let (signals, result, peer_steps) = self.peers.trigger_all(&self.memory, finish_ns);
                record.peers = peer_steps;
                self.last_wake = Some(record);
                self.peer_signals = signals;
                proof {
                    self.lemma_wf_frame(&before);
                }
                match result {
                    Ok(()) => Ok(
                        WakeOutcome::Processed { drained, missed, produced: published.is_some() },
                    ),
                    Err(e) => {
                        self.fail();
                        Err(e)
                    },
                }
            },
        }
    }

    /// Handles one wake whose cycle finishes when the callback returns.
    pub fn on_wake<P: OutputProcess>(
        &mut self,
        generation: u64,
        drain: Result<u64, i32>,
        now_ns: u64,
        callback: &mut P,
    ) -> (r: Result<WakeOutcome, SessionError>)
        requires
            old(self).wf(),
        ensures
            final(self).wf(),
            old(self).spec_transport() is None ==> r == Err::<WakeOutcome, SessionError>(
                SessionError::NotReady("transport"),
            ) && *final(self) == *old(self),
            old(self).spec_transport() matches Some(t) ==> wake_effect(
                t.spec_id(),
                generation,
                drain,
                old(self).spec_state(),
                final(self).spec_state(),
                r,
            ),
            r matches Ok(WakeOutcome::Processed { .. }) ==> propagated(
                old(self).spec_peers(),
                final(self).spec_peer_signals(),
                Ok(()),
            ),
            r matches Ok(WakeOutcome::Processed { produced, .. }) ==> (old(self).spec_output() matches Some(o)
                && final(self).spec_last_wake() matches Some(w) && w.output matches Some(s) && output_published(
                o,
                s,
                produced,
            )),
            r matches Ok(WakeOutcome::Processed { .. }) ==> (final(self).spec_last_wake() matches Some(w)
                && triggered_all(old(self).spec_peers(), w.peers@, w.finish_ns, final(self).spec_peer_signals(), Ok(()))),
            old(self).spec_transport() matches Some(t) ==> claim_effect(t, old(self).spec_output(), r),
            r matches Ok(w) && !(w is Processed) ==> *final(callback) == *old(callback),
            r is Err && !(old(self).spec_transport() matches Some(t) && generation == t.spec_id() && drain is Ok
                && old(self).spec_state() == SessionState::Running) ==> *final(callback) == *old(callback),
            old(self).spec_transport() matches Some(t) ==> (generation == t.spec_id() && drain is Ok && old(
                self,
            ).spec_state() == SessionState::Running ==> (final(self).spec_last_wake() matches Some(w) && wake_record(
                t,
                now_ns,
                w,
                r,
            ) && (w.finish is Some ==> w.finish_ns == now_ns))),
            old(self).spec_transport() matches Some(t) ==> (generation == t.spec_id() && drain is Ok && old(
                self,
            ).spec_state() == SessionState::Running && r is Err ==> (final(self).spec_last_failure() matches Some(
                d,
            ) && deactivated(t, d))),
    {
        let clock = || -> (t: u64)
            ensures
                t == now_ns,
            { now_ns };
        self.on_wake_with_finish(generation, drain, now_ns, clock, callback)
    }
}

/// Writable mappings never alias: in every well-formed session, the own
/// activation, the output's IO, metadata and media ranges and each peer's
/// activation are pairwise disjoint intervals of their backing objects.
pub proof fn law_bound_mappings_disjoint<R: MemoryResolver, F>(s: &ClientNodeSession<R, F>)
    requires
        s.wf(),
    ensures
        crate::output::pairwise_disjoint(
            transport_intervals(s.spec_transport()) + output_intervals(s.spec_output())
                + peer_intervals(s.spec_peers()),
        ),
{
    let t = transport_intervals(s.spec_transport());
    let o = output_intervals(s.spec_output());
    let p = peer_intervals(s.spec_peers());
    let all = t + o + p;
    assert forall|i: int, j: int| 0 <= i < j < all.len() implies !(#[trigger] all[i]).spec_overlaps(
        #[trigger] all[j]) by {
        if i < t.len() {
            let tr = s.spec_transport()->Some_0;
            if j < t.len() + o.len() {
                assert(all[j] == o[j - t.len()]);
            } else {
                assert(all[j] == p[j - t.len() - o.len()]);
                assert(p[j - t.len() - o.len()] == s.spec_peers()[j - t.len() - o.len()].spec_interval());
            }
        } else if i < t.len() + o.len() {
            let out = s.spec_output()->Some_0;
            assert(all[i] == o[i - t.len()]);
            if j < t.len() + o.len() {
                assert(all[j] == o[j - t.len()]);
            } else {
                assert(all[j] == p[j - t.len() - o.len()]);
                assert(p[j - t.len() - o.len()] == s.spec_peers()[j - t.len() - o.len()].spec_interval());
            }
        } else {
            assert(all[i] == p[i - t.len() - o.len()]);
            assert(all[j] == p[j - t.len() - o.len()]);
            assert(p[i - t.len() - o.len()] == s.spec_peers()[i - t.len() - o.len()].spec_interval());
            assert(p[j - t.len() - o.len()] == s.spec_peers()[j - t.len() - o.len()].spec_interval());
        }
    }
}

/// A running session is fully bound: its own activation, its format and
/// its output generation are all in place.
pub proof fn law_running_is_bound<R: MemoryResolver, F>(s: &ClientNodeSession<R, F>)
    requires
        s.wf(),
        s.spec_state() == SessionState::Running,
    ensures
        s.spec_transport() is Some,
        s.spec_format() is Some,
        s.spec_output() is Some,
{
}

/// A disconnected session holds nothing: no transport, configuration,
/// output, peers or pending work.
pub proof fn law_disconnect_is_terminal<R: MemoryResolver, F>(s: &ClientNodeSession<R, F>)
    requires
        s.wf(),
        s.spec_state() == SessionState::Disconnected,
    ensures
        s.cleared(),
{
}

} // verus!
