use std::cell::RefCell;
use std::collections::HashMap;
use std::rc::Rc;

use pipewire_native::activation::{ActivationStatus, ActivationView};
use pipewire_native::config::{
    BufferDescriptor, BufferSetDescriptor, MemoryId, MetaDescriptor, NegotiatedAudioFormat, NodeId,
    PeerActivationDescriptor, PortId, PortIoDescriptor, RegionRef, TransportDescriptor,
    DATA_TYPE_MEM_FD,
};
use pipewire_native::cycle::{OutputBufferPublisher, OutputCycle, PublishedOutput};
use pipewire_native::error::SessionError;
use pipewire_native::memory::{
    BackingIdentity, Inspection, MemoryError, MemoryKey, MemoryMapping, MemoryPool,
    MemoryResolver, ShrinkPolicy,
};
use pipewire_native::output::{OutputGeneration, OutputProcess, ProcessError};
use pipewire_native::owner::{
    ApplyOutcome, ClientNodeSession, NodeCommandState, SessionCommand, SessionState, WakeOutcome,
};
use pipewire_native::peer::{PeerActivation, PeerSet};
use pipewire_native::port::{BuffersIoView, ChunkState, ChunkView};
use pipewire_native::transport::TransportGeneration;
use pipewire_native::wire::{BufferStatus, PortIoType};

const ACTIVATION_SIZE: usize = 2312;

struct Shared {
    pool: MemoryPool,
    images: HashMap<u64, Vec<u8>>,
    next_inode: u64,
}

/// A resolver over a real pool whose imports are byte images, each mapped
/// at an address derived from its backing object.
#[derive(Clone)]
struct FakeResolver(Rc<RefCell<Shared>>);

impl FakeResolver {
    fn new() -> Self {
        FakeResolver(Rc::new(RefCell::new(Shared {
            pool: MemoryPool::new(ShrinkPolicy::RequireSealed),
            images: HashMap::new(),
            next_inode: 1,
        })))
    }

    fn import(&self, ids: &[u32], len: usize) -> Vec<MemoryKey> {
        let mut shared = self.0.borrow_mut();
        let inode = shared.next_inode;
        shared.next_inode += 1;
        shared.images.insert(inode, vec![0; len]);
        let inspection = Inspection {
            file_len: len,
            backing: BackingIdentity { device: 1, inode },
            sealed: true,
        };
        ids.iter()
            .map(|id| {
                shared
                    .pool
                    .add(MemoryId(*id), DATA_TYPE_MEM_FD, 0, Ok(inspection))
                    .unwrap()
            })
            .collect()
    }

    fn add(&self, id: u32, len: usize) -> MemoryKey {
        self.import(&[id], len)[0]
    }

    fn add_aliases(&self, ids: &[u32], len: usize) -> Vec<MemoryKey> {
        self.import(ids, len)
    }

    fn remove(&self, id: MemoryId) -> MemoryKey {
        self.0.borrow_mut().pool.remove(id).unwrap()
    }

    fn inode(&self, key: MemoryKey) -> u64 {
        self.0.borrow().pool.map(key, 0, 1, true).unwrap().backing.inode
    }

    fn bytes(&self, key: MemoryKey, len: usize) -> Vec<u8> {
        let inode = self.inode(key);
        self.0.borrow().images[&inode][..len].to_vec()
    }

    fn store(&self, key: MemoryKey, offset: usize, bytes: &[u8]) {
        let inode = self.inode(key);
        self.0.borrow_mut().images.get_mut(&inode).unwrap()[offset..offset + bytes.len()]
            .copy_from_slice(bytes);
    }
}

impl MemoryResolver for FakeResolver {
    fn resolve(&self, id: MemoryId) -> Result<MemoryKey, MemoryError> {
        self.0.borrow().pool.resolve(id)
    }

    /// Resolution is the pool's answer for the id in its current state.
    fn spec_resolve(&self, id: MemoryId) -> Result<MemoryKey, MemoryError> {
        self.resolve(id)
    }

    /// The backing the pool records for the live generation `key`.
    fn spec_backing(&self, key: MemoryKey) -> BackingIdentity {
        self.0.borrow().pool.backing(key).unwrap_or(BackingIdentity { device: 0, inode: 0 })
    }

    fn map(
        &self,
        key: MemoryKey,
        offset: usize,
        len: usize,
        writable: bool,
    ) -> Result<MemoryMapping, MemoryError> {
        let range = self.0.borrow().pool.map(key, offset, len, writable)?;
        Ok(MemoryMapping { range, address: 0x10000 * range.backing.inode as usize + offset })
    }

    fn read(&self, mapping: &MemoryMapping) -> Vec<u8> {
        let shared = self.0.borrow();
        let image = &shared.images[&mapping.range.backing.inode];
        image[mapping.range.offset..mapping.range.offset + mapping.range.len].to_vec()
    }

    fn write(&self, mapping: &MemoryMapping, offset: usize, bytes: &[u8]) {
        let mut shared = self.0.borrow_mut();
        let image = shared.images.get_mut(&mapping.range.backing.inode).unwrap();
        let start = mapping.range.offset + offset;
        image[start..start + bytes.len()].copy_from_slice(bytes);
    }
}

fn initialize_activation(
    resolver: &FakeResolver,
    id: u32,
    status: ActivationStatus,
    required: i32,
) -> MemoryKey {
    let key = resolver.add(id, ActivationView::required_size());
    resolver.store(key, 0, &status.as_u32().to_le_bytes());
    resolver.store(key, 12, &required.to_le_bytes());
    resolver.store(key, 16, &required.to_le_bytes());
    resolver.store(key, 544, &1_u32.to_le_bytes());
    key
}

fn activation(resolver: &FakeResolver, key: MemoryKey) -> ActivationView {
    ActivationView::from_raw_parts(8, resolver.bytes(key, ACTIVATION_SIZE)).unwrap()
}

fn set_status(resolver: &FakeResolver, key: MemoryKey, status: ActivationStatus) {
    resolver.store(key, 0, &status.as_u32().to_le_bytes());
}

fn transport(activation: MemoryId, trigger: i32) -> TransportDescriptor<i32> {
    TransportDescriptor {
        trigger_fd: trigger,
        completion_fd: trigger + 1,
        activation: RegionRef { memory: activation, offset: 0, len: ACTIVATION_SIZE },
    }
}

fn output_descriptors() -> (BufferSetDescriptor, PortIoDescriptor) {
    (
        BufferSetDescriptor {
            port: PortId(0),
            buffers: vec![BufferDescriptor {
                metadata: RegionRef { memory: MemoryId(2), offset: 0, len: 16 },
                metas: Vec::<MetaDescriptor>::new(),
                media_memory: MemoryId(3),
                map_offset: 0,
                max_size: 64,
            }],
        },
        PortIoDescriptor {
            port: PortId(0),
            region: RegionRef { memory: MemoryId(4), offset: 0, len: 8 },
        },
    )
}

fn io_state(resolver: &FakeResolver, key: MemoryKey) -> (i32, u32) {
    let view = BuffersIoView::from_raw_parts(PortIoType::Buffers, 8, resolver.bytes(key, 8)).unwrap();
    let state = view.state();
    (state.status, state.buffer_id)
}

fn chunk_state(resolver: &FakeResolver, key: MemoryKey) -> ChunkState {
    ChunkView::from_raw_parts(8, resolver.bytes(key, 16)).unwrap().state()
}

fn pcm() -> NegotiatedAudioFormat {
    NegotiatedAudioFormat::pcm_s16le(48_000, 2).unwrap()
}

struct PatternProcess {
    calls: usize,
}

impl OutputProcess for PatternProcess {
    fn process(
        &mut self,
        cycle: OutputCycle,
        output: &mut OutputBufferPublisher,
    ) -> Result<PublishedOutput, ProcessError> {
        self.calls += 1;
        assert_eq!(cycle.frame_capacity(), 16);
        cycle.write_media(output, 0, &[0, 1, 2, 3, 4, 5, 6, 7, 8, 9, 10, 11, 12, 13, 14, 15]);
        cycle
            .commit(output, 4)
            .map_err(|error| ProcessError { message: format!("{error:?}") })
    }
}

struct CommitThenFail;

impl OutputProcess for CommitThenFail {
    fn process(
        &mut self,
        cycle: OutputCycle,
        output: &mut OutputBufferPublisher,
    ) -> Result<PublishedOutput, ProcessError> {
        let committed = cycle.commit(output, 1).unwrap();
        let _ = committed;
        Err(ProcessError { message: "callback error after commit".into() })
    }
}

#[test]
fn processes_exact_cycle_signals_peer_and_ignores_coalesced_stale_wake() {
    let resolver = FakeResolver::new();
    let own_key = initialize_activation(&resolver, 1, ActivationStatus::Inactive, 0);
    let metadata_key = resolver.add(2, 16);
    let media_key = resolver.add(3, 64);
    let io_key = resolver.add(4, 8);
    let peer_key = initialize_activation(&resolver, 5, ActivationStatus::NotTriggered, 1);
    resolver.store(io_key, 0, &BufferStatus::NeedData.as_i32().to_le_bytes());
    resolver.store(io_key, 4, &0_u32.to_le_bytes());

    let mut session = ClientNodeSession::new(resolver.clone());
    session.apply(SessionCommand::ReplaceTransport(transport(MemoryId(1), 10))).unwrap();
    let generation = session.transport_generation().unwrap();
    assert_eq!(*session.transport().unwrap().trigger_fd(), 10);
    // The client's activation ABI version is published on binding.
    assert_eq!(&resolver.bytes(own_key, ACTIVATION_SIZE)[540..544], &1_u32.to_le_bytes());
    let (buffers, io) = output_descriptors();

    // IO and buffers may precede format and still converge.
    session.apply(SessionCommand::SetPortIo(io)).unwrap();
    session.apply(SessionCommand::UseBuffers(buffers)).unwrap();
    session.apply(SessionCommand::SetFormat(pcm())).unwrap();
    session
        .apply(SessionCommand::SetPeerActivation(PeerActivationDescriptor {
            node: NodeId(9),
            signal_fd: 20,
            activation: RegionRef { memory: MemoryId(5), offset: 0, len: ACTIVATION_SIZE },
        }))
        .unwrap();
    session.apply(SessionCommand::SetActive(true)).unwrap();
    session.apply(SessionCommand::SetNodeCommand(NodeCommandState::Start)).unwrap();
    assert_eq!(session.state(), SessionState::Running);
    assert_eq!(session.wake_registration(), Some(generation));

    session.apply(SessionCommand::SetActive(false)).unwrap();
    assert_eq!(session.wake_registration(), None);
    assert_eq!(activation(&resolver, own_key).status().unwrap(), ActivationStatus::Inactive);
    session.apply(SessionCommand::SetActive(true)).unwrap();
    assert_eq!(session.state(), SessionState::Running);

    assert_eq!(activation(&resolver, own_key).status().unwrap(), ActivationStatus::Finished);
    set_status(&resolver, own_key, ActivationStatus::Triggered);
    let mut process = PatternProcess { calls: 0 };
    assert_eq!(
        session.on_wake_with_finish(generation, Ok(3), 77, || 91, &mut process).unwrap(),
        WakeOutcome::Processed { drained: 3, missed: 2, produced: true }
    );
    assert_eq!(process.calls, 1);
    let record = session.last_wake().as_ref().unwrap();
    assert_eq!(record.claim.writes.len(), 2);
    assert_eq!(record.claim.writes[1].bytes, 77u64.to_le_bytes().to_vec());
    assert_eq!(record.process_status, 2);
    assert_eq!(record.finish_ns, 91);
    assert_eq!(record.finish.as_ref().unwrap().writes.len(), 3);
    assert_eq!(record.peers.len(), 1);
    assert_eq!(record.peers[0].writes.len(), 3);
    let output = record.output.as_ref().unwrap();
    assert_eq!(output.io_image.len(), 8);
    assert_eq!(output.stores.len(), 3);
    assert_eq!(output.stores[0].bytes.len(), 16);
    assert_eq!(output.stores[1].offset, 0);
    assert_eq!(output.stores[2].offset, 0);
    assert_eq!(output.stores[2].bytes[..4].to_vec(), 2i32.to_le_bytes().to_vec());

    let own = activation(&resolver, own_key);
    assert_eq!(own.awake_time(), 77);
    assert_eq!(own.finish_time(), 91);
    assert_eq!(own.status().unwrap(), ActivationStatus::Finished);

    assert_eq!(
        &resolver.bytes(media_key, 64)[..16],
        &[0, 1, 2, 3, 4, 5, 6, 7, 8, 9, 10, 11, 12, 13, 14, 15]
    );
    assert_eq!(
        chunk_state(&resolver, metadata_key),
        ChunkState { offset: 0, size: 16, stride: 4, flags: 0 }
    );
    assert_eq!(io_state(&resolver, io_key).0, BufferStatus::HaveData.as_i32());
    assert_eq!(session.take_peer_signals(), vec![NodeId(9)]);
    assert!(session.take_peer_signals().is_empty());
    let peer = activation(&resolver, peer_key);
    assert_eq!(peer.pending(), 0);
    assert_eq!(peer.status().unwrap(), ActivationStatus::Triggered);
    assert_eq!(peer.signal_time(), 91);

    assert_eq!(
        session.on_wake(generation, Ok(2), 88, &mut process).unwrap(),
        WakeOutcome::NotClaimed { drained: 2, missed: 1 }
    );
    assert_eq!(process.calls, 1);
    assert_eq!(
        session.on_wake(generation + 1, Ok(1), 99, &mut process).unwrap(),
        WakeOutcome::Stale { expected: generation, received: generation + 1 }
    );

    let retired_media = resolver.remove(MemoryId(3));
    session.apply(SessionCommand::RemoveMemory(retired_media)).unwrap();
    assert_eq!(session.state(), SessionState::Configuring);
    assert_eq!(resolver.0.borrow().images[&3][0], 0);

    session.apply(SessionCommand::Disconnect).unwrap();
    assert_eq!(
        session.apply(SessionCommand::Disconnect).unwrap(),
        ApplyOutcome::AlreadyDisconnected
    );
    assert!(session.transport().is_none());
}

#[test]
fn retains_unresolved_transport_and_preserves_old_generation_on_bad_replacement() {
    let resolver = FakeResolver::new();
    let mut session = ClientNodeSession::new(resolver.clone());
    assert_eq!(
        session.apply(SessionCommand::ReplaceTransport(transport(MemoryId(10), 10))).unwrap(),
        ApplyOutcome::PendingMemory
    );
    assert!(session.transport_generation().is_none());
    session.apply(SessionCommand::SetActive(true)).unwrap();
    assert!(matches!(
        session.apply(SessionCommand::SetNodeCommand(NodeCommandState::Start)),
        Err(SessionError::NotReady(_))
    ));
    initialize_activation(&resolver, 10, ActivationStatus::Inactive, 0);
    session.apply(SessionCommand::MemoryAvailable(MemoryId(10))).unwrap();
    let old = session.transport_generation().unwrap();

    let resolver_bad_key = resolver.add(11, 8);
    let bad = TransportDescriptor {
        activation: RegionRef { memory: resolver_bad_key.id, offset: 0, len: 8 },
        ..transport(MemoryId(11), 12)
    };
    assert!(session.apply(SessionCommand::ReplaceTransport(bad)).is_err());
    assert_eq!(session.transport_generation(), Some(old));
}

#[test]
fn duplicated_memfd_ids_cannot_alias_output_or_transport_regions() {
    let resolver = FakeResolver::new();
    let keys = resolver.add_aliases(&[1, 2, 3, 4], 4096);
    resolver.store(keys[0], 0, &ActivationStatus::Inactive.as_u32().to_le_bytes());
    resolver.store(keys[0], 544, &1_u32.to_le_bytes());
    let mut session = ClientNodeSession::new(resolver.clone());
    session.apply(SessionCommand::ReplaceTransport(transport(MemoryId(1), 10))).unwrap();
    session.apply(SessionCommand::SetFormat(pcm())).unwrap();
    let buffers = BufferSetDescriptor {
        port: PortId(0),
        buffers: vec![BufferDescriptor {
            metadata: RegionRef { memory: MemoryId(2), offset: 3000, len: 16 },
            metas: Vec::new(),
            media_memory: MemoryId(3),
            map_offset: 0,
            max_size: 64,
        }],
    };
    session.apply(SessionCommand::UseBuffers(buffers)).unwrap();
    let io = PortIoDescriptor {
        port: PortId(0),
        region: RegionRef { memory: MemoryId(4), offset: 3500, len: 8 },
    };
    assert!(matches!(
        session.apply(SessionCommand::SetPortIo(io)),
        Err(SessionError::InvalidTransition("overlapping generation mappings"))
    ));

    let (mut buffers, io) = output_descriptors();
    buffers.buffers[0].metadata.memory = MemoryId(2);
    buffers.buffers[0].media_memory = MemoryId(3);
    let io = PortIoDescriptor { region: RegionRef { memory: MemoryId(4), offset: 8, len: 8 }, ..io };
    assert!(matches!(
        OutputGeneration::bind(99, pcm(), &buffers, io, &resolver),
        Err(SessionError::InvalidTransition("overlapping writable memory regions"))
    ));
}

#[test]
fn duplicated_handles_reject_every_writable_plane_pair() {
    let resolver = FakeResolver::new();
    let keys = resolver.add_aliases(&[40, 41, 42, 43, 44], 4096);
    let mappings: Vec<MemoryMapping> =
        keys.into_iter().map(|key| resolver.map(key, 0, 64, true).unwrap()).collect();
    let planes = ["transport", "metadata/chunk", "media", "IO", "peer"];
    for left in 0..planes.len() {
        for right in left + 1..planes.len() {
            assert!(
                mappings[left].interval().overlaps(mappings[right].interval()),
                "{} unexpectedly aliased {}",
                planes[left],
                planes[right]
            );
        }
    }
}

fn running_session(
    resolver: &FakeResolver,
) -> (ClientNodeSession<FakeResolver, i32>, MemoryKey, MemoryKey, MemoryKey, u64) {
    let own_key = initialize_activation(resolver, 1, ActivationStatus::Inactive, 0);
    let metadata_key = resolver.add(2, 16);
    resolver.add(3, 64);
    let io_key = resolver.add(4, 8);
    resolver.store(io_key, 0, &BufferStatus::NeedData.as_i32().to_le_bytes());
    let mut session = ClientNodeSession::new(resolver.clone());
    session.apply(SessionCommand::ReplaceTransport(transport(MemoryId(1), 10))).unwrap();
    let generation = session.transport_generation().unwrap();
    let (buffers, io) = output_descriptors();
    session.apply(SessionCommand::UseBuffers(buffers)).unwrap();
    session.apply(SessionCommand::SetPortIo(io)).unwrap();
    session.apply(SessionCommand::SetFormat(pcm())).unwrap();
    session.apply(SessionCommand::SetActive(true)).unwrap();
    session.apply(SessionCommand::SetNodeCommand(NodeCommandState::Start)).unwrap();
    set_status(resolver, own_key, ActivationStatus::Triggered);
    (session, own_key, metadata_key, io_key, generation)
}

#[test]
fn commit_then_error_or_panic_aborts_output_and_deactivates() {
    let resolver = FakeResolver::new();
    let (mut session, own_key, metadata_key, io_key, generation) = running_session(&resolver);
    let error = session
        .on_wake_with_finish(generation, Ok(1), 100, || 140, &mut CommitThenFail)
        .unwrap_err();
    assert!(matches!(error, SessionError::Callback(_)));
    assert_eq!(session.state(), SessionState::Failed);
    let record = session.last_wake().as_ref().unwrap();
    assert_eq!(record.process_status, -5);
    assert!(record.output.as_ref().unwrap().stores.is_empty());
    assert_eq!(record.finish_ns, 140);
    assert_eq!(record.finish.as_ref().unwrap().writes.len(), 3);
    assert_eq!(session.last_failure().as_ref().unwrap().writes.len(), 1);

    let own = activation(&resolver, own_key);
    assert_eq!(own.status().unwrap(), ActivationStatus::Inactive);
    assert_eq!(own.process_result(), -5);
    assert_eq!(own.awake_time(), 100);
    assert_eq!(own.finish_time(), 140);

    assert_eq!(io_state(&resolver, io_key).0, BufferStatus::NeedData.as_i32());
    assert_eq!(chunk_state(&resolver, metadata_key).size, 0);

    session.apply(SessionCommand::SetActive(false)).unwrap();
    session.apply(SessionCommand::SetNodeCommand(NodeCommandState::Pause)).unwrap();
    session.apply(SessionCommand::SetNodeCommand(NodeCommandState::Suspend)).unwrap();
    session.apply(SessionCommand::Disconnect).unwrap();
    assert_eq!(
        session.apply(SessionCommand::Disconnect).unwrap(),
        ApplyOutcome::AlreadyDisconnected
    );
}

#[test]
fn peer_propagation_attempts_every_node_in_node_id_order_after_failure() {
    let resolver = FakeResolver::new();
    let failed = initialize_activation(&resolver, 30, ActivationStatus::NotTriggered, 0);
    let waiting = initialize_activation(&resolver, 31, ActivationStatus::NotTriggered, 2);
    let triggered = initialize_activation(&resolver, 32, ActivationStatus::NotTriggered, 1);
    let mut peers: PeerSet<i32> = PeerSet::new();
    for (generation, node, memory) in [(3, 3, 32), (2, 2, 31), (1, 1, 30)] {
        peers.insert(
            PeerActivation::bind(
                generation,
                PeerActivationDescriptor {
                    node: NodeId(node),
                    signal_fd: node as i32,
                    activation: RegionRef {
                        memory: MemoryId(memory),
                        offset: 0,
                        len: ActivationView::required_size(),
                    },
                },
                &resolver,
            )
            .unwrap(),
        );
    }
    let (signals, result, steps) = peers.trigger_all(&resolver, 77);
    assert!(matches!(result, Err(SessionError::PeerTrigger { peer: NodeId(1), .. })));
    assert_eq!(signals, vec![NodeId(3)]);
    // Node 1 refused its pending count and stored nothing; node 2 stored its
    // count; node 3 stored its count, status and signal time.
    assert_eq!(steps.len(), 3);
    assert!(steps[0].writes.is_empty());
    assert_eq!(steps[1].writes.len(), 1);
    assert_eq!(steps[2].writes.len(), 3);
    assert_eq!(steps[2].writes[2].bytes, 77u64.to_le_bytes().to_vec());

    let pending = |key| {
        let view = activation(&resolver, key);
        (view.pending(), view.status().unwrap())
    };
    assert_eq!(pending(failed), (0, ActivationStatus::NotTriggered));
    assert_eq!(pending(waiting), (1, ActivationStatus::NotTriggered));
    assert_eq!(pending(triggered), (0, ActivationStatus::Triggered));
}

#[test]
fn output_replacement_rolls_back_rejection_and_quiesces_accepted_unresolved_state() {
    let resolver = FakeResolver::new();
    resolver.add(2, 16);
    resolver.add(3, 64);
    resolver.add(4, 8);
    let mut session: ClientNodeSession<FakeResolver, i32> = ClientNodeSession::new(resolver);
    let (buffers, io) = output_descriptors();
    session.apply(SessionCommand::SetFormat(pcm())).unwrap();
    session.apply(SessionCommand::UseBuffers(buffers.clone())).unwrap();
    session.apply(SessionCommand::SetPortIo(io)).unwrap();
    let old_generation = session.output().unwrap().id();

    let mut invalid = buffers.clone();
    invalid.buffers[0].metadata.len = 8;
    assert!(session.apply(SessionCommand::UseBuffers(invalid)).is_err());
    assert_eq!(session.output().unwrap().id(), old_generation);
    assert!(session.buffer_descriptor().unwrap().same_as(&buffers));
    assert_eq!(session.io_descriptor(), Some(io));

    let mut unresolved = buffers;
    unresolved.buffers[0].media_memory = MemoryId(99);
    assert_eq!(
        session.apply(SessionCommand::UseBuffers(unresolved.clone())).unwrap(),
        ApplyOutcome::PendingMemory
    );
    assert!(session.output().is_none());
    assert!(session.io_descriptor().is_none());
    assert!(session.buffer_descriptor().unwrap().same_as(&unresolved));
    assert_eq!(session.state(), SessionState::Configuring);
}

#[test]
fn unresolved_permutation_converges_and_exact_revocation_survives_id_reuse() {
    let resolver = FakeResolver::new();
    let (buffers, io) = output_descriptors();
    let mut session = ClientNodeSession::new(resolver.clone());

    assert_eq!(
        session.apply(SessionCommand::ReplaceTransport(transport(MemoryId(1), 10))).unwrap(),
        ApplyOutcome::PendingMemory
    );
    session.apply(SessionCommand::UseBuffers(buffers)).unwrap();
    session.apply(SessionCommand::SetPortIo(io)).unwrap();
    assert_eq!(
        session
            .apply(SessionCommand::SetPeerActivation(PeerActivationDescriptor {
                node: NodeId(8),
                signal_fd: 30,
                activation: RegionRef { memory: MemoryId(5), offset: 0, len: ACTIVATION_SIZE },
            }))
            .unwrap(),
        ApplyOutcome::PendingMemory
    );
    assert_eq!(session.apply(SessionCommand::SetFormat(pcm())).unwrap(), ApplyOutcome::PendingMemory);
    session.apply(SessionCommand::SetActive(true)).unwrap();
    assert!(session.apply(SessionCommand::SetNodeCommand(NodeCommandState::Start)).is_err());

    initialize_activation(&resolver, 1, ActivationStatus::Inactive, 0);
    assert_eq!(
        session.apply(SessionCommand::MemoryAvailable(MemoryId(1))).unwrap(),
        ApplyOutcome::PendingMemory
    );
    resolver.add(2, 16);
    resolver.add(4, 8);
    assert_eq!(
        session.apply(SessionCommand::MemoryAvailable(MemoryId(4))).unwrap(),
        ApplyOutcome::PendingMemory
    );
    let old_media = resolver.add(3, 64);
    initialize_activation(&resolver, 5, ActivationStatus::NotTriggered, 1);
    session.apply(SessionCommand::MemoryAvailable(MemoryId(5))).unwrap();
    assert_eq!(session.state(), SessionState::Running);

    resolver.remove(MemoryId(3));
    let replacement_media = resolver.add(3, 64);
    assert_ne!(old_media, replacement_media);
    session.apply(SessionCommand::RemoveMemory(old_media)).unwrap();
    assert!(session.output().is_none());
    session.apply(SessionCommand::MemoryAvailable(MemoryId(3))).unwrap();
    let rebound = session.output().unwrap().id();
    session.apply(SessionCommand::RemoveMemory(old_media)).unwrap();
    assert_eq!(session.output().unwrap().id(), rebound);

    let old_generation = session.transport_generation().unwrap();
    initialize_activation(&resolver, 6, ActivationStatus::Inactive, 0);
    session.apply(SessionCommand::ReplaceTransport(transport(MemoryId(6), 40))).unwrap();
    let current = session.transport_generation().unwrap();
    assert_ne!(current, old_generation);
    assert_eq!(
        session.on_wake(old_generation, Ok(1), 9, &mut PatternProcess { calls: 0 }).unwrap(),
        WakeOutcome::Stale { expected: current, received: old_generation }
    );

    session.apply(SessionCommand::SetNodeCommand(NodeCommandState::Pause)).unwrap();
    session.apply(SessionCommand::SetNodeCommand(NodeCommandState::Suspend)).unwrap();
    assert_eq!(session.state(), SessionState::Configuring);
}

#[test]
fn bind_transport_maps_activation_region() {
    let resolver = FakeResolver::new();
    let key = initialize_activation(&resolver, 7, ActivationStatus::Inactive, 0);
    let bound = TransportGeneration::bind(5, transport(MemoryId(7), 10), &resolver).unwrap();
    assert_eq!(bound.id(), 5);
    assert_eq!(bound.activation_key(), key);
    assert_eq!(bound.range().len, ActivationView::required_size());
    assert_eq!(bound.status(&resolver).unwrap(), ActivationStatus::Inactive);
    let (ready, step) = bound.mark_ready(&resolver);
    ready.unwrap();
    assert_eq!(step.writes.len(), 1);
    assert_eq!(activation(&resolver, key).status().unwrap(), ActivationStatus::Finished);
    let (prior, step) = bound.deactivate(&resolver);
    assert_eq!(prior.unwrap(), ActivationStatus::Finished);
    assert_eq!(step.writes.len(), 1);
    assert_eq!(activation(&resolver, key).status().unwrap(), ActivationStatus::Inactive);
}

#[test]
fn wake_without_transport_or_count_is_refused() {
    let resolver = FakeResolver::new();
    let mut session: ClientNodeSession<FakeResolver, i32> = ClientNodeSession::new(resolver.clone());
    assert!(matches!(
        session.on_wake(1, Ok(1), 5, &mut PatternProcess { calls: 0 }),
        Err(SessionError::NotReady("transport"))
    ));
    initialize_activation(&resolver, 1, ActivationStatus::Inactive, 0);
    session.apply(SessionCommand::ReplaceTransport(transport(MemoryId(1), 10))).unwrap();
    let generation = session.transport_generation().unwrap();
    let mut process = PatternProcess { calls: 0 };
    assert_eq!(session.on_wake(generation, Err(11), 5, &mut process).unwrap(), WakeOutcome::NoWake);
    assert!(matches!(session.on_wake(generation, Err(9), 5, &mut process), Err(SessionError::Signal(9))));
    assert_eq!(
        session.on_wake(generation, Ok(4), 5, &mut process).unwrap(),
        WakeOutcome::NotRunning { drained: 4 }
    );
    assert_eq!(process.calls, 0);
}

#[test]
fn claimed_cycle_without_need_data_publishes_idle_result() {
    let resolver = FakeResolver::new();
    let (mut session, own_key, metadata_key, io_key, generation) = running_session(&resolver);
    resolver.store(io_key, 0, &BufferStatus::Idle.as_i32().to_le_bytes());
    let mut process = PatternProcess { calls: 0 };
    assert_eq!(
        session.on_wake_with_finish(generation, Ok(1), 10, || 20, &mut process).unwrap(),
        WakeOutcome::Processed { drained: 1, missed: 0, produced: false }
    );
    assert_eq!(process.calls, 0);
    let own = activation(&resolver, own_key);
    assert_eq!(own.status().unwrap(), ActivationStatus::Finished);
    assert_eq!(own.process_result(), 0);
    assert_eq!(chunk_state(&resolver, metadata_key).size, 0);
    assert_eq!(session.state(), SessionState::Running);
}

#[test]
fn bad_buffer_selection_fails_the_cycle() {
    let resolver = FakeResolver::new();
    let (mut session, own_key, _, io_key, generation) = running_session(&resolver);
    resolver.store(io_key, 4, &3_u32.to_le_bytes());
    let mut process = PatternProcess { calls: 0 };
    assert!(matches!(
        session.on_wake_with_finish(generation, Ok(1), 10, || 20, &mut process),
        Err(SessionError::Cycle(_))
    ));
    assert_eq!(process.calls, 0);
    assert_eq!(session.state(), SessionState::Failed);
    assert_eq!(activation(&resolver, own_key).process_result(), -5);
}
