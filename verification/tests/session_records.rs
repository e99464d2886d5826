use pipewire_native::activation::{
    ActivationError, ActivationStatus, ActivationView, TriggerOutcome,
};
use pipewire_native::activation_abi as abi;
use pipewire_native::config::NegotiatedAudioFormat;
use pipewire_native::cycle::{CycleError, OutputBufferPublisher};
use pipewire_native::port::{BuffersIoView, ChunkFlags, ChunkState, OutputBuffer, PortError};
use pipewire_native::wire::{BufferStatus, PortIoType};

const ALIGNED: usize = 0x1000;

fn activation_bytes(status: ActivationStatus) -> Vec<u8> {
    let mut bytes = vec![0_u8; abi::SIZE];
    bytes[abi::STATUS..abi::STATUS + 4].copy_from_slice(&status.as_u32().to_le_bytes());
    bytes[abi::SERVER_VERSION..abi::SERVER_VERSION + 4].copy_from_slice(&1_u32.to_le_bytes());
    bytes
}

fn view(status: ActivationStatus) -> ActivationView {
    ActivationView::from_raw_parts(ALIGNED, activation_bytes(status)).unwrap()
}

fn with_status(view: &ActivationView, status: ActivationStatus) -> ActivationView {
    let mut bytes = view.bytes().clone();
    bytes[abi::STATUS..abi::STATUS + 4].copy_from_slice(&status.as_u32().to_le_bytes());
    ActivationView::from_raw_parts(ALIGNED, bytes).unwrap()
}

#[test]
fn performs_client_node_v6_cycle_transitions() {
    let mut activation = view(ActivationStatus::Inactive);
    activation.initialize_client_v1();
    activation.mark_ready().unwrap();
    assert_eq!(activation.status().unwrap(), ActivationStatus::Finished);

    let mut activation = with_status(&activation, ActivationStatus::Triggered);
    let claim = activation.claim_cycle(100).unwrap();
    claim.publish_result_and_finish(&mut activation, 2, 140).unwrap();

    assert_eq!(activation.status().unwrap(), ActivationStatus::Finished);
    assert_eq!(activation.process_result(), 2);
    assert_eq!(activation.awake_time(), 100);
    assert_eq!(activation.finish_time(), 140);
    assert_eq!(
        u32::from_le_bytes(
            activation.bytes()[abi::CLIENT_VERSION..abi::CLIENT_VERSION + 4].try_into().unwrap()
        ),
        1
    );
}

#[test]
fn decrements_pending_before_triggering_peer() {
    let mut activation = view(ActivationStatus::NotTriggered);
    activation.set_required(2);
    assert_eq!(activation.reset_pending().unwrap(), 2);
    assert_eq!(activation.decrement_pending_and_trigger(10).unwrap(), TriggerOutcome::Waiting(1));
    assert_eq!(activation.status().unwrap(), ActivationStatus::NotTriggered);
    assert_eq!(activation.decrement_pending_and_trigger(20).unwrap(), TriggerOutcome::Triggered);
    assert_eq!(activation.status().unwrap(), ActivationStatus::Triggered);
    assert_eq!(activation.signal_time(), 20);
}

#[test]
fn rejects_invalid_transitions_and_pending_underflow() {
    let mut activation = view(ActivationStatus::Finished);
    assert_eq!(
        activation.claim_cycle(1).err(),
        Some(ActivationError::InvalidTransition {
            expected: ActivationStatus::Triggered,
            actual: ActivationStatus::Finished,
        })
    );
    assert_eq!(activation.decrement_pending_and_trigger(1).err(), Some(ActivationError::InvalidPending(0)));
    assert_eq!(activation.pending(), 0);
}

#[test]
fn rejects_undersized_misaligned_and_wrong_version_regions() {
    let bytes = activation_bytes(ActivationStatus::Inactive);
    assert!(matches!(
        ActivationView::from_raw_parts(ALIGNED, bytes[..abi::SIZE - 1].to_vec()),
        Err(ActivationError::Undersized { .. })
    ));
    assert!(matches!(
        ActivationView::from_raw_parts(ALIGNED + 1, bytes.clone()),
        Err(ActivationError::Misaligned { .. })
    ));
    assert!(matches!(ActivationView::from_raw_parts(0, bytes.clone()), Err(ActivationError::Null)));
    let mut wrong = bytes;
    wrong[abi::SERVER_VERSION..abi::SERVER_VERSION + 4].copy_from_slice(&0_u32.to_le_bytes());
    assert_eq!(
        ActivationView::from_raw_parts(ALIGNED, wrong).err(),
        Some(ActivationError::UnsupportedVersion(0))
    );
}

#[test]
fn deactivate_reports_the_prior_status_and_unknown_status_is_refused() {
    let mut activation = view(ActivationStatus::Awake);
    assert_eq!(activation.deactivate().unwrap(), ActivationStatus::Awake);
    assert_eq!(activation.status().unwrap(), ActivationStatus::Inactive);
    let mut bytes = activation_bytes(ActivationStatus::Inactive);
    bytes[0..4].copy_from_slice(&9_u32.to_le_bytes());
    let unknown = ActivationView::from_raw_parts(ALIGNED, bytes).unwrap();
    assert_eq!(unknown.status().err(), Some(ActivationError::UnknownStatus(9)));
}

fn chunk(state: ChunkState) -> Vec<u8> {
    let mut bytes = vec![0_u8; 16];
    bytes[0..4].copy_from_slice(&state.offset.to_le_bytes());
    bytes[4..8].copy_from_slice(&state.size.to_le_bytes());
    bytes[8..12].copy_from_slice(&state.stride.to_le_bytes());
    bytes[12..16].copy_from_slice(&state.flags.to_le_bytes());
    bytes
}

fn io_record(status: i32, buffer_id: u32) -> Vec<u8> {
    let mut bytes = vec![0_u8; 8];
    bytes[0..4].copy_from_slice(&status.to_le_bytes());
    bytes[4..8].copy_from_slice(&buffer_id.to_le_bytes());
    bytes
}

#[test]
fn rejects_async_wrong_size_and_misalignment() {
    assert_eq!(
        BuffersIoView::from_raw_parts(PortIoType::AsyncBuffers, ALIGNED, vec![0; 8]).err(),
        Some(PortError::AsyncBuffersUnsupported)
    );
    assert!(matches!(
        BuffersIoView::from_raw_parts(PortIoType::Buffers, ALIGNED, vec![0; 7]),
        Err(PortError::InvalidSize { .. })
    ));
    assert!(matches!(
        BuffersIoView::from_raw_parts(PortIoType::Buffers, ALIGNED + 1, vec![0; 8]),
        Err(PortError::Misaligned { .. })
    ));
}

#[test]
fn validates_plane_range_chunk_wrap_and_stride() {
    let buffer = OutputBuffer::from_raw_parts(
        ALIGNED,
        chunk(ChunkState { offset: 6, size: 2, stride: 2, flags: 0 }),
        ALIGNED,
        vec![0; 32],
        8,
        8,
    )
    .unwrap();
    assert_eq!(buffer.capacity(), 2);

    let wrapped = chunk(ChunkState { offset: 6, size: 3, stride: 2, flags: 0 });
    assert!(matches!(
        OutputBuffer::from_raw_parts(ALIGNED, wrapped.clone(), ALIGNED, vec![0; 32], 30, 8),
        Err(PortError::MediaRangeOutOfBounds { .. })
    ));
    assert!(matches!(
        OutputBuffer::from_raw_parts(ALIGNED, wrapped, ALIGNED, vec![0; 32], 0, 8),
        Err(PortError::WrappedChunk { .. })
    ));
    assert!(matches!(
        OutputBuffer::from_raw_parts(
            ALIGNED,
            chunk(ChunkState { offset: 0, size: 0, stride: -1, flags: 0 }),
            ALIGNED,
            vec![0; 32],
            0,
            8
        ),
        Err(PortError::InvalidStride { .. })
    ));
    assert!(matches!(
        OutputBuffer::from_raw_parts(
            ALIGNED,
            chunk(ChunkState { offset: 0, size: 0, stride: 0, flags: 0 }),
            ALIGNED,
            vec![0; 32],
            0,
            0
        ),
        Err(PortError::ZeroMaxSize)
    ));
    let _ = BufferStatus::Idle;
}

fn format() -> NegotiatedAudioFormat {
    NegotiatedAudioFormat::pcm_s16le(48_000, 2).unwrap()
}

#[test]
fn selects_one_buffer_and_publishes_chunk_then_io() {
    let io = BuffersIoView::from_raw_parts(
        PortIoType::Buffers,
        ALIGNED,
        io_record(BufferStatus::NeedData.as_i32(), 1),
    )
    .unwrap();
    let buffer0 = OutputBuffer::from_raw_parts(
        ALIGNED,
        chunk(ChunkState { offset: 0, size: 0, stride: 0, flags: 0 }),
        ALIGNED,
        vec![0; 16],
        0,
        16,
    )
    .unwrap();
    let buffer1 = OutputBuffer::from_raw_parts(
        ALIGNED,
        chunk(ChunkState { offset: 4, size: 0, stride: 0, flags: 0 }),
        ALIGNED,
        vec![0; 24],
        8,
        16,
    )
    .unwrap();
    let mut publisher = OutputBufferPublisher::new(io, vec![buffer0, buffer1], format());
    let cycle = publisher.select().unwrap().unwrap();
    assert_eq!(cycle.buffer_id(), 1);
    assert_eq!(cycle.capacity(), 12);
    assert_eq!(cycle.frame_capacity(), 3);
    cycle.write_media(&mut publisher, 0, &[1, 2, 3, 4, 5, 6, 7, 8]);
    assert_eq!(cycle.media(&publisher).len(), cycle.capacity());
    assert_eq!(&cycle.media(&publisher)[..8], &[1, 2, 3, 4, 5, 6, 7, 8]);
    assert_eq!(cycle.interleaved_pcm(&publisher), &[1, 2, 3, 4, 5, 6, 7, 8, 0, 0, 0, 0]);
    assert_eq!(cycle.format(&publisher).frame_stride, 4);
    let published = cycle.commit(&mut publisher, 2).unwrap();
    assert_eq!(published.buffer_id(), 1);
    assert_eq!(published.bytes_used(), 8);
    assert_eq!(publisher.io_state().status, BufferStatus::HaveData.as_i32());
    assert_eq!(publisher.io_state().buffer_id, 1);
    assert_eq!(
        publisher.buffers()[1].chunk_state(),
        ChunkState { offset: 4, size: 8, stride: 4, flags: 0 }
    );
    assert_eq!(&publisher.buffers()[1].media()[12..20], &[1, 2, 3, 4, 5, 6, 7, 8]);
    assert_eq!(publisher.buffers()[0].media().as_slice(), &[0; 16]);
}

#[test]
fn does_not_expose_media_without_need_data_and_rejects_bad_selection() {
    let io = BuffersIoView::from_raw_parts(PortIoType::Buffers, ALIGNED, io_record(0, 0)).unwrap();
    let publisher = OutputBufferPublisher::new(io, vec![], format());
    assert!(publisher.select().unwrap().is_none());

    let io = BuffersIoView::from_raw_parts(
        PortIoType::Buffers,
        ALIGNED,
        io_record(BufferStatus::NeedData.as_i32(), 7),
    )
    .unwrap();
    let publisher = OutputBufferPublisher::new(io, vec![], format());
    assert_eq!(
        publisher.select().err(),
        Some(CycleError::InvalidBufferId { buffer_id: 7, buffer_count: 0 })
    );
}

#[test]
fn rejects_publication_beyond_checked_capacity() {
    let io = BuffersIoView::from_raw_parts(
        PortIoType::Buffers,
        ALIGNED,
        io_record(BufferStatus::NeedData.as_i32(), 0),
    )
    .unwrap();
    let buffer = OutputBuffer::from_raw_parts(
        ALIGNED,
        chunk(ChunkState { offset: 6, size: 0, stride: 0, flags: 0 }),
        ALIGNED,
        vec![0; 8],
        0,
        8,
    )
    .unwrap();
    let mut publisher = OutputBufferPublisher::new(io, vec![buffer], format());
    let cycle = publisher.select().unwrap().unwrap();
    assert_eq!(
        cycle.publish(&mut publisher, 3, 1, ChunkFlags::none()).err(),
        Some(CycleError::CapacityExceeded { requested: 3, capacity: 2 })
    );
    assert_eq!(publisher.io_state().status, BufferStatus::NeedData.as_i32());
}

#[test]
fn silence_zeroes_the_committed_frames() {
    let io = BuffersIoView::from_raw_parts(
        PortIoType::Buffers,
        ALIGNED,
        io_record(BufferStatus::NeedData.as_i32(), 0),
    )
    .unwrap();
    let buffer = OutputBuffer::from_raw_parts(
        ALIGNED,
        chunk(ChunkState { offset: 0, size: 0, stride: 0, flags: 0 }),
        ALIGNED,
        vec![0xff; 16],
        0,
        16,
    )
    .unwrap();
    let mut publisher = OutputBufferPublisher::new(io, vec![buffer], format());
    let cycle = publisher.select().unwrap().unwrap();
    let published = cycle.silence(&mut publisher, 2).unwrap();
    assert_eq!(published.bytes_used(), 8);
    assert_eq!(&publisher.buffers()[0].media()[..8], &[0; 8]);
    assert_eq!(&publisher.buffers()[0].media()[8..], &[0xff; 8]);
}
