use pipewire_native::config::{
    BufferSetDescriptor, MemoryId, MixId, NegotiatedAudioFormat, UnsupportedFeature,
    DATA_TYPE_DMA_BUF, DATA_TYPE_MEM_FD, DATA_TYPE_MEM_ID, DATA_TYPE_MEM_PTR,
    SPA_AUDIO_FORMAT_S16_LE,
};
use pipewire_native::error::SessionError;
use pipewire_native::format::parse_format_object;
use pipewire_native::memory::{
    BackingIdentity, Inspection, MemoryError, MemoryKey, MemoryPool, ShrinkPolicy,
};
use pipewire_native::pod::{Pod, TYPE_ARRAY, TYPE_ID, TYPE_INT, TYPE_OBJECT};
use pipewire_native::wire::{
    self, BufferDescriptor as WireBuffer, DataDescriptor as WireData, Direction, PortSetParam,
    PortUseBuffers, RegionRef as WireRegion,
};

fn property(body: &mut Vec<u8>, key: u32, pod_type: u32, value: &[u8]) {
    body.extend_from_slice(&key.to_le_bytes());
    body.extend_from_slice(&0_u32.to_le_bytes());
    body.extend_from_slice(&(value.len() as u32).to_le_bytes());
    body.extend_from_slice(&pod_type.to_le_bytes());
    body.extend_from_slice(value);
    while body.len() % 8 != 0 {
        body.push(0);
    }
}

fn format_body(rate: i32, channels: i32, sample: u32, positions: Option<&[u32]>) -> Vec<u8> {
    let mut body = Vec::new();
    body.extend_from_slice(&0x40003_u32.to_le_bytes());
    body.extend_from_slice(&4_u32.to_le_bytes());
    property(&mut body, 1, TYPE_ID, &1_u32.to_le_bytes());
    property(&mut body, 2, TYPE_ID, &1_u32.to_le_bytes());
    property(&mut body, 0x10001, TYPE_ID, &sample.to_le_bytes());
    property(&mut body, 0x10003, TYPE_INT, &rate.to_le_bytes());
    property(&mut body, 0x10004, TYPE_INT, &channels.to_le_bytes());
    if let Some(ids) = positions {
        let mut array = Vec::new();
        array.extend_from_slice(&4_u32.to_le_bytes());
        array.extend_from_slice(&TYPE_ID.to_le_bytes());
        for id in ids {
            array.extend_from_slice(&id.to_le_bytes());
        }
        property(&mut body, 0x10005, TYPE_ARRAY, &array);
    }
    body
}

fn format_pod(rate: i32, channels: i32, sample: u32) -> Pod {
    Pod::Raw(TYPE_OBJECT, format_body(rate, channels, sample, None))
}

fn format_event(param: Option<Pod>) -> PortSetParam {
    PortSetParam {
        direction: Direction::Output,
        port_id: 0,
        param_id: wire::SPA_PARAM_FORMAT,
        flags: 0,
        param,
    }
}

#[test]
fn converts_exact_s16le_format_and_rejects_invalid_values() {
    let event = format_event(Some(format_pod(48_000, 2, SPA_AUDIO_FORMAT_S16_LE)));
    let format = NegotiatedAudioFormat::from_wire(&event).unwrap();
    assert_eq!(format.rate, 48_000);
    assert_eq!(format.channels.len(), 2);
    assert_eq!(format.frame_stride, 4);

    for (rate, channels, sample) in
        [(0, 2, SPA_AUDIO_FORMAT_S16_LE), (48_000, 0, SPA_AUDIO_FORMAT_S16_LE), (48_000, 2, 0x104)]
    {
        let event = format_event(Some(format_pod(rate, channels, sample)));
        assert!(NegotiatedAudioFormat::from_wire(&event).is_err());
    }
}

#[test]
fn format_errors_name_their_cause() {
    let cases: [(Option<Pod>, SessionError); 6] = [
        (None, SessionError::InvalidFormat("format was cleared")),
        (Some(Pod::Raw(TYPE_OBJECT, vec![1, 2, 3])), SessionError::InvalidFormat("malformed Format POD")),
        (Some(Pod::Int(5)), SessionError::InvalidFormat("malformed Format POD")),
        (
            Some(format_pod(48_000, 2, 0x104)),
            SessionError::Unsupported(UnsupportedFeature::SampleFormat(0x104)),
        ),
        (Some(format_pod(-1, 2, SPA_AUDIO_FORMAT_S16_LE)), SessionError::InvalidFormat("invalid sample rate")),
        (Some(format_pod(48_000, 0, SPA_AUDIO_FORMAT_S16_LE)), SessionError::InvalidFormat("zero channel count")),
    ];
    for (param, expected) in cases {
        assert_eq!(NegotiatedAudioFormat::from_wire(&format_event(param)).err(), Some(expected));
    }
    let other_param = PortSetParam { param_id: 3, ..format_event(None) };
    assert_eq!(
        NegotiatedAudioFormat::from_wire(&other_param).err(),
        Some(SessionError::Unsupported(UnsupportedFeature::Parameter(3)))
    );
    let input = PortSetParam { direction: Direction::Input, ..format_event(None) };
    assert_eq!(
        NegotiatedAudioFormat::from_wire(&input).err(),
        Some(SessionError::Unsupported(UnsupportedFeature::InputDirection))
    );
}

#[test]
fn channel_positions_are_kept_and_must_match_the_count() {
    let body = format_body(44_100, 2, SPA_AUDIO_FORMAT_S16_LE, Some(&[3, 4]));
    let format =
        NegotiatedAudioFormat::from_wire(&format_event(Some(Pod::Raw(TYPE_OBJECT, body)))).unwrap();
    assert_eq!(format.rate, 44_100);
    assert_eq!(format.channels.iter().map(|c| c.0).collect::<Vec<_>>(), vec![3, 4]);

    let body = format_body(44_100, 2, SPA_AUDIO_FORMAT_S16_LE, Some(&[3]));
    assert_eq!(
        NegotiatedAudioFormat::from_wire(&format_event(Some(Pod::Raw(TYPE_OBJECT, body)))).err(),
        Some(SessionError::InvalidFormat("channel position count mismatch"))
    );
}

#[test]
fn a_later_property_replaces_an_earlier_one() {
    let mut body = format_body(8_000, 1, SPA_AUDIO_FORMAT_S16_LE, None);
    property(&mut body, 0x10003, TYPE_INT, &96_000_i32.to_le_bytes());
    let fields = parse_format_object(&body).unwrap();
    assert_eq!(fields.rate, Some(96_000));
    assert_eq!(fields.channels, Some(1));
    let format =
        NegotiatedAudioFormat::from_wire(&format_event(Some(Pod::Raw(TYPE_OBJECT, body)))).unwrap();
    assert_eq!(format.rate, 96_000);
}

#[test]
fn mistyped_known_property_and_trailing_bytes_are_malformed() {
    let mut body = format_body(8_000, 1, SPA_AUDIO_FORMAT_S16_LE, None);
    property(&mut body, 0x10003, TYPE_ID, &5_u32.to_le_bytes());
    assert!(parse_format_object(&body).is_none());
    let mut body = format_body(8_000, 1, SPA_AUDIO_FORMAT_S16_LE, None);
    body.extend_from_slice(&[0; 4]);
    assert!(parse_format_object(&body).is_none());
}

#[test]
fn pcm_s16le_has_unknown_positions_and_s16_strides() {
    let format = NegotiatedAudioFormat::pcm_s16le(48_000, 3).unwrap();
    assert_eq!(format.bytes_per_sample, 2);
    assert_eq!(format.frame_stride, 6);
    assert!(format.channels.iter().all(|c| c.0 == 0));
    assert_eq!(
        NegotiatedAudioFormat::pcm_s16le(0, 3).err(),
        Some(SessionError::InvalidFormat("zero sample rate"))
    );
}

fn base_buffers() -> PortUseBuffers {
    PortUseBuffers {
        direction: Direction::Output,
        port_id: 0,
        mix_id: None,
        flags: 0,
        buffers: vec![WireBuffer {
            metadata: WireRegion { memory_id: 1, offset: 0, size: 16 },
            metas: vec![],
            datas: vec![WireData {
                type_id: DATA_TYPE_MEM_ID,
                data_id: 2,
                flags: 0,
                map_offset: 0,
                max_size: 16,
            }],
        }],
    }
}

#[test]
fn rejects_input_mix_alloc_and_non_memid_planes() {
    let base = base_buffers();
    let accepted = BufferSetDescriptor::try_from_wire(base.clone()).unwrap();
    assert_eq!(accepted.buffers.len(), 1);
    assert_eq!(accepted.buffers[0].media_memory, MemoryId(2));
    assert_eq!(
        BufferSetDescriptor::try_from_wire(PortUseBuffers { direction: Direction::Input, ..base.clone() })
            .err(),
        Some(SessionError::Unsupported(UnsupportedFeature::InputDirection))
    );
    assert_eq!(
        BufferSetDescriptor::try_from_wire(PortUseBuffers { mix_id: Some(1), ..base.clone() }).err(),
        Some(SessionError::Unsupported(UnsupportedFeature::Mix(MixId(1))))
    );
    assert_eq!(
        BufferSetDescriptor::try_from_wire(PortUseBuffers {
            flags: wire::SPA_NODE_BUFFERS_FLAG_ALLOC,
            ..base.clone()
        })
        .err(),
        Some(SessionError::Unsupported(UnsupportedFeature::ClientAllocatedBuffers))
    );
    let mut wrong_plane = base;
    wrong_plane.buffers[0].datas[0].type_id = DATA_TYPE_MEM_PTR;
    assert_eq!(
        BufferSetDescriptor::try_from_wire(wrong_plane).err(),
        Some(SessionError::Unsupported(UnsupportedFeature::DataPlane))
    );
}

fn inspected(len: usize, inode: u64) -> Result<Inspection, i32> {
    Ok(Inspection { file_len: len, backing: BackingIdentity { device: 1, inode }, sealed: true })
}

#[test]
fn duplicate_active_ids_are_rejected_and_candidate_fd_is_closed() {
    let mut pool = MemoryPool::new(ShrinkPolicy::RequireSealed);
    pool.add(MemoryId(7), DATA_TYPE_MEM_FD, 0, inspected(64, 1)).unwrap();
    assert_eq!(
        pool.add(MemoryId(7), DATA_TYPE_MEM_FD, 0, inspected(64, 2)).err(),
        Some(MemoryError::DuplicateActiveId(MemoryId(7)))
    );
    assert_eq!(pool.len(), 1);
}

#[test]
fn unknown_and_unsupported_memory_types_are_distinct_and_close_fds() {
    let mut pool = MemoryPool::new(ShrinkPolicy::RequireSealed);
    assert_eq!(
        pool.add(MemoryId(1), DATA_TYPE_DMA_BUF, 0, inspected(64, 1)).err(),
        Some(MemoryError::UnsupportedMemoryType(DATA_TYPE_DMA_BUF))
    );
    assert_eq!(
        pool.add(MemoryId(1), 99, 0, inspected(64, 1)).err(),
        Some(MemoryError::UnknownMemoryType(99))
    );
    assert!(pool.is_empty());
}

#[test]
fn checked_regions_reject_empty_overflow_and_out_of_bounds_ranges() {
    let mut pool = MemoryPool::new(ShrinkPolicy::RequireSealed);
    let key = pool.add(MemoryId(2), DATA_TYPE_MEM_FD, 0, inspected(64, 1)).unwrap();
    for (offset, len) in [(0, 0), (usize::MAX, 2), (60, 5)] {
        assert!(matches!(pool.map(key, offset, len, true), Err(MemoryError::InvalidRegion { .. })));
    }
    assert_eq!(pool.map(key, 3, 5, true).unwrap().len(), 5);
}

#[test]
fn remove_with_active_mapping_retires_binding_but_preserves_guard() {
    let mut pool = MemoryPool::new(ShrinkPolicy::RequireSealed);
    let key = pool.add(MemoryId(3), DATA_TYPE_MEM_FD, 0, inspected(64, 1)).unwrap();
    let mapping = pool.map(key, 0, 64, true).unwrap();
    assert_eq!(pool.remove(MemoryId(3)).unwrap(), key);
    assert!(matches!(
        pool.map(key, 0, 1, true),
        Err(MemoryError::StaleGeneration { active: None, .. })
    ));
    assert_eq!(mapping.key(), key);
    assert_eq!(mapping.len(), 64);
}

#[test]
fn reused_id_gets_new_generation_and_rejects_old_key() {
    let mut pool = MemoryPool::new(ShrinkPolicy::RequireSealed);
    let first = pool.add(MemoryId(4), DATA_TYPE_MEM_FD, 0, inspected(64, 1)).unwrap();
    pool.remove(MemoryId(4)).unwrap();
    let second = pool.add(MemoryId(4), DATA_TYPE_MEM_FD, 0, inspected(64, 2)).unwrap();
    assert_ne!(first, second);
    assert_eq!(
        pool.map(first, 0, 1, false).err(),
        Some(MemoryError::StaleGeneration { requested: first, active: Some(second) })
    );
    assert_eq!(pool.map(second, 0, 1, false).unwrap().key(), second);
}

#[test]
fn duplicated_handles_share_backing_identity_across_ids_and_generations() {
    let mut pool = MemoryPool::new(ShrinkPolicy::RequireSealed);
    let first = pool.add(MemoryId(20), DATA_TYPE_MEM_FD, 0, inspected(64, 9)).unwrap();
    let second = pool.add(MemoryId(21), DATA_TYPE_MEM_FD, 0, inspected(64, 9)).unwrap();
    let first_mapping = pool.map(first, 4, 16, true).unwrap();
    let second_mapping = pool.map(second, 8, 16, true).unwrap();
    assert_ne!(first, second);
    assert_eq!(first_mapping.backing_identity(), second_mapping.backing_identity());
    assert!(first_mapping.interval().overlaps(second_mapping.interval()));
    pool.remove(MemoryId(20)).unwrap();
    let reused = pool.add(MemoryId(20), DATA_TYPE_MEM_FD, 0, inspected(64, 9)).unwrap();
    assert_ne!(first, reused);
    assert_eq!(
        first_mapping.backing_identity(),
        pool.map(reused, 0, 1, true).unwrap().backing_identity()
    );
}

#[test]
fn clear_is_reusable_and_disconnect_is_terminal() {
    let mut pool = MemoryPool::new(ShrinkPolicy::RequireSealed);
    pool.add(MemoryId(5), DATA_TYPE_MEM_FD, 0, inspected(64, 1)).unwrap();
    pool.clear();
    assert!(pool.is_empty());
    let key = pool.add(MemoryId(5), DATA_TYPE_MEM_FD, 0, inspected(64, 2)).unwrap();
    let mapping = pool.map(key, 0, 64, false).unwrap();
    pool.disconnect();
    assert!(pool.is_empty());
    assert_eq!(pool.resolve(MemoryId(5)).err(), Some(MemoryError::Disconnected));
    assert_eq!(
        pool.add(MemoryId(6), DATA_TYPE_MEM_FD, 0, inspected(64, 3)).err(),
        Some(MemoryError::Disconnected)
    );
    assert_eq!(mapping.key(), key);
}

#[test]
fn explicit_seal_policy_rejects_shrinkable_imports() {
    let unsealed =
        Ok(Inspection { file_len: 64, backing: BackingIdentity { device: 1, inode: 1 }, sealed: false });
    let mut strict = MemoryPool::new(ShrinkPolicy::RequireSealed);
    assert_eq!(
        strict.add(MemoryId(1), DATA_TYPE_MEM_FD, 0, unsealed).err(),
        Some(MemoryError::ShrinkableMemory(MemoryId(1)))
    );
    let mut lenient = MemoryPool::new(ShrinkPolicy::AllowShrinkable);
    assert_eq!(
        lenient.add(MemoryId(1), DATA_TYPE_MEM_FD, 0, unsealed).unwrap(),
        MemoryKey { id: MemoryId(1), generation: 1 }
    );
    assert_eq!(
        lenient.add(MemoryId(2), DATA_TYPE_MEM_FD, 0, Err(9)).err(),
        Some(MemoryError::Inspect(9))
    );
}

#[test]
fn later_format_property_replaces_earlier_one() {
    let mut body = format_body(44_100, 1, SPA_AUDIO_FORMAT_S16_LE, None);
    property(&mut body, 0x10003, TYPE_INT, &48_000_i32.to_le_bytes());
    property(&mut body, 0x10004, TYPE_INT, &2_i32.to_le_bytes());
    let fields = parse_format_object(&body).unwrap();
    assert_eq!(fields.rate, Some(48_000));
    assert_eq!(fields.channels, Some(2));
    assert_eq!(fields.media_type, Some(1));
    assert!(fields.positions.is_none());
}
