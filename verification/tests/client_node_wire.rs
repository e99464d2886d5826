use pipewire_native::frame::FrameFds;
use pipewire_native::pod::{Pod, TYPE_OBJECT};
use pipewire_native::wire::{
    self, BufferDescriptor, Command, DataDescriptor, Direction, ErrorKind, Event, Limits,
    MetaDescriptor, Method, NodeInfo, ParamInfo, PortInfo, PortSetIo, PortSetParam, PortUpdate,
    PortUseBuffers, RegionRef, SetActive, SetActivation, Update, WireError,
};

fn raw_object(type_id: u32, object_id: u32) -> Pod {
    let mut body = Vec::new();
    body.extend_from_slice(&type_id.to_le_bytes());
    body.extend_from_slice(&object_id.to_le_bytes());
    Pod::Raw(TYPE_OBJECT, body)
}

/// A frame's descriptor table; each descriptor is named by a token.
fn frame_fds(tokens: Vec<&'static str>) -> FrameFds<&'static str> {
    FrameFds::new(tokens)
}

#[test]
fn canonical_interface_and_shared_state_values_match_v6() {
    assert_eq!(wire::FACTORY_NAME, "client-node");
    assert_eq!(wire::INTERFACE, "PipeWire:Interface:ClientNode");
    assert_eq!(wire::INTERFACE_VERSION, 6);
    assert_eq!(wire::ACTIVATION_VERSION, 1);
    assert_eq!(wire::ActivationStatus::NotTriggered.as_u32(), 0);
    assert_eq!(wire::ActivationStatus::Triggered.as_u32(), 1);
    assert_eq!(wire::ActivationStatus::Awake.as_u32(), 2);
    assert_eq!(wire::ActivationStatus::Finished.as_u32(), 3);
    assert_eq!(wire::ActivationStatus::Inactive.as_u32(), 4);
    assert_eq!(wire::PortIoType::Buffers.as_u32(), 1);
    assert_eq!(wire::BufferStatus::NeedData.as_i32(), 1);
    assert_eq!(wire::BufferStatus::HaveData.as_i32(), 2);
}

#[test]
fn selected_methods_round_trip_and_set_active_matches_pinned_bytes() {
    let format = raw_object(0x40003, 4);
    let methods = [
        Method::Update(Update {
            change_mask: 3,
            params: vec![format.clone()],
            info: Some(NodeInfo {
                max_input_ports: 0,
                max_output_ports: 1,
                change_mask: 9,
                flags: 2,
                properties: vec![("media.class".into(), "Audio/Source".into())],
                params: vec![ParamInfo { id: 3, flags: 2 }],
            }),
        }),
        Method::PortUpdate(PortUpdate {
            direction: Direction::Output,
            port_id: 0,
            change_mask: 7,
            params: vec![format],
            info: Some(PortInfo {
                change_mask: 5,
                flags: 0,
                rate_num: 1,
                rate_denom: 48_000,
                properties: vec![],
                params: vec![ParamInfo { id: 4, flags: 2 }],
            }),
        }),
        Method::SetActive(SetActive { active: true }),
    ];

    for method in methods {
        let payload = wire::encode_method(&method).unwrap();
        let decoded = wire::decode_method(method.opcode(), &payload, Limits::default())
            .ok()
            .unwrap();
        assert_eq!(decoded.opcode(), method.opcode());
        assert_eq!(wire::encode_method(&decoded).unwrap(), payload);
    }

    assert_eq!(
        wire::encode_method(&Method::SetActive(SetActive { active: true })).unwrap(),
        [0x10, 0, 0, 0, 0x0e, 0, 0, 0, 4, 0, 0, 0, 2, 0, 0, 0, 1, 0, 0, 0, 0, 0, 0, 0,]
    );
}

#[test]
fn selected_non_fd_events_round_trip_with_clear_forms() {
    let format = raw_object(0x40003, 4);
    let events = [
        (
            wire::EVENT_PORT_SET_PARAM,
            wire::encode_port_set_param(&PortSetParam {
                direction: Direction::Output,
                port_id: 0,
                param_id: 4,
                flags: 0,
                param: Some(format),
            })
            .unwrap(),
        ),
        (
            wire::EVENT_PORT_SET_PARAM,
            wire::encode_port_set_param(&PortSetParam {
                direction: Direction::Output,
                port_id: 0,
                param_id: 4,
                flags: 0,
                param: None,
            })
            .unwrap(),
        ),
        (
            wire::EVENT_PORT_USE_BUFFERS,
            wire::encode_port_use_buffers(&PortUseBuffers {
                direction: Direction::Output,
                port_id: 0,
                mix_id: None,
                flags: 0,
                buffers: vec![BufferDescriptor {
                    metadata: RegionRef { memory_id: 11, offset: 64, size: 128 },
                    metas: vec![MetaDescriptor { type_id: 1, size: 16 }],
                    datas: vec![DataDescriptor {
                        type_id: 3,
                        data_id: 12,
                        flags: 1,
                        map_offset: 32,
                        max_size: 4096,
                    }],
                }],
            })
            .unwrap(),
        ),
        (
            wire::EVENT_PORT_USE_BUFFERS,
            wire::encode_port_use_buffers(&PortUseBuffers {
                direction: Direction::Output,
                port_id: 0,
                mix_id: None,
                flags: 0,
                buffers: vec![],
            })
            .unwrap(),
        ),
        (
            wire::EVENT_PORT_SET_IO,
            wire::encode_port_set_io(PortSetIo::Install {
                direction: Direction::Output,
                port_id: 0,
                mix_id: None,
                io_id: 1,
                region: RegionRef { memory_id: 13, offset: 8, size: 8 },
            })
            .unwrap(),
        ),
        (
            wire::EVENT_PORT_SET_IO,
            wire::encode_port_set_io(PortSetIo::Clear {
                direction: Direction::Output,
                port_id: 0,
                mix_id: None,
                io_id: 1,
            })
            .unwrap(),
        ),
        (wire::EVENT_COMMAND, wire::encode_command(Command::Start).unwrap()),
        (wire::EVENT_COMMAND, wire::encode_command(Command::Pause).unwrap()),
    ];

    for (opcode, payload) in events {
        let mut fds = frame_fds(vec![]);
        assert!(wire::decode_event(opcode, &payload, &mut fds, Limits::default()).is_ok());
    }
}

#[test]
fn descriptor_events_resolve_exact_frame_local_indices_and_clear_without_fd() {
    let payload = wire::encode_transport(1, 0, RegionRef { memory_id: 4, offset: 0, size: 2312 })
        .unwrap();
    let mut fds = frame_fds(vec!["completion", "trigger"]);
    let decoded = wire::decode_event(wire::EVENT_TRANSPORT, &payload, &mut fds, Limits::default());
    match decoded {
        Ok(Event::Transport(transport)) => {
            assert_eq!(transport.trigger_fd, "trigger");
            assert_eq!(transport.completion_fd, "completion");
            assert_eq!(transport.activation, RegionRef { memory_id: 4, offset: 0, size: 2312 });
        },
        _ => panic!("wrong event"),
    }
    assert!(fds.get(0).is_err());
    assert!(fds.get(1).is_err());

    let payload = wire::encode_set_activation(
        55,
        Some((0, RegionRef { memory_id: 8, offset: 16, size: 2312 })),
    )
    .unwrap();
    let mut fds = frame_fds(vec!["signal"]);
    match wire::decode_event(wire::EVENT_SET_ACTIVATION, &payload, &mut fds, Limits::default()) {
        Ok(Event::SetActivation(SetActivation::Install { node_id, signal_fd, activation })) => {
            assert_eq!(node_id, 55);
            assert_eq!(signal_fd, "signal");
            assert_eq!(activation, RegionRef { memory_id: 8, offset: 16, size: 2312 });
        },
        _ => panic!("wrong activation event"),
    }
    assert!(fds.get(0).is_err());

    let payload = wire::encode_set_activation(55, None).unwrap();
    let mut fds = frame_fds(vec![]);
    assert!(matches!(
        wire::decode_event(wire::EVENT_SET_ACTIVATION, &payload, &mut fds, Limits::default()),
        Ok(Event::SetActivation(SetActivation::Remove { node_id: 55 }))
    ));
}

#[test]
fn hostile_shapes_counts_types_ranges_and_descriptor_tables_fail() {
    let set_active = wire::encode_method(&Method::SetActive(SetActive { active: true })).unwrap();
    for end in 0..set_active.len() {
        assert!(wire::decode_method(wire::METHOD_SET_ACTIVE, &set_active[..end], Limits::default())
            .is_err());
    }
    let mut trailing = set_active.clone();
    trailing.extend_from_slice(&[0; 8]);
    assert!(wire::decode_method(wire::METHOD_SET_ACTIVE, &trailing, Limits::default()).is_err());

    let mut buffers = wire::encode_port_use_buffers(&PortUseBuffers {
        direction: Direction::Output,
        port_id: 0,
        mix_id: None,
        flags: 0,
        buffers: vec![],
    })
    .unwrap();
    buffers[80..84].copy_from_slice(&65_i32.to_le_bytes());
    assert!(wire::decode_event(
        wire::EVENT_PORT_USE_BUFFERS,
        &buffers,
        &mut frame_fds(vec![]),
        Limits::default()
    )
    .is_err());

    let mut wrong_param = wire::encode_port_set_param(&PortSetParam {
        direction: Direction::Output,
        port_id: 0,
        param_id: wire::SPA_PARAM_FORMAT,
        flags: 0,
        param: None,
    })
    .unwrap();
    wrong_param[48..52].copy_from_slice(&3_u32.to_le_bytes());
    assert!(wire::decode_event(
        wire::EVENT_PORT_SET_PARAM,
        &wrong_param,
        &mut frame_fds(vec![]),
        Limits::default()
    )
    .is_err());

    let mut payload = wire::encode_transport(0, 1, RegionRef { memory_id: 4, offset: 0, size: 8 })
        .unwrap();
    payload[64..68].copy_from_slice(&(u32::MAX - 2).to_le_bytes());
    assert!(wire::decode_event(
        wire::EVENT_TRANSPORT,
        &payload,
        &mut frame_fds(vec!["one", "two"]),
        Limits::default()
    )
    .is_err());

    for carried in [1usize, 3] {
        let tokens: Vec<&'static str> = ["a", "b", "c"][..carried].to_vec();
        let mut fds = frame_fds(tokens);
        assert_eq!(
            wire::decode_event(
                wire::EVENT_TRANSPORT,
                &wire::encode_transport(0, 1, RegionRef { memory_id: 4, offset: 0, size: 2312 })
                    .unwrap(),
                &mut fds,
                Limits::default()
            )
            .err(),
            Some(WireError::InvalidDescriptors)
        );
        for index in 0..carried {
            assert!(fds.get(index as u32).is_ok());
        }
    }

    assert!(wire::decode_event(
        wire::EVENT_TRANSPORT,
        &wire::encode_transport(0, 0, RegionRef { memory_id: 4, offset: 0, size: 2312 }).unwrap(),
        &mut frame_fds(vec!["one", "two"]),
        Limits::default()
    )
    .is_err());

    assert!(wire::decode_event(
        wire::EVENT_TRANSPORT,
        &wire::encode_transport(0, 2, RegionRef { memory_id: 4, offset: 0, size: 2312 }).unwrap(),
        &mut frame_fds(vec!["one", "two"]),
        Limits::default(),
    )
    .is_err());

    assert!(wire::decode_event(
        wire::EVENT_COMMAND,
        &wire::encode_command(Command::Start).unwrap(),
        &mut frame_fds(vec!["unexpected"]),
        Limits::default(),
    )
    .is_err());
}

#[test]
fn unknown_event_is_frame_local_and_drops_its_descriptors() {
    let mut fds = frame_fds(vec!["writer"]);
    let error = wire::decode_event(255, &[0xff], &mut fds, Limits::default()).err().unwrap();
    assert_eq!(error.kind(), ErrorKind::Unsupported);
    assert_eq!(fds.len(), 1);

    let payload = wire::encode_command(Command::Start).unwrap();
    let mut next_fds = frame_fds(vec![]);
    assert!(matches!(
        wire::decode_event(wire::EVENT_COMMAND, &payload, &mut next_fds, Limits::default()),
        Ok(Event::Command(Command::Start))
    ));
}

#[test]
fn set_active_false_differs_from_true_in_its_boolean_only() {
    let on = wire::encode_method(&Method::SetActive(SetActive { active: true })).unwrap();
    let off = wire::encode_method(&Method::SetActive(SetActive { active: false })).unwrap();
    assert_eq!(on.len(), off.len());
    let differing: Vec<usize> = (0..on.len()).filter(|&i| on[i] != off[i]).collect();
    assert_eq!(differing, vec![16]);
}

#[test]
fn unknown_method_opcode_is_unsupported() {
    let error = wire::decode_method(9, &[], Limits::default()).err().unwrap();
    assert_eq!(error, WireError::UnknownOpcode(9));
    assert_eq!(error.kind(), ErrorKind::Unsupported);
}
