use pipewire_native::server::{
    decode_core_event, encode_core_error_payload, encode_core_info_payload, encode_core_remove_mem_payload,
    CoreEvent, CORE_EVENT_INFO, CORE_EVENT_REMOVE_MEM,
};
use pipewire_native::server::{
    apply_action, decode_core_add_mem_payload, decode_inbound_message, encode_core_done_payload,
    encode_core_get_registry_payload, encode_core_hello_payload, encode_core_sync_payload,
    marshal_method, play_step, Action, ClientMethod, CoreAddMemAction, CoreErrorAction, ExecutionState,
    Expectation, InboundMessage, MessageError, ScriptError, ScriptStep, SyncState, CORE_EVENT_ADD_MEM,
    CORE_EVENT_DONE, CORE_EVENT_ERROR, CORE_ID, CORE_METHOD_GET_REGISTRY, CORE_METHOD_SYNC,
    REGISTRY_EVENT_GLOBAL_REMOVE,
};

fn step(expect: Expectation, actions: Vec<Action>) -> ScriptStep {
    ScriptStep { expect, actions, name: None }
}

#[test]
fn sync_step_answers_done_with_the_observed_values() {
    let mut state = ExecutionState::default();
    let inbound = InboundMessage::CoreSync { id: 0, seq: 41 };
    let s = step(Expectation::CoreSync, vec![Action::SendCoreDoneFromLastSync]);
    let (events, closed) = play_step(&mut state, &s, CORE_ID, CORE_METHOD_SYNC, &inbound, 0).unwrap();
    assert!(!closed);
    assert_eq!(events.len(), 1);
    assert_eq!(events[0].object_id, CORE_ID);
    assert_eq!(events[0].opcode, CORE_EVENT_DONE);
    assert_eq!(events[0].payload, encode_core_done_payload(0, 41).unwrap());
    assert_eq!(events[0].memfd, None);
    assert_eq!(state.last_sync, Some(SyncState { id: 0, seq: 41 }));
    assert_eq!(state.completed_steps, 1);
}

#[test]
fn close_stops_the_remaining_actions() {
    let mut state = ExecutionState::default();
    let inbound = InboundMessage::CoreHello { version: 3 };
    let s = step(
        Expectation::Any,
        vec![
            Action::SendCoreDone { id: 1, seq: 2 },
            Action::CloseConnection,
            Action::SendCoreDone { id: 3, seq: 4 },
        ],
    );
    let (events, closed) = play_step(&mut state, &s, CORE_ID, 1, &inbound, 0).unwrap();
    assert!(closed);
    assert_eq!(events.len(), 1);
    assert_eq!(events[0].payload, encode_core_done_payload(1, 2).unwrap());
    assert_eq!(state.completed_steps, 1);
}

#[test]
fn refused_steps_leave_the_state() {
    let mut state = ExecutionState::default();
    let inbound = InboundMessage::CoreHello { version: 3 };
    let s = step(Expectation::CoreSync, vec![]);
    assert_eq!(play_step(&mut state, &s, CORE_ID, 1, &inbound, 0).unwrap_err(), ScriptError::Mismatch);
    assert_eq!(play_step(&mut state, &s, CORE_ID, 1, &inbound, 2).unwrap_err(), ScriptError::UnexpectedFds(2));
    assert_eq!(state, ExecutionState::default());
}

#[test]
fn registry_events_need_an_observed_registry() {
    let state = ExecutionState::default();
    let remove = Action::SendRegistryGlobalRemoveOnLastRegistry { id: 5 };
    assert_eq!(apply_action(&state, &remove).unwrap_err(), ScriptError::MissingRegistry);
    assert_eq!(
        apply_action(&state, &Action::SendCoreDoneFromLastSync).unwrap_err(),
        ScriptError::MissingSync
    );
    let mut state = ExecutionState::default();
    let inbound = InboundMessage::CoreGetRegistry { version: 3, new_id: 2 };
    let s = step(Expectation::CoreGetRegistry, vec![remove]);
    let (events, _) = play_step(&mut state, &s, CORE_ID, CORE_METHOD_GET_REGISTRY, &inbound, 0).unwrap();
    assert_eq!(events[0].object_id, 2);
    assert_eq!(events[0].opcode, REGISTRY_EVENT_GLOBAL_REMOVE);
}

#[test]
fn add_mem_action_carries_its_memfd() {
    let state = ExecutionState::default();
    let action = Action::SendCoreAddMem(CoreAddMemAction { id: 9, memory_type: 2, fd_index: 0, flags: 1, size: 4096 });
    let event = apply_action(&state, &action).unwrap().unwrap();
    assert_eq!(event.opcode, CORE_EVENT_ADD_MEM);
    assert_eq!(event.memfd, Some((9, 4096)));
    let payload = decode_core_add_mem_payload(&event.payload).unwrap();
    assert_eq!(payload.id, 9);
    assert_eq!(payload.flags, 1);
}

#[test]
fn error_with_nul_cannot_be_sent() {
    let state = ExecutionState::default();
    let action = Action::SendCoreError(CoreErrorAction { id: 0, seq: 1, res: -22, message: "bad\0".to_string() });
    assert_eq!(apply_action(&state, &action).unwrap_err(), ScriptError::Message(MessageError::Unencodable));
    let action = Action::SendCoreError(CoreErrorAction { id: 0, seq: 1, res: -22, message: "bad".to_string() });
    assert_eq!(apply_action(&state, &action).unwrap().unwrap().opcode, CORE_EVENT_ERROR);
}

#[test]
fn client_methods_encode_as_the_server_decodes() {
    let (op, payload) = marshal_method(&ClientMethod::Hello { version: 3 }).unwrap();
    assert_eq!(op, 1);
    assert_eq!(payload, encode_core_hello_payload(3).unwrap());
    let (op, payload) = marshal_method(&ClientMethod::Sync { id: 0, seq: 7 }).unwrap();
    assert_eq!(op, CORE_METHOD_SYNC);
    assert_eq!(payload, encode_core_sync_payload(0, 7).unwrap());
    assert_eq!(
        decode_inbound_message(CORE_ID, op, &payload).unwrap(),
        InboundMessage::CoreSync { id: 0, seq: 7 }
    );
    let (op, payload) = marshal_method(&ClientMethod::GetRegistry { version: 3, new_id: 2 }).unwrap();
    assert_eq!(op, CORE_METHOD_GET_REGISTRY);
    assert_eq!(payload, encode_core_get_registry_payload(3, 2).unwrap());
    let (op, _) = marshal_method(&ClientMethod::CreateObject {
        factory_name: "client-node".to_string(),
        type_: "PipeWire:Interface:ClientNode".to_string(),
        version: 6,
        props: vec![("node.name".to_string(), "x".to_string())],
        new_id: 3,
    })
    .unwrap();
    assert_eq!(op, 6);
    assert_eq!(marshal_method(&ClientMethod::Destroy { id: 3 }).unwrap().0, 7);
    assert_eq!(
        marshal_method(&ClientMethod::Error { id: 0, seq: 0, res: 0, message: "a\0".to_string() }).unwrap_err(),
        MessageError::Unencodable
    );
}

#[test]
fn core_events_decode_what_the_peer_encodes() {
    let done = decode_core_event(CORE_EVENT_DONE, &encode_core_done_payload(0, 12).unwrap()).unwrap();
    assert!(matches!(done, CoreEvent::Done { id: 0, seq: 12 }));
    let payload = encode_core_error_payload(3, 4, -22, "bad").unwrap();
    match decode_core_event(CORE_EVENT_ERROR, &payload).unwrap() {
        CoreEvent::Error { id, seq, res, message } => {
            assert_eq!((id, seq, res), (3, 4, -22));
            assert_eq!(message, "bad");
        }
        _ => panic!("expected Core::Error"),
    }
    let removed = decode_core_event(CORE_EVENT_REMOVE_MEM, &encode_core_remove_mem_payload(9).unwrap()).unwrap();
    assert!(matches!(removed, CoreEvent::RemoveMem { id: 9 }));
    let props = vec![("core.name".to_string(), "pipewire-0".to_string())];
    let payload = encode_core_info_payload(5, "u", "h", "1.0", "pipewire-0", &props).unwrap();
    match decode_core_event(CORE_EVENT_INFO, &payload).unwrap() {
        CoreEvent::Info { id, cookie, name, change_mask, .. } => {
            assert_eq!((id, cookie, change_mask), (CORE_ID, 5, 1));
            assert_eq!(name, "pipewire-0");
        }
        _ => panic!("expected Core::Info"),
    }
    let add = encode_core_add_mem_payload_for_test();
    assert!(matches!(decode_core_event(CORE_EVENT_ADD_MEM, &add).unwrap(), CoreEvent::AddMem(_)));
    assert!(matches!(decode_core_event(9, &add), Err(MessageError::UnknownOpcode(9))));
    assert!(matches!(decode_core_event(CORE_EVENT_DONE, &[1, 2, 3]), Err(MessageError::InvalidPayload)));
}

fn encode_core_add_mem_payload_for_test() -> Vec<u8> {
    pipewire_native::server::encode_core_add_mem_payload(1, 2, 0, 0).unwrap()
}
