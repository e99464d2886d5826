use pipewire_native::frame::{FrameError, FrameFds};
use pipewire_native::message::{
    ClientRouter, ProxyKind, RouteError, Routed,
    ClientFooter, ClientFooterPayload, Connection, CoreFooter, CoreFooterPayload, CoreGeneration, InboundMessage, MessageError,
};
use pipewire_native::pod::{encode_pod_to_vec, Pod};
use pipewire_native::server::{encode_core_done_payload, CoreEvent, CORE_EVENT_DONE};
use pipewire_native::wire::{encode_command, Command, ErrorKind, Event, Limits, WireError, EVENT_COMMAND};

fn error<T>(r: Result<T, MessageError>) -> MessageError {
    match r {
        Err(e) => e,
        Ok(_) => panic!("expected an error"),
    }
}

fn footer(generations: &[(u32, i64)]) -> Vec<u8> {
    let mut items = Vec::new();
    for (opcode, generation) in generations {
        items.push(Pod::Id(*opcode));
        items.push(Pod::Struct(vec![Pod::Long(*generation)]));
    }
    encode_pod_to_vec(&Pod::Struct(items)).unwrap()
}

#[test]
fn fd_index_is_bounds_checked_without_consuming_valid_entry() {
    let mut message = InboundMessage::new(0, Vec::new(), FrameFds::new(vec!["fd"]));
    assert_eq!(message.take_fd(1), Err(FrameError::InvalidFdIndex { index: 1, count: 1 }));
    assert_eq!(message.take_fd(0), Ok("fd"));
}

#[test]
fn fd_index_can_transfer_ownership_only_once() {
    let mut message = InboundMessage::new(0, Vec::new(), FrameFds::new(vec!["fd"]));
    let fd = message.take_fd(0).unwrap();
    assert_eq!(message.take_fd(0), Err(FrameError::FdAlreadyTaken { index: 0 }));
    assert_eq!(fd, "fd");
}

#[test]
fn footers_decode_generation_payloads_and_their_size() {
    let bytes = footer(&[(0, 7), (0, -3)]);
    let (core, size) = CoreFooter::decode(&bytes).unwrap();
    assert_eq!(size, bytes.len());
    assert_eq!(
        core.payloads,
        vec![
            CoreFooterPayload::Generation(CoreGeneration { registry_generation: 7 }),
            CoreFooterPayload::Generation(CoreGeneration { registry_generation: -3 }),
        ]
    );
    let (client, size) = ClientFooter::decode(&bytes).unwrap();
    assert_eq!(size, bytes.len());
    assert_eq!(client.payloads.len(), 2);

    let mut longer = bytes.clone();
    longer.extend_from_slice(&footer(&[(0, 1)]));
    assert_eq!(CoreFooter::decode(&longer).unwrap().1, bytes.len());

    assert_eq!(CoreFooter::decode(&footer(&[(1, 7)])).unwrap_err(), MessageError::InvalidFooter);
    assert_eq!(CoreFooter::decode(&[1, 2, 3]).unwrap_err(), MessageError::InvalidFooter);
    let empty = footer(&[]);
    assert_eq!(CoreFooter::decode(&empty).unwrap().0.payloads.len(), 0);
    let mut footer_built = CoreFooter::new();
    footer_built.push(CoreFooterPayload::Generation(CoreGeneration { registry_generation: 7 }));
    assert_eq!(footer_built.payloads.len(), 1);
}

#[test]
fn client_node_event_keeps_its_core_footer() {
    let mut payload = encode_command(Command::Start).unwrap();
    let body_len = payload.len();
    payload.extend_from_slice(&footer(&[(0, 42)]));
    let mut message: InboundMessage<u32> = InboundMessage::new(EVENT_COMMAND, payload, FrameFds::new(Vec::new()));
    assert!(matches!(message.decode_client_node_event(Limits::default()), Ok(Event::Command(Command::Start))));
    assert_eq!(
        message.footer().unwrap().payloads,
        vec![CoreFooterPayload::Generation(CoreGeneration { registry_generation: 42 })]
    );

    let bare = encode_command(Command::Pause).unwrap();
    let mut message: InboundMessage<u32> = InboundMessage::new(EVENT_COMMAND, bare, FrameFds::new(Vec::new()));
    assert!(matches!(message.decode_client_node_event(Limits::default()), Ok(Event::Command(Command::Pause))));
    assert!(message.footer().is_none());

    let mut trailing = encode_command(Command::Start).unwrap();
    trailing.extend_from_slice(&footer(&[(0, 1)]));
    trailing.extend_from_slice(&[0; 8]);
    let mut message: InboundMessage<u32> = InboundMessage::new(EVENT_COMMAND, trailing, FrameFds::new(Vec::new()));
    assert_eq!(error(message.decode_client_node_event(Limits::default())), MessageError::TrailingBytes);

    let mut bad_footer = encode_command(Command::Start).unwrap();
    bad_footer.extend_from_slice(&[1, 2, 3]);
    let mut message: InboundMessage<u32> = InboundMessage::new(EVENT_COMMAND, bad_footer, FrameFds::new(Vec::new()));
    assert_eq!(error(message.decode_client_node_event(Limits::default())), MessageError::InvalidFooter);

    let mut message: InboundMessage<u32> = InboundMessage::new(EVENT_COMMAND, vec![1, 2], FrameFds::new(Vec::new()));
    assert_eq!(error(message.decode_client_node_event(Limits::default())), MessageError::BodyNotFound);

    let unknown = encode_command(Command::Start).unwrap();
    let mut message: InboundMessage<u32> = InboundMessage::new(99, unknown, FrameFds::new(Vec::new()));
    let refused = error(message.decode_client_node_event(Limits::default()));
    assert_eq!(refused, MessageError::Wire(WireError::UnknownOpcode(99)));
    assert_eq!(refused.kind(), ErrorKind::Unsupported);
    assert_eq!(MessageError::TrailingBytes.kind(), ErrorKind::InvalidData);
    assert!(body_len > 0);
}

fn core_footer(generations: &[i64]) -> CoreFooter {
    let mut f = CoreFooter::new();
    for g in generations {
        f.push(CoreFooterPayload::Generation(CoreGeneration { registry_generation: *g }));
    }
    f
}

fn echoed(f: &ClientFooter) -> Vec<i64> {
    f.payloads
        .iter()
        .map(|p| match p {
            ClientFooterPayload::Generation(g) => g.client_generation,
        })
        .collect()
}

#[test]
fn received_generation_is_echoed_once() {
    let mut c = Connection::new();
    assert!(c.outbound_footer().is_none());
    c.update_generation(Some(&core_footer(&[3, 7])));
    assert_eq!(c.last_recv_generation(), 7);
    let f = c.outbound_footer().expect("a newer generation is echoed");
    assert_eq!(echoed(&f), vec![7]);
    assert!(c.outbound_footer().is_none());
}

#[test]
fn footers_without_generations_keep_the_last_one() {
    let mut c = Connection::new();
    c.update_generation(Some(&core_footer(&[5])));
    c.update_generation(None);
    c.update_generation(Some(&core_footer(&[])));
    assert_eq!(c.last_recv_generation(), 5);
    // An older generation is recorded but not echoed again.
    let _ = c.outbound_footer();
    c.update_generation(Some(&core_footer(&[4])));
    assert_eq!(c.last_recv_generation(), 4);
    assert!(c.outbound_footer().is_none());
}

#[test]
fn disconnect_forgets_generations() {
    let mut c = Connection::new();
    c.update_generation(Some(&core_footer(&[9])));
    let _ = c.outbound_footer();
    c.disconnect();
    assert_eq!(c.last_recv_generation(), 0);
    c.update_generation(Some(&core_footer(&[2])));
    assert_eq!(echoed(&c.outbound_footer().unwrap()), vec![2]);
}

#[test]
fn router_routes_by_proxy_and_tracks_sequence_and_generation() {
    let mut router = ClientRouter::new();
    let done = encode_core_done_payload(0, 12).unwrap();

    let r = router.route_frame(5, CORE_EVENT_DONE, 3, &done, FrameFds::new(vec!["fd"])).unwrap();
    assert!(matches!(r, Routed::Ignored));
    assert_eq!(router.last_in_seq(), 0);

    let mut with_footer = done.clone();
    with_footer.extend_from_slice(&footer(&[(0, 42)]));
    match router.route_frame(0, CORE_EVENT_DONE, 4, &with_footer, FrameFds::new(vec!["fd"])).unwrap() {
        Routed::Core(CoreEvent::Done { id: 0, seq: 12 }, mut fds) => assert_eq!(fds.take(0), Ok("fd")),
        _ => panic!("expected Core::Done"),
    }
    assert_eq!(router.last_in_seq(), 4);
    assert_eq!(router.last_recv_generation(), 42);

    let r = router.route_frame(0, 9, 5, &done, FrameFds::new(Vec::<&str>::new())).unwrap();
    assert!(matches!(r, Routed::Unsupported { opcode: 9 }));
    assert_eq!(router.last_in_seq(), 5);

    let r = router.route_frame(0, CORE_EVENT_DONE, 6, &[1, 2, 3], FrameFds::new(Vec::<&str>::new()));
    assert!(matches!(r, Err(RouteError::Frame(MessageError::BodyNotFound))));
    assert_eq!(router.last_in_seq(), 5);

    router.add_proxy(2, ProxyKind::Other(7));
    let mut other = done.clone();
    other.extend_from_slice(&footer(&[(0, 50)]));
    match router.route_frame(2, 1, 7, &other, FrameFds::new(vec!["a", "b"])).unwrap() {
        Routed::Other { object_id: 2, kind: ProxyKind::Other(7), opcode: 1, body_len, fds } => {
            assert_eq!(body_len, done.len());
            assert_eq!(fds.len(), 2);
        }
        _ => panic!("expected an event for the other proxy"),
    }
    assert_eq!(router.last_in_seq(), 7);
    assert_eq!(router.last_recv_generation(), 50);
}
