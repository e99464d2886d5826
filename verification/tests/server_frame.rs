use pipewire_native::frame::FrameError;
use pipewire_native::server::{
    decode_core_add_mem_payload, decode_inbound_message, encode_core_add_mem_payload,
    encode_core_sync_payload, InboundMessage, NativeHeader, CORE_ID, CORE_METHOD_SYNC,
};

#[test]
fn roundtrip_header_encoding() {
    let header = NativeHeader {
        object_id: 42,
        opcode: 7,
        payload_size: 1234,
        seq: 9001,
        n_fds: 2,
    };

    let bytes = header.encode().unwrap();
    let decoded = NativeHeader::decode(bytes);
    assert_eq!(decoded, header);
}

#[test]
fn native_header_rejects_oversized_payload() {
    let header = NativeHeader {
        object_id: 1,
        opcode: 1,
        payload_size: 0x0100_0000,
        seq: 0,
        n_fds: 0,
    };
    assert_eq!(
        header.encode(),
        Err(FrameError::PayloadTooLarge {
            declared: 0x0100_0000,
            limit: 0x00ff_ffff
        })
    );
}

#[test]
fn decodes_core_sync_payload() {
    let payload = encode_core_sync_payload(11, 22).unwrap();
    let msg = decode_inbound_message(CORE_ID, CORE_METHOD_SYNC, &payload).unwrap();

    assert_eq!(msg, InboundMessage::CoreSync { id: 11, seq: 22 });
}

#[test]
fn roundtrip_core_add_mem_payload() {
    let mem_fd: u32 = 2;
    let payload = encode_core_add_mem_payload(9, mem_fd, 2, 5).unwrap();
    let decoded = decode_core_add_mem_payload(payload.as_slice()).unwrap();

    assert_eq!(decoded.id, 9);
    assert_eq!(decoded.memory_type, mem_fd);
    assert_eq!(decoded.fd_index, 2);
    assert_eq!(decoded.flags, 5);
}
