use pipewire_native::activation_abi as abi;
use pipewire_native::port_abi;

#[test]
fn c_abi_matches_generated_rust_layout() {
    assert_eq!(abi::SIZE, 2312);
    assert_eq!(abi::ALIGN, 8);
    assert_eq!(abi::STATUS, 0);
    assert_eq!(abi::STATE0_STATUS, 8);
    assert_eq!(abi::STATE0_REQUIRED, 12);
    assert_eq!(abi::STATE0_PENDING, 16);
    assert_eq!(abi::SIGNAL_TIME, 32);
    assert_eq!(abi::AWAKE_TIME, 40);
    assert_eq!(abi::FINISH_TIME, 48);
    assert_eq!(abi::CLIENT_VERSION, 540);
    assert_eq!(abi::SERVER_VERSION, 544);
}

#[test]
fn spa_port_abi_matches_public_layout() {
    assert_eq!(port_abi::IO_BUFFERS_SIZE, 8);
    assert_eq!(port_abi::IO_BUFFERS_ALIGN, 4);
    assert_eq!(port_abi::IO_STATUS, 0);
    assert_eq!(port_abi::IO_BUFFER_ID, 4);
    assert_eq!(port_abi::CHUNK_SIZE, 16);
    assert_eq!(port_abi::CHUNK_ALIGN, 4);
    assert_eq!(port_abi::CHUNK_OFFSET, 0);
    assert_eq!(port_abi::CHUNK_DATA_SIZE, 4);
    assert_eq!(port_abi::CHUNK_STRIDE, 8);
    assert_eq!(port_abi::CHUNK_FLAGS, 12);
}
