use pipewire_native::memory::{mapping_window, MapWindow, WindowError};
use pipewire_native::config::{DATA_TYPE_DMA_BUF, DATA_TYPE_MEM_FD};
use pipewire_native::control::{Activation, ActivationRegion, MemoryType, RemoveMemEvent};
use pipewire_native::fixture::{CycleSnapshot, MemoryRole};
use pipewire_native::owner::WakeOutcome;
use pipewire_native::runtime::{CommandSendError, RuntimeDiagnostics, DEFAULT_COMMAND_CAPACITY};

#[test]
fn memory_type_uses_spa_data_type_values() {
    assert_eq!(MemoryType::from(DATA_TYPE_MEM_FD), MemoryType::MemFd);
    assert_eq!(MemoryType::from(DATA_TYPE_DMA_BUF), MemoryType::DmaBuf);
}

#[test]
fn memory_type_preserves_unhandled_values() {
    assert_eq!(MemoryType::from(0), MemoryType::Unknown(0));
    assert_eq!(MemoryType::from(99), MemoryType::Unknown(99));
}

#[test]
fn activation_region_converts_field_for_field() {
    let region = ActivationRegion { mem_id: 7, offset: 64, size: 2312 };
    assert_eq!(Activation::from(region), Activation { mem_id: 7, offset: 64, size: 2312 });
    assert_eq!(RemoveMemEvent { id: 3 }.id, 3);
}

#[test]
fn diagnostics_count_callbacks_missed_and_stale_wakes() {
    let mut diagnostics = RuntimeDiagnostics::new();
    diagnostics.record(WakeOutcome::Processed { drained: 3, missed: 2, produced: true });
    diagnostics.record(WakeOutcome::NotClaimed { drained: 2, missed: 1 });
    diagnostics.record(WakeOutcome::Stale { expected: 2, received: 1 });
    diagnostics.record(WakeOutcome::NoWake);
    diagnostics.record(WakeOutcome::NotRunning { drained: 4 });
    assert_eq!(
        diagnostics,
        RuntimeDiagnostics { callbacks: 1, missed_wakes: 3, stale_wakes: 1 }
    );
    assert_eq!(diagnostics, {
        let mut d = RuntimeDiagnostics::default();
        d.callbacks = 1;
        d.missed_wakes = 3;
        d.stale_wakes = 1;
        d
    });
    let mut wrapping = RuntimeDiagnostics { callbacks: u64::MAX, missed_wakes: u64::MAX, stale_wakes: 0 };
    wrapping.record(WakeOutcome::Processed { drained: 2, missed: 1, produced: false });
    assert_eq!(wrapping, RuntimeDiagnostics { callbacks: 0, missed_wakes: 0, stale_wakes: 0 });
    assert_eq!(DEFAULT_COMMAND_CAPACITY, 64);
    assert_ne!(CommandSendError::Full, CommandSendError::Closed);
}

#[test]
fn memory_roles_have_stable_ids_and_sizes() {
    let roles = [
        MemoryRole::OwnActivation,
        MemoryRole::Metadata,
        MemoryRole::Media,
        MemoryRole::Io,
        MemoryRole::PeerActivation,
    ];
    let ids: Vec<u32> = roles.iter().map(|role| role.id()).collect();
    assert_eq!(ids, vec![101, 102, 103, 104, 105]);
    let indices: Vec<usize> = roles.iter().map(|role| role.index()).collect();
    assert_eq!(indices, vec![0, 1, 2, 3, 4]);
    let sizes: Vec<usize> = roles.iter().map(|role| role.size()).collect();
    assert_eq!(sizes, vec![2312, 32, 128, 8, 2312]);
    let snapshot = CycleSnapshot::default();
    assert_eq!(snapshot.callbacks, 0);
    assert!(snapshot.media.is_empty());
}

#[test]
fn mapping_window_widens_to_the_page_and_checks_the_file() {
    assert_eq!(
        mapping_window(5000, 100, 8192, 4096),
        Ok(MapWindow { mapping_offset: 4096, logical_offset: 904, mapping_len: 1004 })
    );
    assert_eq!(mapping_window(0, 0, 8192, 4096), Err(WindowError::EmptyRegion));
    assert_eq!(mapping_window(usize::MAX, 1, 8192, 4096), Err(WindowError::Overflow));
    assert_eq!(mapping_window(8000, 200, 8192, 4096), Err(WindowError::BeyondFile));
    assert_eq!(mapping_window(0, 16, 8192, 0), Err(WindowError::ZeroPageSize));
}
