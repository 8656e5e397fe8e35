//! Snapshot journal events.

use wasmer_core::snapshot::{Snapshot0Clockid, SnapshotEffector, SnapshotLog};

#[test]
fn saving_appends_events_in_order() {
    let mut journal: Vec<SnapshotLog> = Vec::new();
    SnapshotEffector::save_clock_time_set(&mut journal, Snapshot0Clockid::Monotonic, 42)
        .unwrap();
    SnapshotEffector::save_fd_set_rights(&mut journal, 3, 0b101, 0b10).unwrap();
    assert_eq!(
        journal,
        vec![
            SnapshotLog::SetClockTime {
                clock_id: Snapshot0Clockid::Monotonic,
                time: 42,
            },
            SnapshotLog::FileDescriptorSetRights {
                fd: 3,
                fs_rights_base: 0b101,
                fs_rights_inheriting: 0b10,
            },
        ]
    );
}

#[test]
fn applying_a_successful_clock_set_is_ok() {
    assert!(SnapshotEffector::apply_clock_time_set(Snapshot0Clockid::Realtime, 7, 0).is_ok());
}

#[test]
fn applying_a_failed_clock_set_reports_the_clock() {
    let err =
        SnapshotEffector::apply_clock_time_set(Snapshot0Clockid::Realtime, 7, 28).unwrap_err();
    assert_eq!(
        err,
        "snapshot restore error: failed to set clock time (clock_id=Realtime, time=7) - errno 28"
    );
}

#[test]
fn applying_a_failed_rights_change_reports_the_descriptor() {
    let err = SnapshotEffector::apply_fd_set_rights(5, 1, 2, 8).unwrap_err();
    assert_eq!(
        err,
        "snapshot restore error: failed to duplicate file descriptor (fd=5, fs_rights_base=1, fs_rights_inheriting=2) - errno 8"
    );
    assert!(SnapshotEffector::apply_fd_set_rights(5, 1, 2, 0).is_ok());
}
