use rustybackup::backup::{status, TempBackup};
use rustybackup::config::{BackupOptions, BackupPaths, Config};
use rustybackup::state::{
    load_or_init_state, BackupState, BackupStats, Elapsed, LatestBackup, Timestamp,
};

fn config(destination: &str) -> Config {
    Config {
        paths: BackupPaths { includes: vec![], exclude: vec![] },
        backup: BackupOptions { destination: destination.to_string(), max_versions: None },
    }
}

#[test]
fn init_creates_default_state() {
    let (state, created) = load_or_init_state(None);
    assert!(created);
    assert_eq!(state.latest.timestamp, Timestamp { secs: 0, nanos: 0 });
    assert_eq!(state.latest.snapshot_id, "");
    assert_eq!(state.latest.destination, "");
    assert_eq!(state.stats.len(), 0);
}

#[test]
fn a_found_state_is_taken_as_it_is() {
    let now = Timestamp { secs: 1_700_000_000, nanos: 5 };
    let found = BackupState {
        latest: LatestBackup {
            timestamp: now,
            snapshot_id: "abc123".into(),
            destination: "/tmp/backup".into(),
        },
        stats: vec![BackupStats { timestamp: now, files_synced: 1, bytes_copied: 2, duration_ms: 3 }],
    };
    let (state, created) = load_or_init_state(Some(found));
    assert!(!created);
    assert_eq!(state.latest.snapshot_id, "abc123");
    assert_eq!(state.latest.destination, "/tmp/backup");
    assert_eq!(state.latest.timestamp, now);
    assert_eq!(state.stats[0].files_synced, 1);
    assert_eq!(state.stats[0].bytes_copied, 2);
    assert_eq!(state.stats[0].duration_ms, 3);
}

#[test]
fn defaults_are_zero_valued() {
    let stats = BackupStats::default();
    assert_eq!(
        stats,
        BackupStats {
            timestamp: Timestamp { secs: 0, nanos: 0 },
            files_synced: 0,
            bytes_copied: 0,
            duration_ms: 0
        }
    );
    let state = BackupState::default();
    assert_eq!(state.latest.snapshot_id, "");
    assert!(state.stats.is_empty());
    assert_eq!(state.latest_id(), 0);
    assert_eq!(state.next_id(), 1);
}

#[test]
fn timestamps_compare_by_seconds_then_nanoseconds() {
    let a = Timestamp { secs: 10, nanos: 500 };
    assert!(Timestamp { secs: 11, nanos: 0 }.is_after(&a));
    assert!(Timestamp { secs: 10, nanos: 501 }.is_after(&a));
    assert!(!Timestamp { secs: 10, nanos: 500 }.is_after(&a));
    assert!(!Timestamp { secs: 10, nanos: 499 }.is_after(&a));
    assert!(!Timestamp { secs: 9, nanos: 999_999_999 }.is_after(&a));
    assert!(Timestamp { secs: 0, nanos: 0 }.is_after(&Timestamp { secs: -1, nanos: 999_999_999 }));
    assert_eq!(Timestamp::epoch(), Timestamp { secs: 0, nanos: 0 });
}

#[test]
fn elapsed_time_is_the_difference_of_two_points() {
    let start = Timestamp { secs: 100, nanos: 900_000_000 };
    let end = Timestamp { secs: 103, nanos: 100_000_000 };
    assert_eq!(Elapsed::between(&start, &end), Elapsed { secs: 2, nanos: 200_000_000 });
    assert_eq!(Elapsed::between(&end, &start), Elapsed { secs: 0, nanos: 0 });
    assert_eq!(Elapsed::between(&start, &start), Elapsed::zero());
    let early = Timestamp { secs: i64::MIN, nanos: 0 };
    let late = Timestamp { secs: i64::MAX, nanos: 999_999_999 };
    assert_eq!(Elapsed::between(&early, &late), Elapsed { secs: u64::MAX, nanos: 999_999_999 });
}

#[test]
fn milliseconds_round_down_and_saturate() {
    assert_eq!(Elapsed { secs: 2, nanos: 200_000_000 }.as_millis(), 2200);
    assert_eq!(Elapsed { secs: 0, nanos: 999_999 }.as_millis(), 0);
    assert_eq!(Elapsed { secs: 1, nanos: 1_999_999 }.as_millis(), 1001);
    assert_eq!(Elapsed { secs: u64::MAX, nanos: 0 }.as_millis(), u64::MAX);
    assert_eq!(Elapsed { secs: u64::MAX / 1000, nanos: 0 }.as_millis(), u64::MAX / 1000 * 1000);
}

#[test]
fn recording_a_run_makes_it_the_latest() {
    let mut state = BackupState::default();
    let mut progress = TempBackup::new(vec!["/src/a".to_string(), "/src/b".to_string()]);
    progress.completed.files.push("/src/a".to_string());
    progress.failed.files.push("/src/b".to_string());
    progress.bytes_copied = 4096;
    progress.duration = Elapsed { secs: 1, nanos: 500_000_000 };
    progress.timestamp = Timestamp { secs: 1_700_000_000, nanos: 42 };
    progress.snapshot_id = 7;
    state.record_backup(&progress, &config("/mnt/backup"));
    assert_eq!(state.latest.snapshot_id, "7");
    assert_eq!(state.latest.destination, "/mnt/backup");
    assert_eq!(state.latest.timestamp, Timestamp { secs: 1_700_000_000, nanos: 42 });
    assert_eq!(
        state.stats,
        vec![BackupStats {
            timestamp: Timestamp { secs: 1_700_000_000, nanos: 42 },
            files_synced: 1,
            bytes_copied: 4096,
            duration_ms: 1500
        }]
    );
    assert_eq!(state.latest_id(), 7);
    assert_eq!(state.next_id(), 8);

    progress.snapshot_id = 8;
    progress.bytes_copied = 1;
    state.record_backup(&progress, &config("/mnt/backup"));
    assert_eq!(state.stats.len(), 2);
    assert_eq!(state.stats[0].bytes_copied, 1);
    assert_eq!(state.stats[1].bytes_copied, 4096);
    assert_eq!(state.latest.snapshot_id, "8");
}

#[test]
fn an_unreadable_snapshot_id_counts_as_zero() {
    let mut state = BackupState::default();
    state.latest.snapshot_id = "abc123".into();
    assert_eq!(state.latest_id(), 0);
    assert_eq!(state.next_id(), 1);
    state.latest.snapshot_id = "41".into();
    assert_eq!(state.next_id(), 42);
}

#[test]
fn snapshot_ids_saturate() {
    let mut state = BackupState::default();
    state.latest.snapshot_id = u64::MAX.to_string();
    assert_eq!(state.latest_id(), u64::MAX);
    assert_eq!(state.next_id(), u64::MAX);
}

#[test]
fn status_reads_the_latest_run() {
    assert_eq!(status(&None), None);
    let fresh = status(&Some(BackupState::default())).unwrap();
    assert_eq!(fresh.snapshot_id, "");
    assert_eq!(fresh.stats, None);
    let now = Timestamp { secs: 5, nanos: 6 };
    let older = BackupStats { timestamp: Timestamp::epoch(), files_synced: 9, bytes_copied: 9, duration_ms: 9 };
    let newest = BackupStats { timestamp: now, files_synced: 1, bytes_copied: 2, duration_ms: 3 };
    let state = BackupState {
        latest: LatestBackup { timestamp: now, snapshot_id: "12".into(), destination: "/d".into() },
        stats: vec![newest, older],
    };
    let summary = status(&Some(state)).unwrap();
    assert_eq!(summary.timestamp, now);
    assert_eq!(summary.snapshot_id, "12");
    assert_eq!(summary.destination, "/d");
    assert_eq!(summary.stats, Some(newest));
}
