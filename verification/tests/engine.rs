use rustybackup::backup::{
    advance, advance_checked, run_backup, start_backup, take_up, Action, BackupRun, Event, Failure,
    Phase, Resumption, TempBackup,
};
use rustybackup::config::{BackupOptions, BackupPaths, Config};
use rustybackup::retention::read_candidate;
use rustybackup::state::{BackupState, Elapsed, Timestamp};

const STAMP: &str = "2024-05-06T07-08-09";

fn config() -> Config {
    Config {
        paths: BackupPaths { includes: vec!["/src".to_string()], exclude: vec![] },
        backup: BackupOptions { destination: "/configured".to_string(), max_versions: Some(1) },
    }
}

fn at(secs: i64) -> Timestamp {
    Timestamp { secs, nanos: 0 }
}

fn begin(state: BackupState, files: &[&str]) -> BackupRun {
    let progress = TempBackup::new(files.iter().map(|s| s.to_string()).collect());
    start_backup(config(), "/dest".to_string(), state, progress)
}

fn step(run: &mut BackupRun, event: Event) -> Action {
    advance(run, event, STAMP, at(1000))
}

/// Plays a run to its end against a destination in which `existing` final
/// paths are taken and `missing` sources are gone; returns what was asked.
fn play(run: &mut BackupRun, existing: &[&str], missing: &[&str]) -> Vec<Action> {
    let mut asked = Vec::new();
    let mut event = Event::Start;
    for _ in 0..1000 {
        let action = step(run, event);
        event = match &action {
            Action::ProbeSource(path) => Event::Probed(!missing.contains(&path.as_str())),
            Action::ProbeDestination(path) => Event::Probed(existing.contains(&path.as_str())),
            Action::Copy { .. } => Event::Copied(10),
            Action::Done | Action::Abort(..) => {
                asked.push(action);
                return asked;
            }
            _ => Event::Succeeded,
        };
        asked.push(action);
    }
    panic!("the run does not end");
}

fn copies(asked: &[Action]) -> usize {
    asked.iter().filter(|a| matches!(a, Action::Copy { .. })).count()
}

#[test]
fn a_new_record_has_everything_pending() {
    let progress = TempBackup::new(vec!["/src/a".to_string()]);
    assert_eq!(progress.status.state, "in_progress");
    assert_eq!(progress.incomplete.files, vec!["/src/a".to_string()]);
    assert!(progress.completed.files.is_empty());
    assert!(progress.failed.files.is_empty());
    assert_eq!(progress.bytes_copied, 0);
    assert_eq!(progress.duration, Elapsed { secs: 0, nanos: 0 });
    assert_eq!(progress.timestamp, Timestamp { secs: 0, nanos: 0 });
    assert_eq!(progress.snapshot_id, 0);
    assert!(progress.is_resumable());
    assert!(progress.is_consistent());
}

#[test]
fn only_records_in_progress_are_resumed() {
    let mut progress = TempBackup::new(vec![]);
    assert!(progress.is_resumable());
    progress.status.state = "completed".to_string();
    assert!(!progress.is_resumable());
    progress.status.state = "".to_string();
    assert!(!progress.is_resumable());
}

#[test]
fn inconsistent_records_are_told_apart() {
    let files = vec!["/src/a".to_string(), "/src/b".to_string()];
    let mut both = TempBackup::new(files.clone());
    both.completed.files.push("/src/a".to_string());
    both.failed.files.push("/src/a".to_string());
    assert!(!both.is_consistent());

    let mut twice = TempBackup::new(files.clone());
    twice.completed.files.push("/src/a".to_string());
    twice.completed.files.push("/src/a".to_string());
    assert!(!twice.is_consistent());

    let mut failed_twice = TempBackup::new(files.clone());
    failed_twice.failed.files.push("/src/b".to_string());
    failed_twice.failed.files.push("/src/b".to_string());
    assert!(!failed_twice.is_consistent());

    let mut stranger = TempBackup::new(files.clone());
    stranger.completed.files.push("/src/c".to_string());
    assert!(!stranger.is_consistent());

    let mut failed_stranger = TempBackup::new(files.clone());
    failed_stranger.failed.files.push("/src/c".to_string());
    assert!(!failed_stranger.is_consistent());

    let mut fine = TempBackup::new(files);
    fine.completed.files.push("/src/a".to_string());
    fine.failed.files.push("/src/b".to_string());
    assert!(fine.is_consistent());
}

#[test]
fn a_file_is_copied_to_a_sibling_and_renamed() {
    let mut run = begin(BackupState::default(), &["/src/a/report.txt"]);
    assert_eq!(run.phase, Phase::Ready);
    assert_eq!(step(&mut run, Event::Start), Action::ProbeSource("/src/a/report.txt".to_string()));
    assert_eq!(run.started, at(1000));
    assert_eq!(step(&mut run, Event::Probed(true)), Action::CreateDirs("/dest/-src/a".to_string()));
    assert_eq!(
        step(&mut run, Event::Succeeded),
        Action::ProbeDestination("/dest/-src/a/report.txt".to_string())
    );
    assert_eq!(
        step(&mut run, Event::Probed(false)),
        Action::Copy {
            from: "/src/a/report.txt".to_string(),
            to: "/dest/-src/a/report.txt.part".to_string()
        }
    );
    assert!(run.progress.completed.files.is_empty());
    assert_eq!(
        step(&mut run, Event::Copied(1234)),
        Action::Rename {
            from: "/dest/-src/a/report.txt.part".to_string(),
            to: "/dest/-src/a/report.txt".to_string()
        }
    );
    assert_eq!(run.progress.bytes_copied, 1234);
    assert!(run.progress.completed.files.is_empty());
    assert_eq!(step(&mut run, Event::Succeeded), Action::SaveProgress);
    assert_eq!(run.progress.completed.files, vec!["/src/a/report.txt".to_string()]);
    assert_eq!(run.phase, Phase::AwaitSaved);
    assert_eq!(advance(&mut run, Event::Succeeded, STAMP, at(1003)), Action::SaveProgress);
    assert_eq!(run.phase, Phase::AwaitFinalSaved);
    assert_eq!(run.progress.status.state, "in_progress");
    assert_eq!(run.progress.timestamp, at(1003));
    assert_eq!(run.progress.duration, Elapsed { secs: 3, nanos: 0 });
    assert_eq!(step(&mut run, Event::Succeeded), Action::SaveState);
    assert_eq!(run.state.latest.snapshot_id, "1");
    assert_eq!(run.state.latest.destination, "/configured");
    assert_eq!(run.state.latest.timestamp, at(1003));
    assert_eq!(run.state.stats.len(), 1);
    assert_eq!(run.state.stats[0].files_synced, 1);
    assert_eq!(run.state.stats[0].bytes_copied, 1234);
    assert_eq!(run.state.stats[0].duration_ms, 3000);
    assert_eq!(step(&mut run, Event::Succeeded), Action::RemoveProgress);
    assert_eq!(step(&mut run, Event::Succeeded), Action::Done);
    assert_eq!(run.phase, Phase::Finished);
    assert_eq!(step(&mut run, Event::Start), Action::Done);
}

#[test]
fn an_existing_destination_file_moves_to_history_first() {
    let mut run = begin(BackupState::default(), &["/src/report.txt"]);
    step(&mut run, Event::Start);
    step(&mut run, Event::Probed(true));
    assert_eq!(
        step(&mut run, Event::Succeeded),
        Action::ProbeDestination("/dest/-src/report.txt".to_string())
    );
    assert_eq!(
        step(&mut run, Event::Probed(true)),
        Action::CreateDirs("/dest/History/-src".to_string())
    );
    assert_eq!(
        step(&mut run, Event::Succeeded),
        Action::Rename {
            from: "/dest/-src/report.txt".to_string(),
            to: "/dest/History/-src/report_2024-05-06T07-08-09.txt".to_string()
        }
    );
    assert_eq!(
        step(&mut run, Event::Succeeded),
        Action::Copy {
            from: "/src/report.txt".to_string(),
            to: "/dest/-src/report.txt.part".to_string()
        }
    );
    assert_eq!(
        step(&mut run, Event::Copied(5)),
        Action::Rename {
            from: "/dest/-src/report.txt.part".to_string(),
            to: "/dest/-src/report.txt".to_string()
        }
    );
}

#[test]
fn exactly_one_history_entry_per_overwrite() {
    let mut run = begin(BackupState::default(), &["/src/report.txt"]);
    let asked = play(&mut run, &["/dest/-src/report.txt"], &[]);
    let to_history: Vec<&Action> = asked
        .iter()
        .filter(|a| matches!(a, Action::Rename { to, .. } if to.starts_with("/dest/History/")))
        .collect();
    assert_eq!(to_history.len(), 1);
    assert_eq!(copies(&asked), 1);
    assert_eq!(asked.last(), Some(&Action::Done));
}

#[test]
fn the_clock_stamps_history_names_that_retention_reads() {
    let mut run = begin(BackupState::default(), &["/src/report.txt"]);
    assert_eq!(run_backup(&mut run, Event::Start), Action::ProbeSource("/src/report.txt".to_string()));
    assert!(run.started.secs > 1_600_000_000);
    run_backup(&mut run, Event::Probed(true));
    run_backup(&mut run, Event::Succeeded);
    run_backup(&mut run, Event::Probed(true));
    match run_backup(&mut run, Event::Succeeded) {
        Action::Rename { from, to } => {
            assert_eq!(from, "/dest/-src/report.txt");
            assert!(to.starts_with("/dest/History/-src/report_"));
            assert!(to.ends_with(".txt"));
            assert!(!to.contains('%'));
            let (version, stamp) = read_candidate(&to).expect("a version name");
            assert_eq!(version.key, "/dest/History/-src/report.txt");
            assert_eq!(stamp.len(), 19);
            assert!(version.moment > 2024_01_01_00_00_00);
        }
        other => panic!("unexpected action {:?}", other),
    }
}

#[test]
fn a_vanished_source_is_recorded_as_failed() {
    let mut run = begin(BackupState::default(), &["/src/gone", "/src/here"]);
    assert_eq!(step(&mut run, Event::Start), Action::ProbeSource("/src/gone".to_string()));
    assert_eq!(step(&mut run, Event::Probed(false)), Action::SaveProgress);
    assert_eq!(run.progress.failed.files, vec!["/src/gone".to_string()]);
    assert!(run.progress.completed.files.is_empty());
    assert_eq!(step(&mut run, Event::Succeeded), Action::ProbeSource("/src/here".to_string()));
}

#[test]
fn a_failed_copy_is_recorded_and_the_run_goes_on() {
    let mut run = begin(BackupState::default(), &["/src/a", "/src/b"]);
    step(&mut run, Event::Start);
    step(&mut run, Event::Probed(true));
    step(&mut run, Event::Succeeded);
    step(&mut run, Event::Probed(false));
    assert_eq!(step(&mut run, Event::Failed), Action::SaveProgress);
    assert_eq!(run.progress.failed.files, vec!["/src/a".to_string()]);
    assert_eq!(run.progress.bytes_copied, 0);
    assert_eq!(step(&mut run, Event::Succeeded), Action::ProbeSource("/src/b".to_string()));
    let asked = play_from(&mut run);
    assert_eq!(asked.last(), Some(&Action::Done));
    assert_eq!(run.progress.completed.files, vec!["/src/b".to_string()]);
    assert_eq!(run.progress.failed.files, vec!["/src/a".to_string()]);
    assert_eq!(run.state.stats[0].files_synced, 1);
}

fn play_from(run: &mut BackupRun) -> Vec<Action> {
    let mut asked = Vec::new();
    let mut event = Event::Probed(true);
    for _ in 0..1000 {
        let action = step(run, event);
        event = match &action {
            Action::ProbeSource(_) => Event::Probed(true),
            Action::ProbeDestination(_) => Event::Probed(false),
            Action::Copy { .. } => Event::Copied(10),
            Action::Done | Action::Abort(..) => {
                asked.push(action);
                return asked;
            }
            _ => Event::Succeeded,
        };
        asked.push(action);
    }
    panic!("the run does not end");
}

#[test]
fn structural_failures_abort_the_run() {
    let mut run = begin(BackupState::default(), &["/src/a/f.txt"]);
    step(&mut run, Event::Start);
    step(&mut run, Event::Probed(true));
    assert_eq!(
        step(&mut run, Event::Failed),
        Action::Abort(Failure::CreateDirectory, "/dest/-src/a".to_string())
    );
    assert_eq!(run.phase, Phase::Aborted);
    assert_eq!(run.progress.status.state, "in_progress");
    assert_eq!(step(&mut run, Event::Succeeded), Action::Abort(Failure::Protocol, "".to_string()));

    let mut run = begin(BackupState::default(), &["/src/a/f.txt"]);
    step(&mut run, Event::Start);
    step(&mut run, Event::Probed(true));
    step(&mut run, Event::Succeeded);
    step(&mut run, Event::Probed(true));
    assert_eq!(
        step(&mut run, Event::Failed),
        Action::Abort(Failure::CreateDirectory, "/dest/History/-src/a".to_string())
    );

    let mut run = begin(BackupState::default(), &["/src/a/f.txt"]);
    step(&mut run, Event::Start);
    step(&mut run, Event::Probed(true));
    step(&mut run, Event::Succeeded);
    step(&mut run, Event::Probed(true));
    step(&mut run, Event::Succeeded);
    assert_eq!(
        step(&mut run, Event::Failed),
        Action::Abort(Failure::MoveToHistory, "/dest/-src/a/f.txt".to_string())
    );

    let mut run = begin(BackupState::default(), &["/src/a/f.txt"]);
    step(&mut run, Event::Start);
    step(&mut run, Event::Probed(true));
    step(&mut run, Event::Succeeded);
    step(&mut run, Event::Probed(false));
    step(&mut run, Event::Copied(3));
    assert_eq!(
        step(&mut run, Event::Failed),
        Action::Abort(Failure::Publish, "/dest/-src/a/f.txt".to_string())
    );
    assert!(run.progress.completed.files.is_empty());

    let mut run = begin(BackupState::default(), &["/src/a/f.txt"]);
    step(&mut run, Event::Start);
    step(&mut run, Event::Probed(false));
    assert_eq!(
        step(&mut run, Event::Failed),
        Action::Abort(Failure::SaveProgress, "/src/a/f.txt".to_string())
    );
}

#[test]
fn failures_at_the_end_abort_the_run() {
    let mut run = begin(BackupState::default(), &[]);
    assert_eq!(step(&mut run, Event::Start), Action::SaveProgress);
    assert_eq!(step(&mut run, Event::Failed), Action::Abort(Failure::SaveProgress, "".to_string()));
    assert!(run.state.stats.is_empty());

    let mut run = begin(BackupState::default(), &[]);
    step(&mut run, Event::Start);
    assert_eq!(step(&mut run, Event::Succeeded), Action::SaveState);
    assert_eq!(step(&mut run, Event::Failed), Action::Abort(Failure::SaveState, "".to_string()));

    let mut run = begin(BackupState::default(), &[]);
    step(&mut run, Event::Start);
    step(&mut run, Event::Succeeded);
    assert_eq!(step(&mut run, Event::Succeeded), Action::RemoveProgress);
    assert_eq!(step(&mut run, Event::Failed), Action::Done);
    assert_eq!(run.phase, Phase::Finished);
}

#[test]
fn events_that_answer_nothing_abort_the_run() {
    let mut run = begin(BackupState::default(), &["/src/a"]);
    assert_eq!(step(&mut run, Event::Succeeded), Action::Abort(Failure::Protocol, "".to_string()));

    let mut run = begin(BackupState::default(), &["/src/a"]);
    step(&mut run, Event::Start);
    assert_eq!(
        step(&mut run, Event::Copied(1)),
        Action::Abort(Failure::Protocol, "/src/a".to_string())
    );

    let mut run = begin(BackupState::default(), &["/src/a"]);
    run.phase = Phase::AwaitCopy;
    run.cursor = 5;
    assert_eq!(step(&mut run, Event::Copied(1)), Action::Abort(Failure::Protocol, "".to_string()));
}

#[test]
fn a_resumed_run_skips_what_is_completed() {
    let mut progress = TempBackup::new(vec![
        "/src/a".to_string(),
        "/src/b".to_string(),
        "/src/c".to_string(),
    ]);
    progress.completed.files.push("/src/a".to_string());
    progress.completed.files.push("/src/b".to_string());
    progress.bytes_copied = 20;
    progress.snapshot_id = 4;
    let mut state = BackupState::default();
    state.latest.snapshot_id = "9".to_string();
    let mut run = start_backup(config(), "/dest".to_string(), state, progress);
    assert_eq!(run.progress.snapshot_id, 4);
    let asked = play(&mut run, &[], &[]);
    assert_eq!(copies(&asked), 1);
    assert_eq!(asked[0], Action::ProbeSource("/src/c".to_string()));
    assert_eq!(run.progress.bytes_copied, 30);
    assert_eq!(run.state.latest.snapshot_id, "4");
    assert_eq!(run.state.stats[0].files_synced, 3);
}

#[test]
fn a_resumed_run_tries_failed_files_again() {
    let mut progress = TempBackup::new(vec!["/src/a".to_string(), "/src/b".to_string()]);
    progress.failed.files.push("/src/a".to_string());
    progress.failed.files.push("/src/b".to_string());
    let mut run = start_backup(config(), "/dest".to_string(), BackupState::default(), progress);
    let asked = play(&mut run, &[], &["/src/b"]);
    assert_eq!(copies(&asked), 1);
    assert_eq!(run.progress.completed.files, vec!["/src/a".to_string()]);
    assert_eq!(run.progress.failed.files, vec!["/src/b".to_string()]);
    assert!(run.progress.is_consistent());
}

#[test]
fn a_completed_run_resumed_copies_nothing() {
    let mut progress = TempBackup::new(vec!["/src/a".to_string(), "/src/b".to_string()]);
    progress.completed.files.push("/src/b".to_string());
    progress.completed.files.push("/src/a".to_string());
    progress.snapshot_id = 2;
    let mut run = start_backup(config(), "/dest".to_string(), BackupState::default(), progress);
    let asked = play(&mut run, &[], &[]);
    assert_eq!(
        asked,
        vec![Action::SaveProgress, Action::SaveState, Action::RemoveProgress, Action::Done]
    );
    assert_eq!(run.state.latest.snapshot_id, "2");
}

#[test]
fn a_file_selected_twice_is_copied_once() {
    let mut run = begin(BackupState::default(), &["/src/a", "/src/a"]);
    let asked = play(&mut run, &[], &[]);
    assert_eq!(copies(&asked), 1);
    assert_eq!(run.progress.completed.files, vec!["/src/a".to_string()]);
}

#[test]
fn bytes_copied_saturate() {
    let mut run = begin(BackupState::default(), &["/src/a"]);
    run.progress.bytes_copied = u64::MAX - 5;
    step(&mut run, Event::Start);
    step(&mut run, Event::Probed(true));
    step(&mut run, Event::Succeeded);
    step(&mut run, Event::Probed(false));
    step(&mut run, Event::Copied(10));
    assert_eq!(run.progress.bytes_copied, u64::MAX);
}

#[test]
fn snapshot_ids_of_successive_runs_count_up() {
    let mut state = BackupState::default();
    let mut ids = Vec::new();
    let plans: [&[&str]; 3] = [&["/src/a", "/src/b"], &[], &["/src/c"]];
    for files in plans {
        let mut run = begin(state, files);
        let asked = play(&mut run, &[], &[]);
        assert_eq!(asked.last(), Some(&Action::Done));
        assert_eq!(copies(&asked), files.len());
        ids.push(run.state.latest.snapshot_id.clone());
        state = run.state;
    }
    assert_eq!(ids, vec!["1".to_string(), "2".to_string(), "3".to_string()]);
    assert_eq!(state.stats.len(), 3);
    assert_eq!(state.stats[0].files_synced, 1);
    assert_eq!(state.stats[1].files_synced, 0);
    assert_eq!(state.stats[2].files_synced, 2);
}

#[test]
fn a_second_run_without_changes_copies_nothing() {
    let mut first = begin(BackupState::default(), &["/src/a"]);
    let asked = play(&mut first, &[], &[]);
    assert_eq!(copies(&asked), 1);
    let mut second = begin(first.state, &[]);
    let asked = play(&mut second, &["/dest/-src/a"], &[]);
    assert_eq!(
        asked,
        vec![Action::SaveProgress, Action::SaveState, Action::RemoveProgress, Action::Done]
    );
    assert_eq!(second.progress.bytes_copied, 0);
}

#[test]
fn a_run_starts_from_what_is_found() {
    assert!(matches!(take_up(None), Resumption::Fresh));

    let mut finished = TempBackup::new(vec!["/src/a".to_string()]);
    finished.status.state = "completed".to_string();
    assert!(matches!(take_up(Some(finished)), Resumption::Fresh));

    let mut left = TempBackup::new(vec!["/src/a".to_string(), "/src/b".to_string()]);
    left.completed.files.push("/src/a".to_string());
    left.snapshot_id = 3;
    match take_up(Some(left)) {
        Resumption::Resume(progress) => {
            assert_eq!(progress.snapshot_id, 3);
            assert_eq!(progress.completed.files, vec!["/src/a".to_string()]);
            assert_eq!(progress.incomplete.files.len(), 2);
        }
        other => panic!("unexpected {:?}", other),
    }

    let mut broken = TempBackup::new(vec!["/src/a".to_string()]);
    broken.completed.files.push("/src/a".to_string());
    broken.failed.files.push("/src/a".to_string());
    assert!(matches!(take_up(Some(broken)), Resumption::Corrupt));

    let mut broken_but_over = TempBackup::new(vec!["/src/a".to_string()]);
    broken_but_over.completed.files.push("/src/zzz".to_string());
    broken_but_over.status.state = "done".to_string();
    assert!(matches!(take_up(Some(broken_but_over)), Resumption::Fresh));
}

#[test]
fn a_stamp_that_marks_no_version_ends_the_run() {
    for stamp in ["", "now", "+10000-01-01T00-00-00", "2024-13-01T00-00-00", "2024-01-01 00:00:00"] {
        let mut run = begin(BackupState::default(), &["/src/a"]);
        assert_eq!(
            advance_checked(&mut run, Event::Start, stamp, at(1)),
            Action::Abort(Failure::Clock, "".to_string()),
            "{:?}",
            stamp
        );
        assert_eq!(run.phase, Phase::Aborted);
        assert!(run.progress.completed.files.is_empty());
    }
    let mut run = begin(BackupState::default(), &["/src/a"]);
    assert_eq!(
        advance_checked(&mut run, Event::Start, STAMP, at(1)),
        Action::ProbeSource("/src/a".to_string())
    );
}

/// Carries out what a run asks for on files held in memory.
fn perform(disk: &mut std::collections::BTreeMap<String, Vec<u8>>, action: &Action) -> Event {
    match action {
        Action::ProbeSource(path) | Action::ProbeDestination(path) => {
            Event::Probed(disk.contains_key(path))
        }
        Action::Rename { from, to } => match disk.remove(from) {
            Some(content) => {
                disk.insert(to.clone(), content);
                Event::Succeeded
            }
            None => Event::Failed,
        },
        Action::Copy { from, to } => match disk.get(from).cloned() {
            Some(content) => {
                let size = content.len() as u64;
                disk.insert(to.clone(), content);
                Event::Copied(size)
            }
            None => Event::Failed,
        },
        _ => Event::Succeeded,
    }
}

#[test]
fn a_run_cut_short_before_the_rename_is_completed_by_the_next() {
    let mut disk = std::collections::BTreeMap::new();
    disk.insert("/src/a".to_string(), b"first".to_vec());
    disk.insert("/src/f".to_string(), b"new content".to_vec());
    disk.insert("/src/z".to_string(), b"last".to_vec());
    disk.insert("/dest/-src/f".to_string(), b"old content".to_vec());

    let mut run = begin(BackupState::default(), &["/src/a", "/src/f", "/src/z"]);
    let mut saved = TempBackup::new(vec![]);
    let mut event = Event::Start;
    loop {
        let action = step(&mut run, event);
        if action == Action::SaveProgress {
            saved = TempBackup::new(run.progress.incomplete.files.clone());
            saved.completed.files = run.progress.completed.files.clone();
            saved.failed.files = run.progress.failed.files.clone();
            saved.bytes_copied = run.progress.bytes_copied;
            saved.snapshot_id = run.progress.snapshot_id;
        }
        event = perform(&mut disk, &action);
        if matches!(&action, Action::Copy { from, .. } if from == "/src/f") {
            break;
        }
    }
    assert_eq!(saved.completed.files, vec!["/src/a".to_string()]);
    assert!(!disk.contains_key("/dest/-src/f"));
    assert_eq!(disk["/dest/-src/f.part"], b"new content".to_vec());
    assert_eq!(disk["/dest/History/-src/f_2024-05-06T07-08-09"], b"old content".to_vec());
    assert_eq!(disk["/dest/-src/a"], b"first".to_vec());

    let progress = match take_up(Some(saved)) {
        Resumption::Resume(progress) => progress,
        other => panic!("unexpected {:?}", other),
    };
    let mut next = start_backup(config(), "/dest".to_string(), BackupState::default(), progress);
    let mut event = Event::Start;
    let mut copied = Vec::new();
    loop {
        let action = step(&mut next, event);
        if let Action::Copy { from, .. } = &action {
            copied.push(from.clone());
        }
        if action == Action::Done {
            break;
        }
        assert!(!matches!(action, Action::Abort(..)));
        event = perform(&mut disk, &action);
    }
    assert_eq!(copied, vec!["/src/f".to_string(), "/src/z".to_string()]);
    assert_eq!(disk["/dest/-src/f"], b"new content".to_vec());
    assert_eq!(disk["/dest/-src/z"], b"last".to_vec());
    assert_eq!(disk["/src/f"], b"new content".to_vec());
    assert!(!disk.contains_key("/dest/-src/f.part"));
    assert_eq!(disk["/dest/History/-src/f_2024-05-06T07-08-09"], b"old content".to_vec());
    assert_eq!(next.progress.completed.files.len(), 3);
    assert!(next.progress.failed.files.is_empty());
    assert_eq!(next.state.latest.snapshot_id, "1");
}

#[test]
fn a_rename_that_was_not_recorded_is_done_again() {
    let mut disk = std::collections::BTreeMap::new();
    disk.insert("/src/f".to_string(), b"content".to_vec());
    disk.insert("/dest/-src/f".to_string(), b"content".to_vec());
    let mut run = begin(BackupState::default(), &["/src/f"]);
    let mut event = Event::Start;
    let mut asked = Vec::new();
    loop {
        let action = step(&mut run, event);
        if action == Action::Done {
            break;
        }
        event = perform(&mut disk, &action);
        asked.push(action);
    }
    assert_eq!(copies(&asked), 1);
    assert_eq!(disk["/dest/-src/f"], b"content".to_vec());
    assert_eq!(disk["/dest/History/-src/f_2024-05-06T07-08-09"], b"content".to_vec());
}
