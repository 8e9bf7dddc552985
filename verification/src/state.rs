//! The backup state record: what the last completed run left behind.

use crate::backup::{ProgressView, TempBackup};
use crate::config::Config;
use crate::text::{decimal, number_text, parse_number, parse_u64};
use vstd::prelude::*;

verus! {

/// A point in time: whole seconds since the Unix epoch, and the nanoseconds
/// past that second. Points compare by seconds first.
#[derive(Clone, Copy, Debug, PartialEq, Eq, Structural)]
pub struct Timestamp {
    pub secs: i64,
    pub nanos: u32,
}

/// A span of time, as whole seconds and the nanoseconds beyond them.
#[derive(Clone, Copy, Debug, PartialEq, Eq, Structural)]
pub struct Elapsed {
    pub secs: u64,
    pub nanos: u32,
}

impl Timestamp {
    /// Whether `self` lies strictly after `other`.
    pub open spec fn later_than(self, other: Timestamp) -> bool {
        self.secs > other.secs || (self.secs == other.secs && self.nanos > other.nanos)
    }

    /// The nanoseconds from `self` to `end`; negative where `end` is earlier.
    pub open spec fn nanos_until(self, end: Timestamp) -> int {
        (end.secs - self.secs) * 1_000_000_000 + (end.nanos - self.nanos)
    }

    /// The Unix epoch.
    pub fn epoch() -> (t: Timestamp)
        ensures
            t == (Timestamp { secs: 0, nanos: 0 }),
    {
        Timestamp { secs: 0, nanos: 0 }
    }

    /// Whether `self` lies strictly after `other`.
    pub fn is_after(&self, other: &Timestamp) -> (after: bool)
        ensures
            after == self.later_than(*other),
    {
        self.secs > other.secs || (self.secs == other.secs && self.nanos > other.nanos)
    }
}

impl Elapsed {
    /// The span from `start` to `end`: nothing where `end` is not later, and
    /// at most `u64::MAX` seconds.
    pub open spec fn spanning(start: Timestamp, end: Timestamp) -> Elapsed {
        let total = start.nanos_until(end);
        if total <= 0 {
            Elapsed { secs: 0, nanos: 0 }
        } else if total / 1_000_000_000 > u64::MAX {
            Elapsed { secs: u64::MAX, nanos: (total % 1_000_000_000) as u32 }
        } else {
            Elapsed { secs: (total / 1_000_000_000) as u64, nanos: (total % 1_000_000_000) as u32 }
        }
    }

    /// The whole milliseconds of the span, at most `u64::MAX`.
    pub open spec fn millis(self) -> u64 {
        let total = self.secs * 1000 + self.nanos / 1_000_000;
        if total > u64::MAX {
            u64::MAX
        } else {
            total as u64
        }
    }

    /// The empty span.
    pub fn zero() -> (e: Elapsed)
        ensures
            e == (Elapsed { secs: 0, nanos: 0 }),
    {
        Elapsed { secs: 0, nanos: 0 }
    }

    /// The span from `start` to `end`.
    pub fn between(start: &Timestamp, end: &Timestamp) -> (e: Elapsed)
        ensures
            e == Elapsed::spanning(*start, *end),
    {
        let total: i128 = (end.secs as i128 - start.secs as i128) * 1_000_000_000 + (
        end.nanos as i128 - start.nanos as i128);
        if total <= 0 {
            return Elapsed { secs: 0, nanos: 0 };
        }
        let secs: i128 = total / 1_000_000_000;
        let nanos: u32 = (total % 1_000_000_000) as u32;
        if secs > u64::MAX as i128 {
            Elapsed { secs: u64::MAX, nanos }
        } else {
            Elapsed { secs: secs as u64, nanos }
        }
    }

    /// The whole milliseconds of the span, at most `u64::MAX`.
    pub fn as_millis(&self) -> (ms: u64)
        ensures
            ms == self.millis(),
    {
        let total: u128 = self.secs as u128 * 1000 + (self.nanos / 1_000_000) as u128;
        if total > u64::MAX as u128 {
            u64::MAX
        } else {
            total as u64
        }
    }
}

/// The summary of the latest completed run.
#[derive(Debug)]
pub struct LatestBackup {
    pub timestamp: Timestamp,
    pub snapshot_id: String,
    pub destination: String,
}

/// The statistics of one completed run.
#[derive(Clone, Copy, Debug, PartialEq, Eq, Structural)]
pub struct BackupStats {
    pub timestamp: Timestamp,
    pub files_synced: u64,
    pub bytes_copied: u64,
    pub duration_ms: u64,
}

/// The backup state record of a destination.
#[derive(Debug)]
pub struct BackupState {
    pub latest: LatestBackup,
    /// Statistics of each completed run, newest first.
    pub stats: Vec<BackupStats>,
}

/// A backup state record as contracts see it.
pub struct StateView {
    pub timestamp: Timestamp,
    pub snapshot_id: Seq<char>,
    pub destination: Seq<char>,
    pub stats: Seq<BackupStats>,
}

impl View for BackupState {
    type V = StateView;

    open spec fn view(&self) -> StateView {
        StateView {
            timestamp: self.latest.timestamp,
            snapshot_id: self.latest.snapshot_id@,
            destination: self.latest.destination@,
            stats: self.stats@,
        }
    }
}

impl StateView {
    /// The record of a destination that no run has completed against.
    pub open spec fn initial() -> StateView {
        StateView {
            timestamp: Timestamp { secs: 0, nanos: 0 },
            snapshot_id: Seq::empty(),
            destination: Seq::empty(),
            stats: Seq::empty(),
        }
    }

    /// The snapshot id of the latest run as a number: what its text
    /// denotes, and 0 where it denotes nothing.
    pub open spec fn latest_id(self) -> u64 {
        match parse_u64(self.snapshot_id) {
            Some(n) => n,
            None => 0,
        }
    }

    /// The snapshot id that the next run gets.
    pub open spec fn next_id(self) -> u64 {
        if self.latest_id() == u64::MAX {
            u64::MAX
        } else {
            (self.latest_id() + 1) as u64
        }
    }

    /// The record after the run `progress` has been folded in: the run
    /// becomes the latest, and its statistics go to the front.
    pub open spec fn recorded(self, progress: ProgressView, destination: Seq<char>) -> StateView {
        StateView {
            timestamp: progress.timestamp,
            snapshot_id: decimal(progress.snapshot_id as nat),
            destination,
            stats: seq![run_stats(progress)] + self.stats,
        }
    }
}

/// How many files a list of `len` entries counts as in the statistics.
pub open spec fn count_of(len: nat) -> u64 {
    if len > u64::MAX {
        u64::MAX
    } else {
        len as u64
    }
}

/// The statistics of the run `progress`.
pub open spec fn run_stats(progress: ProgressView) -> BackupStats {
    BackupStats {
        timestamp: progress.timestamp,
        files_synced: count_of(progress.completed.len()),
        bytes_copied: progress.bytes_copied,
        duration_ms: progress.duration.millis(),
    }
}

impl Default for BackupStats {
    fn default() -> (stats: Self)
        ensures
            stats == (BackupStats {
                timestamp: Timestamp { secs: 0, nanos: 0 },
                files_synced: 0,
                bytes_copied: 0,
                duration_ms: 0,
            }),
    {
        BackupStats {
            timestamp: Timestamp::epoch(),
            files_synced: 0,
            bytes_copied: 0,
            duration_ms: 0,
        }
    }
}

impl Default for BackupState {
    fn default() -> (state: Self)
        ensures
            state@ == StateView::initial(),
    {
        BackupState {
            latest: LatestBackup {
                timestamp: Timestamp::epoch(),
                snapshot_id: String::new(),
                destination: String::new(),
            },
            stats: Vec::new(),
        }
    }
}

impl BackupState {
    /// Folds the finished run `progress` into the record.
    pub fn record_backup(&mut self, progress: &TempBackup, config: &Config)
        ensures
            final(self)@ == old(self)@.recorded(progress@, config@.destination),
    {
        self.latest.timestamp = progress.timestamp;
        self.latest.snapshot_id = number_text(progress.snapshot_id);
        self.latest.destination = config.backup.destination.clone();
        let synced: usize = progress.completed.files.len();
        let entry = BackupStats {
            timestamp: progress.timestamp,
            files_synced: if synced as u128 > u64::MAX as u128 {
                u64::MAX
            } else {
                synced as u64
            },
            bytes_copied: progress.bytes_copied,
            duration_ms: progress.duration.as_millis(),
        };
        self.stats.insert(0, entry);
        assert(self.stats@ =~= seq![entry] + old(self).stats@);
    }

    /// The snapshot id of the latest run as a number.
    pub fn latest_id(&self) -> (id: u64)
        ensures
            id == self@.latest_id(),
    {
        match parse_number(self.latest.snapshot_id.as_str()) {
            Some(n) => n,
            None => 0,
        }
    }

    /// The snapshot id that the next run gets.
    pub fn next_id(&self) -> (id: u64)
        ensures
            id == self@.next_id(),
    {
        self.latest_id().saturating_add(1)
    }
}

/// The record that a run starts from, and whether it has to be written
/// first: the one found at the destination, or a new one where none was
/// found.
pub fn load_or_init_state(found: Option<BackupState>) -> (out: (BackupState, bool))
    ensures
        match found {
            Some(state) => out.0 == state && !out.1,
            None => out.0@ == StateView::initial() && out.1,
        },
{
    match found {
        Some(state) => (state, false),
        None => (BackupState::default(), true),
    }
}

/// Recording a run and then asking for the next id gives the id after the
/// run's.
pub proof fn lemma_next_id_follows(state: StateView, progress: ProgressView, destination: Seq<char>)
    ensures
        state.recorded(progress, destination).latest_id() == progress.snapshot_id,
        progress.snapshot_id < u64::MAX ==> state.recorded(progress, destination).next_id()
            == progress.snapshot_id + 1,
{
    crate::text::lemma_parse_decimal(progress.snapshot_id);
}

/// A destination that no run has completed against gives its first run
/// the snapshot id 1.
pub proof fn lemma_first_id_is_one()
    ensures
        StateView::initial().latest_id() == 0,
        StateView::initial().next_id() == 1,
{
}

/// Snapshot ids count up: the record of a run that was given the next id
/// gives out the id after that.
pub proof fn lemma_ids_count_up(state: StateView, progress: ProgressView, destination: Seq<char>)
    requires
        progress.snapshot_id == state.next_id(),
        state.latest_id() < u64::MAX,
    ensures
        state.recorded(progress, destination).latest_id() == state.latest_id() + 1,
{
    lemma_next_id_follows(state, progress, destination);
}

} // verus!
