//! The transfer progress record and the backup engine.

use crate::clock::local_now;
use crate::config::{Config, ConfigView};
use crate::journal::{
    changed, changed_once, first_invalid, listing_views, patterns_usable, saturating_sum,
    select_changed, total_size, ExcludeSet, JournalError, RootListing, ScanReport,
};
use crate::paths::{
    destination_chars, destination_of, history_dir_chars, history_dir_of, history_path_chars,
    history_path_of, parent_chars, parent_of, temp_chars, temp_of,
};
use crate::retention::{
    is_usable_stamp, pruned_indices, pruned_paths, read_version, select_prunable, usable_stamp,
    version_views, versions_of, Version,
};
use crate::state::{BackupState, BackupStats, Elapsed, StateView, Timestamp};
use crate::text::{chars_of, contains_text, same_text, string_of, texts};
use vstd::prelude::*;

verus! {

/// The state of a run.
#[derive(Debug)]
pub struct Status {
    pub state: String,
}

/// A list of source files.
#[derive(Debug)]
pub struct FileList {
    pub files: Vec<String>,
}

/// The transfer progress record of one run.
#[derive(Debug)]
pub struct TempBackup {
    pub status: Status,
    /// Every file selected for the run.
    pub incomplete: FileList,
    pub completed: FileList,
    pub failed: FileList,
    pub bytes_copied: u64,
    pub duration: Elapsed,
    pub timestamp: Timestamp,
    pub snapshot_id: u64,
}

/// A transfer progress record as contracts see it.
pub struct ProgressView {
    pub state: Seq<char>,
    pub selected: Seq<Seq<char>>,
    pub completed: Seq<Seq<char>>,
    pub failed: Seq<Seq<char>>,
    pub bytes_copied: u64,
    pub duration: Elapsed,
    pub timestamp: Timestamp,
    pub snapshot_id: u64,
}

impl View for TempBackup {
    type V = ProgressView;

    open spec fn view(&self) -> ProgressView {
        ProgressView {
            state: self.status.state@,
            selected: texts(self.incomplete.files@),
            completed: texts(self.completed.files@),
            failed: texts(self.failed.files@),
            bytes_copied: self.bytes_copied,
            duration: self.duration,
            timestamp: self.timestamp,
            snapshot_id: self.snapshot_id,
        }
    }
}

/// The state text of a run that has not been cleaned up.
pub open spec fn in_progress() -> Seq<char> {
    "in_progress"@
}

impl ProgressView {
    /// The record of a run that has `files` to transfer and has done
    /// nothing yet.
    pub open spec fn fresh(files: Seq<Seq<char>>) -> ProgressView {
        ProgressView {
            state: in_progress(),
            selected: files,
            completed: Seq::empty(),
            failed: Seq::empty(),
            bytes_copied: 0,
            duration: Elapsed { secs: 0, nanos: 0 },
            timestamp: Timestamp { secs: 0, nanos: 0 },
            snapshot_id: 0,
        }
    }

    /// Whether the record is one that a run can leave behind: no file is
    /// listed twice as completed or as failed, none is both, and each was
    /// selected.
    pub open spec fn consistent(self) -> bool {
        &&& self.completed.no_duplicates()
        &&& self.failed.no_duplicates()
        &&& forall|p: Seq<char>| !(self.completed.contains(p) && self.failed.contains(p))
        &&& forall|p: Seq<char>| #[trigger] self.completed.contains(p) ==> self.selected.contains(p)
        &&& forall|p: Seq<char>| #[trigger] self.failed.contains(p) ==> self.selected.contains(p)
    }

    /// Whether a run that finds the record resumes it.
    pub open spec fn resumable(self) -> bool {
        self.state == in_progress()
    }
}

impl TempBackup {
    /// The record of a run that has `files` to transfer.
    pub fn new(files: Vec<String>) -> (progress: TempBackup)
        ensures
            progress@ == ProgressView::fresh(texts(files@)),
    {
        let progress = TempBackup {
            status: Status { state: "in_progress".to_owned() },
            incomplete: FileList { files },
            completed: FileList { files: Vec::new() },
            failed: FileList { files: Vec::new() },
            bytes_copied: 0,
            duration: Elapsed::zero(),
            timestamp: Timestamp::epoch(),
            snapshot_id: 0,
        };
        assert(progress@.completed =~= Seq::empty());
        assert(progress@.failed =~= Seq::empty());
        progress
    }
}

/// Where a run stands: what it has asked for and waits to hear of.
#[derive(Clone, Copy, Debug, PartialEq, Eq, Structural)]
pub enum Phase {
    /// Nothing has been asked yet.
    Ready,
    /// Whether the source is a regular file.
    AwaitSource,
    /// The directory of the final path.
    AwaitParent,
    /// Whether a file stands at the final path.
    AwaitDestination,
    /// The directory for the superseded version.
    AwaitHistoryDir,
    /// The move of the superseded version.
    AwaitHistoryMove,
    /// The copy to the temporary sibling.
    AwaitCopy,
    /// The rename of the temporary sibling onto the final path.
    AwaitPublish,
    /// The write of the progress record after a file.
    AwaitSaved,
    /// The write of the progress record after the last file.
    AwaitFinalSaved,
    /// The write of the state record.
    AwaitStateSaved,
    /// The removal of the progress record.
    AwaitCleanup,
    /// The run is over.
    Finished,
    /// The run was given up; its progress record stays for the next run.
    Aborted,
}

/// What the caller reports of the action it was asked for.
#[derive(Clone, Copy, Debug, PartialEq, Eq, Structural)]
pub enum Event {
    /// The run may begin.
    Start,
    /// The answer to a question about a path.
    Probed(bool),
    /// The action was done.
    Succeeded,
    /// The action could not be done.
    Failed,
    /// The copy was made, and had this many bytes.
    Copied(u64),
}

/// Why a run was given up.
#[derive(Clone, Copy, Debug, PartialEq, Eq, Structural)]
pub enum Failure {
    CreateDirectory,
    MoveToHistory,
    Publish,
    SaveProgress,
    SaveState,
    /// The clock gave a text that cannot mark a version.
    Clock,
    /// The event does not answer what was asked.
    Protocol,
}

/// What the caller is asked to do next.
#[derive(Debug, PartialEq, Eq)]
pub enum Action {
    /// Report whether the path is an existing regular file.
    ProbeSource(String),
    /// Create the directory and those above it.
    CreateDirs(String),
    /// Report whether anything stands at the path.
    ProbeDestination(String),
    /// Move `from` to `to`.
    Rename { from: String, to: String },
    /// Copy the contents of `from` to `to`, and report their size.
    Copy { from: String, to: String },
    /// Write the progress record of the run in place of the last one.
    SaveProgress,
    /// Write the state record of the run.
    SaveState,
    /// Remove the progress record. That it cannot be removed is no error.
    RemoveProgress,
    /// Nothing: the run is over.
    Done,
    /// Nothing: the run was given up, for this reason, at this path.
    Abort(Failure, String),
}

/// An action as contracts see it.
pub enum ActionView {
    ProbeSource(Seq<char>),
    CreateDirs(Seq<char>),
    ProbeDestination(Seq<char>),
    Rename { from: Seq<char>, to: Seq<char> },
    Copy { from: Seq<char>, to: Seq<char> },
    SaveProgress,
    SaveState,
    RemoveProgress,
    Done,
    Abort(Failure, Seq<char>),
}

impl View for Action {
    type V = ActionView;

    open spec fn view(&self) -> ActionView {
        match self {
            Action::ProbeSource(p) => ActionView::ProbeSource(p@),
            Action::CreateDirs(p) => ActionView::CreateDirs(p@),
            Action::ProbeDestination(p) => ActionView::ProbeDestination(p@),
            Action::Rename { from, to } => ActionView::Rename { from: from@, to: to@ },
            Action::Copy { from, to } => ActionView::Copy { from: from@, to: to@ },
            Action::SaveProgress => ActionView::SaveProgress,
            Action::SaveState => ActionView::SaveState,
            Action::RemoveProgress => ActionView::RemoveProgress,
            Action::Done => ActionView::Done,
            Action::Abort(failure, p) => ActionView::Abort(*failure, p@),
        }
    }
}

/// A backup run: the records it works on, the file it has reached, and
/// what it waits for.
#[derive(Debug)]
pub struct BackupRun {
    pub config: Config,
    /// The destination root that the files go below.
    pub destination: String,
    pub progress: TempBackup,
    pub state: BackupState,
    /// When the run was started or taken up again.
    pub started: Timestamp,
    /// The index of the selected file that the run has reached.
    pub cursor: usize,
    pub phase: Phase,
}

/// A backup run as contracts see it.
pub struct RunView {
    pub config: ConfigView,
    pub destination: Seq<char>,
    pub progress: ProgressView,
    pub state: StateView,
    pub started: Timestamp,
    pub cursor: nat,
    pub phase: Phase,
}

impl View for BackupRun {
    type V = RunView;

    open spec fn view(&self) -> RunView {
        RunView {
            config: self.config@,
            destination: self.destination@,
            progress: self.progress@,
            state: self.state@,
            started: self.started,
            cursor: self.cursor as nat,
            phase: self.phase,
        }
    }
}

/// The first index from `from` on whose file is not among `completed`; the
/// length of `selected` where there is none.
pub open spec fn next_pending(
    selected: Seq<Seq<char>>,
    completed: Seq<Seq<char>>,
    from: nat,
) -> nat
    decreases selected.len() - from,
{
    if from >= selected.len() {
        from
    } else if completed.contains(selected[from as int]) {
        next_pending(selected, completed, from + 1)
    } else {
        from
    }
}

/// `list` with `path` in it: at its end, unless it is there already.
pub open spec fn with_path(list: Seq<Seq<char>>, path: Seq<char>) -> Seq<Seq<char>> {
    if list.contains(path) {
        list
    } else {
        list.push(path)
    }
}

/// `list` without `path`.
pub open spec fn without_path(list: Seq<Seq<char>>, path: Seq<char>) -> Seq<Seq<char>> {
    list.filter(|p: Seq<char>| p != path)
}

impl RunView {
    /// The run that takes up `progress` against `state`: at the first file,
    /// with nothing asked. A record without a snapshot id gets the one after
    /// the latest run's.
    pub open spec fn begun(
        config: ConfigView,
        destination: Seq<char>,
        state: StateView,
        progress: ProgressView,
    ) -> RunView {
        RunView {
            config,
            destination,
            progress: ProgressView {
                snapshot_id: if progress.snapshot_id == 0 {
                    state.next_id()
                } else {
                    progress.snapshot_id
                },
                ..progress
            },
            state,
            started: Timestamp { secs: 0, nanos: 0 },
            cursor: 0,
            phase: Phase::Ready,
        }
    }

    /// Whether the run has reached a file.
    pub open spec fn at_file(self) -> bool {
        self.cursor < self.progress.selected.len()
    }

    /// The source file that the run has reached.
    pub open spec fn current(self) -> Seq<char> {
        self.progress.selected[self.cursor as int]
    }

    /// Where the copy of the current file goes.
    pub open spec fn final_path(self) -> Seq<char> {
        destination_of(self.destination, self.config.includes, self.current())
    }

    /// Where the copy of the current file is written first.
    pub open spec fn temp_path(self) -> Seq<char> {
        temp_of(self.final_path())
    }

    /// Where a superseded version of the current file is kept.
    pub open spec fn history_dir(self) -> Seq<char> {
        history_dir_of(self.destination, self.config.includes, self.current())
    }

    /// The path under which the version superseded at `stamp` is kept.
    pub open spec fn history_path(self, stamp: Seq<char>) -> Seq<char> {
        history_path_of(self.destination, self.config.includes, self.current(), stamp)
    }

    /// The run in another phase.
    pub open spec fn in_phase(self, phase: Phase) -> RunView {
        RunView { phase, ..self }
    }

    /// The run given up.
    pub open spec fn aborted(self, failure: Failure, path: Seq<char>) -> (RunView, ActionView) {
        (self.in_phase(Phase::Aborted), ActionView::Abort(failure, path))
    }

    /// The run with the current file recorded as failed.
    pub open spec fn with_failed(self) -> RunView {
        RunView {
            progress: ProgressView {
                failed: with_path(self.progress.failed, self.current()),
                ..self.progress
            },
            ..self
        }
    }

    /// The run with the current file recorded as completed, and no longer
    /// as failed.
    pub open spec fn with_completed(self) -> RunView {
        RunView {
            progress: ProgressView {
                completed: with_path(self.progress.completed, self.current()),
                failed: without_path(self.progress.failed, self.current()),
                ..self.progress
            },
            ..self
        }
    }

    /// The run once it has nothing to wait for: at the next file that is
    /// not completed, asking about its source; or, past the last file,
    /// closing the progress record at `now` and asking for it to be written.
    pub open spec fn proceed(self, now: Timestamp) -> (RunView, ActionView) {
        let at = next_pending(self.progress.selected, self.progress.completed, self.cursor);
        if at < self.progress.selected.len() {
            (
                RunView { cursor: at, phase: Phase::AwaitSource, ..self },
                ActionView::ProbeSource(self.progress.selected[at as int]),
            )
        } else {
            (
                RunView {
                    cursor: at,
                    phase: Phase::AwaitFinalSaved,
                    progress: ProgressView {
                        state: in_progress(),
                        duration: Elapsed::spanning(self.started, now),
                        timestamp: now,
                        ..self.progress
                    },
                    ..self
                },
                ActionView::SaveProgress,
            )
        }
    }

    /// The step of a run that is at a file: the transfer protocol.
    pub open spec fn advanced_file(self, event: Event, stamp: Seq<char>, now: Timestamp) -> (
        RunView,
        ActionView,
    ) {
        match (self.phase, event) {
            (Phase::AwaitSource, Event::Probed(true)) => (
                self.in_phase(Phase::AwaitParent),
                ActionView::CreateDirs(parent_of(self.final_path())),
            ),
            (Phase::AwaitSource, Event::Probed(false)) => (
                self.with_failed().in_phase(Phase::AwaitSaved),
                ActionView::SaveProgress,
            ),
            (Phase::AwaitParent, Event::Succeeded) => (
                self.in_phase(Phase::AwaitDestination),
                ActionView::ProbeDestination(self.final_path()),
            ),
            (Phase::AwaitParent, Event::Failed) => self.aborted(
                Failure::CreateDirectory,
                parent_of(self.final_path()),
            ),
            (Phase::AwaitDestination, Event::Probed(true)) => (
                self.in_phase(Phase::AwaitHistoryDir),
                ActionView::CreateDirs(self.history_dir()),
            ),
            (Phase::AwaitDestination, Event::Probed(false)) => (
                self.in_phase(Phase::AwaitCopy),
                ActionView::Copy { from: self.current(), to: self.temp_path() },
            ),
            (Phase::AwaitHistoryDir, Event::Succeeded) => (
                self.in_phase(Phase::AwaitHistoryMove),
                ActionView::Rename { from: self.final_path(), to: self.history_path(stamp) },
            ),
            (Phase::AwaitHistoryDir, Event::Failed) => self.aborted(
                Failure::CreateDirectory,
                self.history_dir(),
            ),
            (Phase::AwaitHistoryMove, Event::Succeeded) => (
                self.in_phase(Phase::AwaitCopy),
                ActionView::Copy { from: self.current(), to: self.temp_path() },
            ),
            (Phase::AwaitHistoryMove, Event::Failed) => self.aborted(
                Failure::MoveToHistory,
                self.final_path(),
            ),
            (Phase::AwaitCopy, Event::Copied(size)) => (
                RunView {
                    phase: Phase::AwaitPublish,
                    progress: ProgressView {
                        bytes_copied: saturating_sum(self.progress.bytes_copied, size),
                        ..self.progress
                    },
                    ..self
                },
                ActionView::Rename { from: self.temp_path(), to: self.final_path() },
            ),
            (Phase::AwaitCopy, Event::Failed) => (
                self.with_failed().in_phase(Phase::AwaitSaved),
                ActionView::SaveProgress,
            ),
            (Phase::AwaitPublish, Event::Succeeded) => (
                self.with_completed().in_phase(Phase::AwaitSaved),
                ActionView::SaveProgress,
            ),
            (Phase::AwaitPublish, Event::Failed) => self.aborted(
                Failure::Publish,
                self.final_path(),
            ),
            (Phase::AwaitSaved, Event::Succeeded) => RunView {
                cursor: self.cursor + 1,
                ..self
            }.proceed(now),
            (Phase::AwaitSaved, Event::Failed) => self.aborted(
                Failure::SaveProgress,
                self.current(),
            ),
            _ => self.aborted(Failure::Protocol, self.current()),
        }
    }

    /// The step of a run whose stamp was read from a clock: the step, where
    /// the stamp can mark a version; the run given up, where it cannot.
    pub open spec fn advanced_checked(self, event: Event, stamp: Seq<char>, now: Timestamp) -> (
        RunView,
        ActionView,
    ) {
        if usable_stamp(stamp) {
            self.advanced(event, stamp, now)
        } else {
            self.aborted(Failure::Clock, Seq::empty())
        }
    }

    /// The step of a run: the run after `event`, and what it asks for next.
    /// `stamp` is what a version superseded in this step is marked with, and
    /// `now` the time of the step: a run starts and closes at the time of
    /// the step that starts or closes it.
    pub open spec fn advanced(self, event: Event, stamp: Seq<char>, now: Timestamp) -> (
        RunView,
        ActionView,
    ) {
        match self.phase {
            Phase::Finished => (self, ActionView::Done),
            Phase::Aborted => (self, ActionView::Abort(Failure::Protocol, Seq::empty())),
            Phase::Ready => match event {
                Event::Start => RunView { started: now, ..self }.proceed(now),
                _ => self.aborted(Failure::Protocol, Seq::empty()),
            },
            Phase::AwaitFinalSaved => match event {
                Event::Succeeded => (
                    RunView {
                        state: self.state.recorded(self.progress, self.config.destination),
                        phase: Phase::AwaitStateSaved,
                        ..self
                    },
                    ActionView::SaveState,
                ),
                Event::Failed => self.aborted(Failure::SaveProgress, Seq::empty()),
                _ => self.aborted(Failure::Protocol, Seq::empty()),
            },
            Phase::AwaitStateSaved => match event {
                Event::Succeeded => (
                    self.in_phase(Phase::AwaitCleanup),
                    ActionView::RemoveProgress,
                ),
                Event::Failed => self.aborted(Failure::SaveState, Seq::empty()),
                _ => self.aborted(Failure::Protocol, Seq::empty()),
            },
            Phase::AwaitCleanup => match event {
                Event::Succeeded | Event::Failed => (
                    self.in_phase(Phase::Finished),
                    ActionView::Done,
                ),
                _ => self.aborted(Failure::Protocol, Seq::empty()),
            },
            _ => if self.at_file() {
                self.advanced_file(event, stamp, now)
            } else {
                self.aborted(Failure::Protocol, Seq::empty())
            },
        }
    }
}

impl TempBackup {
    /// Whether a run that finds the record resumes it.
    pub fn is_resumable(&self) -> (resumable: bool)
        ensures
            resumable == self@.resumable(),
    {
        same_text(self.status.state.as_str(), "in_progress")
    }

    /// Whether the record is one that a run can leave behind.
    pub fn is_consistent(&self) -> (consistent: bool)
        ensures
            consistent == self@.consistent(),
    {
        all_distinct(&self.completed.files) && all_distinct(&self.failed.files) && none_shared(
            &self.completed.files,
            &self.failed.files,
        ) && all_within(&self.completed.files, &self.incomplete.files) && all_within(
            &self.failed.files,
            &self.incomplete.files,
        )
    }
}

/// How a run starts, given the progress record found at the destination.
#[derive(Debug)]
pub enum Resumption {
    /// The record is of a run in progress: the run goes on with the files
    /// that the record selected.
    Resume(TempBackup),
    /// There is no record, or none of a run in progress: the run selects
    /// its files anew.
    Fresh,
    /// The record is of a run in progress and lists its files in a way no
    /// run leaves behind.
    Corrupt,
}

/// Decides how a run starts: it resumes a consistent record of a run in
/// progress, refuses an inconsistent one, and starts anew otherwise.
pub fn take_up(found: Option<TempBackup>) -> (out: Resumption)
    ensures
        match found {
            Some(progress) => if !progress@.resumable() {
                out is Fresh
            } else if progress@.consistent() {
                out == Resumption::Resume(progress)
            } else {
                out is Corrupt
            },
            None => out is Fresh,
        },
{
    match found {
        Some(progress) => {
            if !progress.is_resumable() {
                Resumption::Fresh
            } else if progress.is_consistent() {
                Resumption::Resume(progress)
            } else {
                Resumption::Corrupt
            }
        },
        None => Resumption::Fresh,
    }
}

fn all_distinct(list: &Vec<String>) -> (distinct: bool)
    ensures
        distinct == texts(list@).no_duplicates(),
{
    let ghost all = texts(list@);
    let mut i: usize = 0;
    while i < list.len()
        invariant
            i <= list.len(),
            all == texts(list@),
            forall|a: int, b: int| 0 <= a < b < all.len() && a < i ==> all[a] != all[b],
        decreases list.len() - i,
    {
        let mut j: usize = i + 1;
        while j < list.len()
            invariant
                i < j <= list.len(),
                all == texts(list@),
                forall|b: int| i < b < j ==> all[i as int] != all[b],
            decreases list.len() - j,
        {
            if list[i] == list[j] {
                assert(all[i as int] == all[j as int]);
                return false;
            }
            j += 1;
        }
        i += 1;
    }
    true
}

fn none_shared(a: &Vec<String>, b: &Vec<String>) -> (apart: bool)
    ensures
        apart == forall|p: Seq<char>| !(texts(a@).contains(p) && texts(b@).contains(p)),
{
    let mut i: usize = 0;
    while i < a.len()
        invariant
            i <= a.len(),
            forall|k: int| 0 <= k < i ==> !texts(b@).contains(#[trigger] texts(a@)[k]),
        decreases a.len() - i,
    {
        if contains_text(b, &a[i]) {
            assert(texts(a@).contains(texts(a@)[i as int]));
            return false;
        }
        i += 1;
    }
    true
}

fn all_within(list: &Vec<String>, other: &Vec<String>) -> (within: bool)
    ensures
        within == forall|p: Seq<char>| #[trigger]
            texts(list@).contains(p) ==> texts(other@).contains(p),
{
    let mut i: usize = 0;
    while i < list.len()
        invariant
            i <= list.len(),
            forall|k: int| 0 <= k < i ==> texts(other@).contains(#[trigger] texts(list@)[k]),
        decreases list.len() - i,
    {
        if !contains_text(other, &list[i]) {
            assert(texts(list@).contains(texts(list@)[i as int]));
            return false;
        }
        i += 1;
    }
    true
}

/// `list` without the strings that hold the text of `path`.
fn remove_text(list: &Vec<String>, path: &String) -> (out: Vec<String>)
    ensures
        texts(out@) == without_path(texts(list@), path@),
{
    let ghost all = texts(list@);
    let mut out: Vec<String> = Vec::new();
    let mut i: usize = 0;
    assert(all.take(0) =~= Seq::<Seq<char>>::empty());
    while i < list.len()
        invariant
            i <= list.len(),
            all == texts(list@),
            texts(out@) == without_path(all.take(i as int), path@),
        decreases list.len() - i,
    {
        proof {
            let seen = all.take(i as int);
            assert(all.take(i + 1) =~= seen.push(all[i as int]));
            seen.lemma_filter_push(all[i as int], |p: Seq<char>| p != path@);
        }
        let ghost before = out@;
        if list[i] != *path {
            out.push(list[i].clone());
            assert(texts(out@) =~= texts(before).push(all[i as int]));
        }
        i += 1;
    }
    assert(all.take(list.len() as int) =~= all);
    out
}

/// Takes up the run `progress` against the state record `state`. Files go
/// below `destination`; the state record will name the destination that
/// `config` names.
pub fn start_backup(
    config: Config,
    destination: String,
    state: BackupState,
    progress: TempBackup,
) -> (run: BackupRun)
    ensures
        run@ == RunView::begun(config@, destination@, state@, progress@),
{
    let mut progress = progress;
    if progress.snapshot_id == 0 {
        progress.snapshot_id = state.next_id();
    }
    BackupRun {
        config,
        destination,
        progress,
        state,
        started: Timestamp::epoch(),
        cursor: 0,
        phase: Phase::Ready,
    }
}

fn current_file(run: &BackupRun) -> (out: Vec<char>)
    requires
        run@.at_file(),
    ensures
        out@ == run@.current(),
{
    chars_of(run.progress.incomplete.files[run.cursor].as_str())
}

fn final_file(run: &BackupRun) -> (out: Vec<char>)
    requires
        run@.at_file(),
    ensures
        out@ == run@.final_path(),
{
    destination_chars(
        &chars_of(run.destination.as_str()),
        &run.config.paths.includes,
        &current_file(run),
    )
}

fn temp_file(run: &BackupRun) -> (out: Vec<char>)
    requires
        run@.at_file(),
    ensures
        out@ == run@.temp_path(),
{
    temp_chars(&final_file(run))
}

fn history_folder(run: &BackupRun) -> (out: Vec<char>)
    requires
        run@.at_file(),
    ensures
        out@ == run@.history_dir(),
{
    history_dir_chars(
        &chars_of(run.destination.as_str()),
        &run.config.paths.includes,
        &current_file(run),
    )
}

fn history_file(run: &BackupRun, stamp: &str) -> (out: Vec<char>)
    requires
        run@.at_file(),
    ensures
        out@ == run@.history_path(stamp@),
{
    history_path_chars(
        &chars_of(run.destination.as_str()),
        &run.config.paths.includes,
        &current_file(run),
        &chars_of(stamp),
    )
}

fn abort(run: &mut BackupRun, failure: Failure, path: &Vec<char>) -> (action: Action)
    ensures
        (final(run)@, action@) == old(run)@.aborted(failure, path@),
{
    run.phase = Phase::Aborted;
    Action::Abort(failure, string_of(path))
}

fn note_failed(run: &mut BackupRun)
    requires
        old(run)@.at_file(),
    ensures
        final(run)@ == old(run)@.with_failed(),
{
    let path = run.progress.incomplete.files[run.cursor].clone();
    if !contains_text(&run.progress.failed.files, &path) {
        run.progress.failed.files.push(path);
        assert(final(run)@.progress.failed =~= old(run)@.progress.failed.push(path@));
    }
}

fn note_completed(run: &mut BackupRun)
    requires
        old(run)@.at_file(),
    ensures
        final(run)@ == old(run)@.with_completed(),
{
    let path = run.progress.incomplete.files[run.cursor].clone();
    let kept = remove_text(&run.progress.failed.files, &path);
    run.progress.failed.files = kept;
    if !contains_text(&run.progress.completed.files, &path) {
        run.progress.completed.files.push(path);
        assert(final(run)@.progress.completed =~= old(run)@.progress.completed.push(path@));
    }
}

fn proceed(run: &mut BackupRun, now: Timestamp) -> (action: Action)
    ensures
        (final(run)@, action@) == old(run)@.proceed(now),
{
    let ghost selected = run@.progress.selected;
    let ghost completed = run@.progress.completed;
    let ghost from = run@.cursor;
    let mut at: usize = run.cursor;
    while at < run.progress.incomplete.files.len() && contains_text(
        &run.progress.completed.files,
        &run.progress.incomplete.files[at],
    )
        invariant
            *run == *old(run),
            selected == run@.progress.selected,
            completed == run@.progress.completed,
            next_pending(selected, completed, from) == next_pending(selected, completed, at as nat),
        decreases run.progress.incomplete.files.len() - at,
    {
        at += 1;
    }
    if at < run.progress.incomplete.files.len() {
        run.cursor = at;
        run.phase = Phase::AwaitSource;
        Action::ProbeSource(run.progress.incomplete.files[at].clone())
    } else {
        run.cursor = at;
        run.phase = Phase::AwaitFinalSaved;
        run.progress.status.state = "in_progress".to_owned();
        run.progress.duration = Elapsed::between(&run.started, &now);
        run.progress.timestamp = now;
        Action::SaveProgress
    }
}

fn advance_file(run: &mut BackupRun, event: Event, stamp: &str, now: Timestamp) -> (action: Action)
    requires
        old(run)@.at_file(),
    ensures
        (final(run)@, action@) == old(run)@.advanced_file(event, stamp@, now),
{
    match (run.phase, event) {
        (Phase::AwaitSource, Event::Probed(true)) => {
            run.phase = Phase::AwaitParent;
            Action::CreateDirs(string_of(&parent_chars(&final_file(run))))
        },
        (Phase::AwaitSource, Event::Probed(false)) => {
            note_failed(run);
            run.phase = Phase::AwaitSaved;
            Action::SaveProgress
        },
        (Phase::AwaitParent, Event::Succeeded) => {
            run.phase = Phase::AwaitDestination;
            Action::ProbeDestination(string_of(&final_file(run)))
        },
        (Phase::AwaitParent, Event::Failed) => {
            let dir = parent_chars(&final_file(run));
            abort(run, Failure::CreateDirectory, &dir)
        },
        (Phase::AwaitDestination, Event::Probed(true)) => {
            run.phase = Phase::AwaitHistoryDir;
            Action::CreateDirs(string_of(&history_folder(run)))
        },
        (Phase::AwaitDestination, Event::Probed(false)) => {
            run.phase = Phase::AwaitCopy;
            Action::Copy { from: string_of(&current_file(run)), to: string_of(&temp_file(run)) }
        },
        (Phase::AwaitHistoryDir, Event::Succeeded) => {
            run.phase = Phase::AwaitHistoryMove;
            Action::Rename {
                from: string_of(&final_file(run)),
                to: string_of(&history_file(run, stamp)),
            }
        },
        (Phase::AwaitHistoryDir, Event::Failed) => {
            let dir = history_folder(run);
            abort(run, Failure::CreateDirectory, &dir)
        },
        (Phase::AwaitHistoryMove, Event::Succeeded) => {
            run.phase = Phase::AwaitCopy;
            Action::Copy { from: string_of(&current_file(run)), to: string_of(&temp_file(run)) }
        },
        (Phase::AwaitHistoryMove, Event::Failed) => {
            let path = final_file(run);
            abort(run, Failure::MoveToHistory, &path)
        },
        (Phase::AwaitCopy, Event::Copied(size)) => {
            run.phase = Phase::AwaitPublish;
            run.progress.bytes_copied = run.progress.bytes_copied.saturating_add(size);
            Action::Rename { from: string_of(&temp_file(run)), to: string_of(&final_file(run)) }
        },
        (Phase::AwaitCopy, Event::Failed) => {
            note_failed(run);
            run.phase = Phase::AwaitSaved;
            Action::SaveProgress
        },
        (Phase::AwaitPublish, Event::Succeeded) => {
            note_completed(run);
            run.phase = Phase::AwaitSaved;
            Action::SaveProgress
        },
        (Phase::AwaitPublish, Event::Failed) => {
            let path = final_file(run);
            abort(run, Failure::Publish, &path)
        },
        (Phase::AwaitSaved, Event::Succeeded) => {
            let count: usize = run.progress.incomplete.files.len();
            assert(run.cursor < count);
            run.cursor = run.cursor + 1;
            proceed(run, now)
        },
        (Phase::AwaitSaved, Event::Failed) => {
            let path = current_file(run);
            abort(run, Failure::SaveProgress, &path)
        },
        _ => {
            let path = current_file(run);
            abort(run, Failure::Protocol, &path)
        },
    }
}

/// Takes the run one step on: records what `event` reports, and says what
/// to do next. A version superseded in this step is marked with `stamp`; a
/// run started or closed in this step starts or closes at `now`.
pub fn advance(run: &mut BackupRun, event: Event, stamp: &str, now: Timestamp) -> (action: Action)
    ensures
        (final(run)@, action@) == old(run)@.advanced(event, stamp@, now),
{
    let nowhere: Vec<char> = Vec::new();
    match run.phase {
        Phase::Finished => Action::Done,
        Phase::Aborted => Action::Abort(Failure::Protocol, string_of(&nowhere)),
        Phase::Ready => match event {
            Event::Start => {
                run.started = now;
                proceed(run, now)
            },
            _ => abort(run, Failure::Protocol, &nowhere),
        },
        Phase::AwaitFinalSaved => match event {
            Event::Succeeded => {
                run.state.record_backup(&run.progress, &run.config);
                run.phase = Phase::AwaitStateSaved;
                Action::SaveState
            },
            Event::Failed => abort(run, Failure::SaveProgress, &nowhere),
            _ => abort(run, Failure::Protocol, &nowhere),
        },
        Phase::AwaitStateSaved => match event {
            Event::Succeeded => {
                run.phase = Phase::AwaitCleanup;
                Action::RemoveProgress
            },
            Event::Failed => abort(run, Failure::SaveState, &nowhere),
            _ => abort(run, Failure::Protocol, &nowhere),
        },
        Phase::AwaitCleanup => match event {
            Event::Succeeded | Event::Failed => {
                run.phase = Phase::Finished;
                Action::Done
            },
            _ => abort(run, Failure::Protocol, &nowhere),
        },
        _ => if run.cursor < run.progress.incomplete.files.len() {
            advance_file(run, event, stamp, now)
        } else {
            abort(run, Failure::Protocol, &nowhere)
        },
    }
}

/// Takes the run one step on with a stamp that was read from a clock: the
/// step of [`advance`] where the stamp can mark a version, so that what the
/// run moves into the history tree is found there again; the run is given
/// up where it cannot.
pub fn advance_checked(run: &mut BackupRun, event: Event, stamp: &str, now: Timestamp) -> (action:
    Action)
    ensures
        (final(run)@, action@) == old(run)@.advanced_checked(event, stamp@, now),
{
    if is_usable_stamp(stamp) {
        advance(run, event, stamp, now)
    } else {
        let nowhere: Vec<char> = Vec::new();
        abort(run, Failure::Clock, &nowhere)
    }
}

/// Takes the run one step on, at the time and with the stamp that the
/// local clock gives: the step of [`advance`] with a stamp that can mark a
/// version, or the end of the run where the clock gives none.
pub fn run_backup(run: &mut BackupRun, event: Event) -> (action: Action)
    ensures
        (exists|stamp: Seq<char>, now: Timestamp|
            usable_stamp(stamp) && (final(run)@, action@) == #[trigger] old(run)@.advanced(
                event,
                stamp,
                now,
            )) || (final(run)@, action@) == old(run)@.aborted(Failure::Clock, Seq::empty()),
{
    let (now, stamp) = local_now("%Y-%m-%dT%H-%M-%S");
    advance_checked(run, event, stamp.as_str(), now)
}

/// Scans the source trees for a run against `state`: the files that
/// changed since the latest run, or, where `check_destination` is set, whose
/// copies are missing, each once, and what they weigh together.
pub fn scan(
    config: &Config,
    state: &BackupState,
    listings: &Vec<RootListing>,
    check_destination: bool,
) -> (out: Result<ScanReport, JournalError>)
    ensures
        out is Ok <==> patterns_usable(config@.exclude),
        out matches Ok(report) ==> texts(report.files@) == changed(
            listing_views(listings@),
            config@.exclude,
            state@.timestamp,
            check_destination,
        ) && texts(report.files@).no_duplicates() && report.total_bytes == total_size(
            changed_once(
                listing_views(listings@),
                config@.exclude,
                state@.timestamp,
                check_destination,
            ),
        ),
        out matches Err(JournalError::InvalidPattern { index, .. }) ==> first_invalid(
            config@.exclude,
            config@.exclude.len() as int,
        ) == Some(index as int),
        out matches Err(JournalError::PatternSet { .. }) ==> first_invalid(
            config@.exclude,
            config@.exclude.len() as int,
        ) is None,
        config@.exclude.len() == 0 ==> out is Ok,
{
    match ExcludeSet::compile(&config.paths.exclude) {
        Ok(excludes) => Ok(
            select_changed(&state.latest.timestamp, listings, &excludes, check_destination),
        ),
        Err(error) => Err(error),
    }
}

/// The paths at the pruned places are the pruned paths.
pub proof fn lemma_pruned_paths_by_index(paths: Seq<Seq<char>>, keep: nat, upto: int)
    requires
        0 <= upto <= paths.len(),
        paths.len() <= usize::MAX,
    ensures
        pruned_indices(versions_of(paths), keep, upto).len() == pruned_paths(paths, keep, upto).len(),
        forall|n: int|
            0 <= n < pruned_paths(paths, keep, upto).len() ==> {
                &&& 0 <= #[trigger] pruned_indices(versions_of(paths), keep, upto)[n] < upto
                &&& pruned_paths(paths, keep, upto)[n] == paths[pruned_indices(
                    versions_of(paths),
                    keep,
                    upto,
                )[n] as int]
            },
    decreases upto,
{
    if upto > 0 {
        lemma_pruned_paths_by_index(paths, keep, upto - 1);
    }
}

/// The versions to remove, of the files found in the history tree: of the
/// versions of each file all but the newest, as many of which are kept as
/// `config` asks for. A file that is no version is never among them.
pub fn vacuum(config: &Config, files: &Vec<String>) -> (out: Vec<String>)
    ensures
        texts(out@) == pruned_paths(texts(files@), config@.keep_count(), files.len() as int),
{
    let ghost paths = texts(files@);
    let keep: usize = config.keep_count() as usize;
    let mut versions: Vec<Option<Version>> = Vec::new();
    let mut i: usize = 0;
    while i < files.len()
        invariant
            i <= files.len(),
            paths == texts(files@),
            version_views(versions@) == versions_of(paths).take(i as int),
        decreases files.len() - i,
    {
        let ghost before = versions@;
        let version = read_version(files[i].as_str());
        versions.push(version);
        assert(version_views(versions@) =~= version_views(before).push(
            versions_of(paths)[i as int],
        ));
        assert(version_views(versions@) =~= versions_of(paths).take(i + 1));
        i += 1;
    }
    assert(versions_of(paths).take(files.len() as int) =~= versions_of(paths));
    let picked = select_prunable(&versions, keep);
    proof {
        lemma_pruned_paths_by_index(paths, keep as nat, files.len() as int);
    }
    let ghost wanted = pruned_paths(paths, keep as nat, files.len() as int);
    let mut out: Vec<String> = Vec::new();
    let mut n: usize = 0;
    while n < picked.len()
        invariant
            n <= picked.len(),
            paths == texts(files@),
            picked@.len() == wanted.len(),
            forall|m: int|
                0 <= m < wanted.len() ==> (#[trigger] picked@[m]) < files.len() && wanted[m]
                    == paths[picked@[m] as int],
            texts(out@) == wanted.take(n as int),
        decreases picked.len() - n,
    {
        let ghost before = out@;
        out.push(files[picked[n]].clone());
        assert(texts(out@) =~= texts(before).push(wanted[n as int]));
        assert(texts(out@) =~= wanted.take(n + 1));
        n += 1;
    }
    assert(wanted.take(picked.len() as int) =~= wanted);
    out
}

/// The summary of the latest completed run.
#[derive(Debug, PartialEq, Eq)]
pub struct RunSummary {
    pub timestamp: Timestamp,
    pub snapshot_id: String,
    pub destination: String,
    /// The statistics of the run, where the record has any.
    pub stats: Option<BackupStats>,
}

/// A summary as contracts see it.
pub struct SummaryView {
    pub timestamp: Timestamp,
    pub snapshot_id: Seq<char>,
    pub destination: Seq<char>,
    pub stats: Option<BackupStats>,
}

impl View for RunSummary {
    type V = SummaryView;

    open spec fn view(&self) -> SummaryView {
        SummaryView {
            timestamp: self.timestamp,
            snapshot_id: self.snapshot_id@,
            destination: self.destination@,
            stats: self.stats,
        }
    }
}

/// What a state record says of the latest run.
pub open spec fn summary_of(state: StateView) -> SummaryView {
    SummaryView {
        timestamp: state.timestamp,
        snapshot_id: state.snapshot_id,
        destination: state.destination,
        stats: if state.stats.len() > 0 {
            Some(state.stats[0])
        } else {
            None
        },
    }
}

/// The summary of the latest run, read from the state record found at the
/// destination; nothing where none was found.
pub fn status(found: &Option<BackupState>) -> (out: Option<RunSummary>)
    ensures
        match (found, out) {
            (Some(state), Some(summary)) => summary@ == summary_of(state@),
            (None, None) => true,
            _ => false,
        },
{
    match found {
        Some(state) => Some(
            RunSummary {
                timestamp: state.latest.timestamp,
                snapshot_id: state.latest.snapshot_id.clone(),
                destination: state.latest.destination.clone(),
                stats: if state.stats.len() > 0 {
                    Some(state.stats[0])
                } else {
                    None
                },
            },
        ),
        None => None,
    }
}

} // verus!
