//! A run on a disk that works: what the transfer protocol leaves on it.
//!
//! The engine asks and the caller acts. Here the caller is put in: a disk
//! is a map from paths to the contents of the regular files at them, and
//! every action is carried out on it without an error. A run can still be
//! cut short at any step. What is proved is what the disk holds then, and
//! what the run that takes the record up again leaves on it.

use crate::backup::{ActionView, Event, Phase, ProgressView, RunView};
use crate::config::ConfigView;
use crate::invariants::{
    lemma_next_pending, lemma_step_keeps_well_formed, lemma_with_path, lemma_without_path,
};
use crate::paths::{destination_of, history_path_of, lemma_temp_is_sibling, temp_of};
use crate::state::{StateView, Timestamp};
use vstd::prelude::*;

verus! {

/// The regular files on a disk: their contents by their paths.
pub struct DiskView {
    pub files: Map<Seq<char>, Seq<u8>>,
}

/// The size that is reported of a content.
pub open spec fn size_of(content: Seq<u8>) -> u64 {
    if content.len() > u64::MAX {
        u64::MAX
    } else {
        content.len() as u64
    }
}

/// The disk after `action` was carried out on it, and what is reported of
/// it. A question is answered by what the disk holds; a rename or a copy of
/// a file that is not there fails; nothing else does.
pub open spec fn performed(disk: DiskView, action: ActionView) -> (DiskView, Event) {
    match action {
        ActionView::ProbeSource(path) => (disk, Event::Probed(disk.files.contains_key(path))),
        ActionView::ProbeDestination(path) => (disk, Event::Probed(disk.files.contains_key(path))),
        ActionView::Rename { from, to } => if disk.files.contains_key(from) {
            (DiskView { files: disk.files.remove(from).insert(to, disk.files[from]) }, Event::Succeeded)
        } else {
            (disk, Event::Failed)
        },
        ActionView::Copy { from, to } => if disk.files.contains_key(from) {
            (
                DiskView { files: disk.files.insert(to, disk.files[from]) },
                Event::Copied(size_of(disk.files[from])),
            )
        } else {
            (disk, Event::Failed)
        },
        _ => (disk, Event::Succeeded),
    }
}

/// One turn of the loop: the run takes a step on `event`, and what it asks
/// for is carried out on `disk`. The run, the disk and the report after it.
pub open spec fn stepped(
    run: RunView,
    disk: DiskView,
    event: Event,
    stamp: Seq<char>,
    now: Timestamp,
) -> (RunView, DiskView, Event) {
    let (next, action) = run.advanced(event, stamp, now);
    let (after, report) = performed(disk, action);
    (next, after, report)
}

/// The loop, for at most `turns` turns: it ends where the run is over.
pub open spec fn driven(
    run: RunView,
    disk: DiskView,
    event: Event,
    stamp: Seq<char>,
    now: Timestamp,
    turns: nat,
) -> (RunView, DiskView, Event)
    decreases turns,
{
    if turns == 0 || run.phase == Phase::Finished || run.phase == Phase::Aborted {
        (run, disk, event)
    } else {
        let (next, after, report) = stepped(run, disk, event, stamp, now);
        driven(next, after, report, stamp, now, (turns - 1) as nat)
    }
}

impl RunView {
    /// Where the copy of the source file `path` goes.
    pub open spec fn final_of(self, path: Seq<char>) -> Seq<char> {
        destination_of(self.destination, self.config.includes, path)
    }

    /// Where a version of `path` superseded at `stamp` is kept.
    pub open spec fn history_of(self, path: Seq<char>, stamp: Seq<char>) -> Seq<char> {
        history_path_of(self.destination, self.config.includes, path, stamp)
    }

    /// Whether the paths of the run keep apart: no selected file is a path
    /// that the run writes, no file's place in the history tree is its final
    /// path or its temporary sibling, and no two selected files share a
    /// path that is written for them.
    pub open spec fn separated(self, stamp: Seq<char>) -> bool {
        forall|p: Seq<char>, q: Seq<char>|
            #[trigger] self.progress.selected.contains(p) && #[trigger] self.progress.selected.contains(
                q,
            ) ==> {
                &&& q != self.final_of(p)
                &&& q != temp_of(self.final_of(p))
                &&& q != self.history_of(p, stamp)
                &&& self.history_of(p, stamp) != self.final_of(p)
                &&& self.history_of(p, stamp) != temp_of(self.final_of(p))
                &&& p != q ==> self.final_of(q) != self.final_of(p) && self.final_of(q) != temp_of(
                    self.final_of(p),
                ) && self.final_of(q) != self.history_of(p, stamp)
            }
    }

    /// How many turns the run can still take, at most.
    pub open spec fn turns_left(self) -> int {
        (self.progress.selected.len() - self.cursor) * 10 + match self.phase {
            Phase::Ready => 9int,
            Phase::AwaitSource => 8,
            Phase::AwaitParent => 7,
            Phase::AwaitDestination => 6,
            Phase::AwaitHistoryDir => 5,
            Phase::AwaitHistoryMove => 4,
            Phase::AwaitCopy => 3,
            Phase::AwaitPublish => 2,
            Phase::AwaitSaved => 1,
            Phase::AwaitFinalSaved => 3,
            Phase::AwaitStateSaved => 2,
            Phase::AwaitCleanup => 1,
            Phase::Finished => 0,
            Phase::Aborted => 0,
        }
    }
}

/// Whether the source files of the run are on the disk as they were on
/// `base`.
pub open spec fn sources_kept(run: RunView, disk: DiskView, base: DiskView) -> bool {
    forall|p: Seq<char>| #[trigger]
        run.progress.selected.contains(p) ==> base.files.contains_key(p)
            && disk.files.contains_key(p) && disk.files[p] == base.files[p]
}

/// Whether each file that the run has completed since it took up the
/// record with `done` completed stands at its final path, byte for byte.
pub open spec fn copies_landed(
    run: RunView,
    disk: DiskView,
    base: DiskView,
    done: Seq<Seq<char>>,
) -> bool {
    forall|p: Seq<char>| #[trigger]
        run.progress.completed.contains(p) && !done.contains(p) ==> disk.files.contains_key(
            run.final_of(p),
        ) && disk.files[run.final_of(p)] == base.files[p]
}

/// Whether the disk and the report are what the run has left of `base` at
/// this point of the protocol. In particular: once the copy to the
/// temporary sibling is made and until the rename is done, nothing stands
/// at the final path, and the sibling holds the source byte for byte.
pub open spec fn in_step(
    run: RunView,
    disk: DiskView,
    event: Event,
    base: DiskView,
    done: Seq<Seq<char>>,
) -> bool {
    &&& run.well_formed()
    &&& run.cursor <= run.progress.selected.len()
    &&& sources_kept(run, disk, base)
    &&& copies_landed(run, disk, base, done)
    &&& forall|p: Seq<char>| #[trigger] done.contains(p) ==> run.progress.completed.contains(p)
    &&& forall|k: int|
        0 <= k < run.cursor ==> run.progress.completed.contains(#[trigger] run.progress.selected[k])
    &&& match run.phase {
        Phase::Ready => event == Event::Start,
        Phase::AwaitSource => event == Event::Probed(true),
        Phase::AwaitParent => event == Event::Succeeded,
        Phase::AwaitDestination => event == Event::Probed(
            disk.files.contains_key(run.final_path()),
        ),
        Phase::AwaitHistoryDir => event == Event::Succeeded && disk.files.contains_key(
            run.final_path(),
        ),
        Phase::AwaitHistoryMove => event == Event::Succeeded && !disk.files.contains_key(
            run.final_path(),
        ),
        Phase::AwaitCopy => event is Copied && !disk.files.contains_key(run.final_path())
            && disk.files.contains_key(run.temp_path()) && disk.files[run.temp_path()]
            == base.files[run.current()],
        Phase::AwaitPublish => event == Event::Succeeded && disk.files.contains_key(
            run.final_path(),
        ) && disk.files[run.final_path()] == base.files[run.current()],
        Phase::AwaitSaved => event == Event::Succeeded && run.at_file()
            && run.progress.completed.contains(run.current()),
        Phase::AwaitFinalSaved => event == Event::Succeeded && run.cursor
            == run.progress.selected.len(),
        Phase::AwaitStateSaved => event == Event::Succeeded && run.cursor
            == run.progress.selected.len(),
        Phase::AwaitCleanup => event == Event::Succeeded && run.cursor
            == run.progress.selected.len(),
        Phase::Finished => run.cursor == run.progress.selected.len(),
        Phase::Aborted => false,
    }
}

/// A run that takes up a consistent record on a disk that holds its source
/// files stands at the start of the protocol.
pub proof fn lemma_start_in_step(
    config: ConfigView,
    destination: Seq<char>,
    state: StateView,
    progress: ProgressView,
    disk: DiskView,
)
    requires
        progress.consistent(),
        forall|p: Seq<char>| #[trigger] progress.selected.contains(p) ==> disk.files.contains_key(p),
    ensures
        in_step(
            RunView::begun(config, destination, state, progress),
            disk,
            Event::Start,
            disk,
            progress.completed,
        ),
{
}

/// Every turn of the loop keeps the disk in step with the run, and brings
/// the run nearer to its end: the run is never given up, no source file is
/// touched, no copy that has landed is lost, and what was selected stays.
pub proof fn lemma_turn_in_step(
    run: RunView,
    disk: DiskView,
    event: Event,
    base: DiskView,
    done: Seq<Seq<char>>,
    stamp: Seq<char>,
    now: Timestamp,
)
    requires
        in_step(run, disk, event, base, done),
        run.separated(stamp),
        run.phase != Phase::Finished,
    ensures
        in_step(
            stepped(run, disk, event, stamp, now).0,
            stepped(run, disk, event, stamp, now).1,
            stepped(run, disk, event, stamp, now).2,
            base,
            done,
        ),
        stepped(run, disk, event, stamp, now).0.separated(stamp),
        stepped(run, disk, event, stamp, now).0.progress.selected == run.progress.selected,
        0 <= stepped(run, disk, event, stamp, now).0.turns_left() < run.turns_left(),
{
    let (next, action) = run.advanced(event, stamp, now);
    let (after, report) = performed(disk, action);
    let selected = run.progress.selected;
    let completed = run.progress.completed;
    lemma_step_keeps_well_formed(run, event, stamp, now);
    lemma_next_pending(selected, completed, run.cursor);
    lemma_next_pending(selected, completed, run.cursor + 1);
    if next.phase == Phase::AwaitSource {
        assert(selected.contains(selected[next.cursor as int]));
    }
    if run.at_file() {
        let path = run.current();
        let place = run.final_path();
        assert(selected.contains(path));
        assert(place == run.final_of(path));
        assert(run.history_path(stamp) == run.history_of(path, stamp));
        lemma_temp_is_sibling(place);
        lemma_with_path(completed, path);
        lemma_with_path(run.progress.failed, path);
        lemma_without_path(run.progress.failed, path);
        lemma_next_pending(selected, next.progress.completed, run.cursor + 1);
        assert forall|p: Seq<char>| #[trigger]
            selected.contains(p) implies after.files.contains_key(p) && after.files[p]
            == base.files[p] by {
            assert(selected.contains(p) && selected.contains(path));
        }
        assert forall|p: Seq<char>| #[trigger]
            next.progress.completed.contains(p) && !done.contains(p) implies after.files.contains_key(
            next.final_of(p),
        ) && after.files[next.final_of(p)] == base.files[p] by {
            if p != path {
                assert(completed.contains(p));
                assert(selected.contains(p) && selected.contains(path));
            }
        }
        assert forall|k: int| 0 <= k < next.cursor implies next.progress.completed.contains(
            #[trigger] selected[k],
        ) by {
            if k < run.cursor {
                assert(completed.contains(selected[k]));
            }
        }
    } else {
        assert forall|k: int| 0 <= k < next.cursor implies next.progress.completed.contains(
            #[trigger] selected[k],
        ) by {
            if k < run.cursor {
                assert(completed.contains(selected[k]));
            }
        }
    }
}

/// The loop ends: a run that is in step with the disk ends within the
/// turns it has left, still in step.
pub proof fn lemma_driven_ends(
    run: RunView,
    disk: DiskView,
    event: Event,
    base: DiskView,
    done: Seq<Seq<char>>,
    stamp: Seq<char>,
    now: Timestamp,
    turns: nat,
)
    requires
        in_step(run, disk, event, base, done),
        run.separated(stamp),
        turns >= run.turns_left(),
    ensures
        driven(run, disk, event, stamp, now, turns).0.phase == Phase::Finished,
        in_step(
            driven(run, disk, event, stamp, now, turns).0,
            driven(run, disk, event, stamp, now, turns).1,
            driven(run, disk, event, stamp, now, turns).2,
            base,
            done,
        ),
        driven(run, disk, event, stamp, now, turns).0.progress.selected == run.progress.selected,
    decreases turns,
{
    if run.phase != Phase::Finished {
        lemma_turn_in_step(run, disk, event, base, done, stamp, now);
        let (next, after, report) = stepped(run, disk, event, stamp, now);
        lemma_driven_ends(next, after, report, base, done, stamp, now, (turns - 1) as nat);
    }
}

/// A run that is cut short after the copy to the temporary sibling and
/// before the rename leaves nothing at the final path, and a complete copy
/// in the sibling; the source is as it was.
pub proof fn lemma_cut_short_leaves_no_partial_file(
    run: RunView,
    disk: DiskView,
    event: Event,
    base: DiskView,
    done: Seq<Seq<char>>,
)
    requires
        in_step(run, disk, event, base, done),
        run.phase == Phase::AwaitCopy,
    ensures
        !disk.files.contains_key(run.final_path()),
        disk.files[run.temp_path()] == base.files[run.current()],
        disk.files[run.current()] == base.files[run.current()],
{
    assert(run.progress.selected.contains(run.current()));
}

/// The move into the history tree keeps the earlier version whole: after
/// it nothing stands at the final path, and what stood there stands in the
/// history tree, byte for byte.
pub proof fn lemma_history_move_keeps_version(
    run: RunView,
    disk: DiskView,
    stamp: Seq<char>,
    now: Timestamp,
)
    requires
        run.phase == Phase::AwaitHistoryDir,
        run.at_file(),
        disk.files.contains_key(run.final_path()),
        run.history_path(stamp) != run.final_path(),
    ensures
        stepped(run, disk, Event::Succeeded, stamp, now).0.phase == Phase::AwaitHistoryMove,
        stepped(run, disk, Event::Succeeded, stamp, now).2 == Event::Succeeded,
        !stepped(run, disk, Event::Succeeded, stamp, now).1.files.contains_key(run.final_path()),
        stepped(run, disk, Event::Succeeded, stamp, now).1.files.contains_key(
            run.history_path(stamp),
        ),
        stepped(run, disk, Event::Succeeded, stamp, now).1.files[run.history_path(stamp)]
            == disk.files[run.final_path()],
{
}

/// A run that takes up a record completes what the record left undone:
/// whatever the disk holds besides the source files, the loop ends with the
/// run finished, every selected file completed, and the copy of each file
/// that was not completed before at its final path, byte for byte. This
/// holds where the record is consistent, the source files are there, and
/// the paths of the run keep apart.
pub proof fn lemma_resumed_run_completes(
    config: ConfigView,
    destination: Seq<char>,
    state: StateView,
    progress: ProgressView,
    disk: DiskView,
    stamp: Seq<char>,
    now: Timestamp,
    turns: nat,
)
    requires
        progress.consistent(),
        forall|p: Seq<char>| #[trigger] progress.selected.contains(p) ==> disk.files.contains_key(p),
        RunView::begun(config, destination, state, progress).separated(stamp),
        turns >= progress.selected.len() * 10 + 9,
    ensures
        ({
            let begun = RunView::begun(config, destination, state, progress);
            let (ended, left, report) = driven(begun, disk, Event::Start, stamp, now, turns);
            &&& ended.phase == Phase::Finished
            &&& ended.progress.selected == progress.selected
            &&& forall|p: Seq<char>| #[trigger]
                progress.selected.contains(p) ==> ended.progress.completed.contains(p)
                    && left.files.contains_key(p) && left.files[p] == disk.files[p]
            &&& forall|p: Seq<char>| #[trigger]
                progress.selected.contains(p) && !progress.completed.contains(p)
                    ==> left.files.contains_key(ended.final_of(p)) && left.files[ended.final_of(p)]
                    == disk.files[p]
        }),
{
    let begun = RunView::begun(config, destination, state, progress);
    lemma_start_in_step(config, destination, state, progress, disk);
    lemma_driven_ends(begun, disk, Event::Start, disk, progress.completed, stamp, now, turns);
    let (ended, left, report) = driven(begun, disk, Event::Start, stamp, now, turns);
    assert forall|p: Seq<char>| #[trigger] progress.selected.contains(p) implies ended.progress.completed.contains(
        p,
    ) by {
        let k = choose|k: int| 0 <= k < progress.selected.len() && progress.selected[k] == p;
        assert(ended.progress.completed.contains(ended.progress.selected[k]));
    }
}

} // verus!
