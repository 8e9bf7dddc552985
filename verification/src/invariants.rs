//! What every step of a backup run keeps, and what no step does.

use crate::backup::{
    next_pending, with_path, without_path, ActionView, Event, Phase, ProgressView, RunView,
};
use crate::config::ConfigView;
use crate::paths::{lemma_temp_is_sibling, temp_of};
use crate::state::{StateView, Timestamp};
use vstd::prelude::*;

verus! {

impl RunView {
    /// Whether the run is in the middle of the transfer of a file.
    pub open spec fn transferring(self) -> bool {
        self.phase == Phase::AwaitSource || self.phase == Phase::AwaitParent || self.phase
            == Phase::AwaitDestination || self.phase == Phase::AwaitHistoryDir || self.phase
            == Phase::AwaitHistoryMove || self.phase == Phase::AwaitCopy || self.phase
            == Phase::AwaitPublish
    }

    /// Whether the run has nothing left to transfer: it closes its records,
    /// or is over.
    pub open spec fn closing(self) -> bool {
        self.phase == Phase::AwaitFinalSaved || self.phase == Phase::AwaitStateSaved || self.phase
            == Phase::AwaitCleanup || self.phase == Phase::Finished || self.phase == Phase::Aborted
    }

    /// Whether the run is one that steps lead to: its progress record is
    /// consistent, and a file in transfer is a selected file that is not
    /// completed.
    pub open spec fn well_formed(self) -> bool {
        &&& self.progress.consistent()
        &&& self.transferring() ==> self.at_file() && !self.progress.completed.contains(
            self.current(),
        )
    }
}

/// Whether an action changes the destination tree.
pub open spec fn touches_tree(action: ActionView) -> bool {
    action is CreateDirs || action is Rename || action is Copy
}

/// `without_path` takes `path` out and leaves the rest as it was.
pub proof fn lemma_without_path(list: Seq<Seq<char>>, path: Seq<char>)
    ensures
        !without_path(list, path).contains(path),
        forall|q: Seq<char>|
            q != path ==> (#[trigger] without_path(list, path).contains(q) <==> list.contains(q)),
        list.no_duplicates() ==> without_path(list, path).no_duplicates(),
        !list.contains(path) ==> without_path(list, path) == list,
    decreases list.len(),
{
    reveal(Seq::filter);
    let kept = without_path(list, path);
    if list.len() == 0 {
        assert(kept =~= list);
    } else {
        let rest = list.drop_last();
        let last = list.last();
        let before = without_path(rest, path);
        lemma_without_path(rest, path);
        assert(kept == if last != path {
            before.push(last)
        } else {
            before
        });
        assert forall|q: Seq<char>| q != path implies (#[trigger] kept.contains(q)
            <==> list.contains(q)) by {
            if kept.contains(q) {
                let i = choose|i: int| 0 <= i < kept.len() && kept[i] == q;
                if i < before.len() {
                    assert(before.contains(q));
                    let j = choose|j: int| 0 <= j < rest.len() && rest[j] == q;
                    assert(list[j] == q);
                } else {
                    assert(list[list.len() - 1] == q);
                }
            }
            if list.contains(q) {
                let j = choose|j: int| 0 <= j < list.len() && list[j] == q;
                if j < rest.len() {
                    assert(rest[j] == q);
                    assert(before.contains(q));
                    let i = choose|i: int| 0 <= i < before.len() && before[i] == q;
                    assert(kept[i] == q);
                } else {
                    assert(kept[kept.len() - 1] == q);
                }
            }
        }
        if kept.contains(path) {
            let i = choose|i: int| 0 <= i < kept.len() && kept[i] == path;
            if i < before.len() {
                assert(before.contains(path));
            }
        }
        if list.no_duplicates() {
            assert(rest.no_duplicates());
            if last != path {
                assert(!rest.contains(last)) by {
                    if rest.contains(last) {
                        let j = choose|j: int| 0 <= j < rest.len() && rest[j] == last;
                        assert(list[j] == list[list.len() - 1]);
                    }
                }
                assert(!before.contains(last));
                assert forall|a: int, b: int| 0 <= a < kept.len() && 0 <= b < kept.len() && a
                    != b implies kept[a] != kept[b] by {
                    if a == kept.len() - 1 {
                        assert(before[b] == kept[b]);
                    } else if b == kept.len() - 1 {
                        assert(before[a] == kept[a]);
                    } else {
                        assert(before[a] == kept[a] && before[b] == kept[b]);
                    }
                }
            }
        }
        if !list.contains(path) {
            assert(!rest.contains(path)) by {
                if rest.contains(path) {
                    let j = choose|j: int| 0 <= j < rest.len() && rest[j] == path;
                    assert(list[j] == path);
                }
            }
            assert(last != path) by {
                assert(list[list.len() - 1] == last);
            }
            assert(kept =~= list);
        }
    }
}

/// `with_path` puts `path` in and leaves the rest as it was.
pub proof fn lemma_with_path(list: Seq<Seq<char>>, path: Seq<char>)
    ensures
        with_path(list, path).contains(path),
        forall|q: Seq<char>|
            q != path ==> (#[trigger] with_path(list, path).contains(q) <==> list.contains(q)),
        list.no_duplicates() ==> with_path(list, path).no_duplicates(),
{
    let grown = with_path(list, path);
    if !list.contains(path) {
        assert(grown[grown.len() - 1] == path);
        assert forall|q: Seq<char>| q != path implies (#[trigger] grown.contains(q)
            <==> list.contains(q)) by {
            if grown.contains(q) {
                let i = choose|i: int| 0 <= i < grown.len() && grown[i] == q;
                assert(list[i] == q);
            }
            if list.contains(q) {
                let i = choose|i: int| 0 <= i < list.len() && list[i] == q;
                assert(grown[i] == q);
            }
        }
        if list.no_duplicates() {
            assert forall|a: int, b: int| 0 <= a < grown.len() && 0 <= b < grown.len() && a
                != b implies grown[a] != grown[b] by {
                if a < list.len() {
                    assert(list[a] == grown[a]);
                }
                if b < list.len() {
                    assert(list[b] == grown[b]);
                }
            }
        }
    }
}

/// What `next_pending` finds: a place from `from` on, before which every
/// file is completed, and at which, where it is a place in the list, the
/// file is not.
pub proof fn lemma_next_pending(selected: Seq<Seq<char>>, completed: Seq<Seq<char>>, from: nat)
    ensures
        from <= next_pending(selected, completed, from),
        from <= selected.len() ==> next_pending(selected, completed, from) <= selected.len(),
        forall|k: int|
            from <= k < next_pending(selected, completed, from) ==> completed.contains(
                #[trigger] selected[k],
            ),
        next_pending(selected, completed, from) < selected.len() ==> !completed.contains(
            selected[next_pending(selected, completed, from) as int],
        ),
    decreases selected.len() - from,
{
    if from < selected.len() && completed.contains(selected[from as int]) {
        lemma_next_pending(selected, completed, from + 1);
    }
}

/// A run that takes up a consistent record is well formed.
pub proof fn lemma_begun_is_well_formed(
    config: ConfigView,
    destination: Seq<char>,
    state: StateView,
    progress: ProgressView,
)
    requires
        progress.consistent(),
    ensures
        RunView::begun(config, destination, state, progress).well_formed(),
{
}

/// A new record is consistent.
pub proof fn lemma_fresh_is_consistent(files: Seq<Seq<char>>)
    ensures
        ProgressView::fresh(files).consistent(),
{
}

/// Every step keeps a run well formed: completed and failed files stay
/// apart, each is listed once, and each was selected. No step changes what
/// was selected, nor the snapshot id.
pub proof fn lemma_step_keeps_well_formed(
    run: RunView,
    event: Event,
    stamp: Seq<char>,
    now: Timestamp,
)
    requires
        run.well_formed(),
    ensures
        run.advanced(event, stamp, now).0.well_formed(),
        run.advanced(event, stamp, now).0.progress.selected == run.progress.selected,
        run.advanced(event, stamp, now).0.progress.snapshot_id == run.progress.snapshot_id,
        run.advanced(event, stamp, now).0.config == run.config,
        run.advanced(event, stamp, now).0.destination == run.destination,
{
    let next = run.advanced(event, stamp, now).0;
    let selected = run.progress.selected;
    let completed = run.progress.completed;
    lemma_next_pending(selected, completed, run.cursor);
    lemma_next_pending(selected, completed, run.cursor + 1);
    if run.at_file() {
        let path = run.current();
        assert(selected.contains(path));
        lemma_with_path(run.progress.failed, path);
        lemma_with_path(completed, path);
        lemma_without_path(run.progress.failed, path);
        let grown = run.with_completed().progress;
        lemma_next_pending(selected, grown.completed, run.cursor + 1);
        if run.phase == Phase::AwaitPublish && event == Event::Succeeded {
            assert(grown.consistent()) by {
                assert forall|p: Seq<char>| !(grown.completed.contains(p) && grown.failed.contains(
                    p,
                )) by {
                    if p != path {
                        assert(grown.completed.contains(p) <==> completed.contains(p));
                        assert(grown.failed.contains(p) <==> run.progress.failed.contains(p));
                    }
                }
                assert forall|p: Seq<char>| #[trigger] grown.completed.contains(p) implies selected.contains(
                    p,
                ) by {
                    if p != path {
                        assert(grown.completed.contains(p) <==> completed.contains(p));
                    }
                }
                assert forall|p: Seq<char>| #[trigger] grown.failed.contains(p) implies selected.contains(
                    p,
                ) by {
                    if p != path {
                        assert(grown.failed.contains(p) <==> run.progress.failed.contains(p));
                    }
                }
            }
        }
        let noted = run.with_failed().progress;
        if run.transferring() {
            assert(noted.consistent()) by {
                assert forall|p: Seq<char>| !(noted.completed.contains(p) && noted.failed.contains(
                    p,
                )) by {
                    if p != path {
                        assert(noted.failed.contains(p) <==> run.progress.failed.contains(p));
                    }
                }
                assert forall|p: Seq<char>| #[trigger] noted.failed.contains(p) implies selected.contains(
                    p,
                ) by {
                    if p != path {
                        assert(noted.failed.contains(p) <==> run.progress.failed.contains(p));
                    }
                }
            }
        }
    }
}

/// A file is copied at most once: a step asks for a copy only of the file
/// that the run has reached, which is not completed, and only to the
/// temporary sibling of its final path, never to the final path itself. It
/// asks only once it has heard that nothing stands at the final path, or
/// that what stood there was moved into the history tree.
pub proof fn lemma_copy_only_pending(run: RunView, event: Event, stamp: Seq<char>, now: Timestamp)
    requires
        run.well_formed(),
        run.advanced(event, stamp, now).1 is Copy,
    ensures
        run.at_file(),
        (run.phase == Phase::AwaitDestination && event == Event::Probed(false)) || (run.phase
            == Phase::AwaitHistoryMove && event == Event::Succeeded),
        run.advanced(event, stamp, now).1 == (ActionView::Copy {
            from: run.current(),
            to: temp_of(run.final_path()),
        }),
        !run.progress.completed.contains(run.current()),
        temp_of(run.final_path()) != run.final_path(),
{
    lemma_next_pending(run.progress.selected, run.progress.completed, run.cursor);
    lemma_next_pending(run.progress.selected, run.progress.completed, run.cursor + 1);
    lemma_temp_is_sibling(run.final_path());
}

/// The final path of a file changes by a rename alone: one that moves the
/// old file into the history tree, or one that moves the temporary sibling
/// onto it.
pub proof fn lemma_rename_is_atomic_step(
    run: RunView,
    event: Event,
    stamp: Seq<char>,
    now: Timestamp,
)
    requires
        run.advanced(event, stamp, now).1 is Rename,
    ensures
        run.at_file(),
        run.advanced(event, stamp, now).1 == (ActionView::Rename {
            from: run.final_path(),
            to: run.history_path(stamp),
        }) || run.advanced(event, stamp, now).1 == (ActionView::Rename {
            from: run.temp_path(),
            to: run.final_path(),
        }),
{
    lemma_next_pending(run.progress.selected, run.progress.completed, run.cursor);
    lemma_next_pending(run.progress.selected, run.progress.completed, run.cursor + 1);
}

/// A file counts as completed only once its rename onto the final path has
/// succeeded: the list of completed files changes in no other step, gains
/// the file that the run has reached, and the step asks for the progress
/// record to be written.
pub proof fn lemma_completed_after_rename(
    run: RunView,
    event: Event,
    stamp: Seq<char>,
    now: Timestamp,
)
    requires
        run.advanced(event, stamp, now).0.progress.completed != run.progress.completed,
    ensures
        run.phase == Phase::AwaitPublish,
        event == Event::Succeeded,
        run.at_file(),
        run.advanced(event, stamp, now).0.progress.completed == run.progress.completed.push(
            run.current(),
        ),
        run.advanced(event, stamp, now).1 == ActionView::SaveProgress,
        run.advanced(event, stamp, now).0.phase == Phase::AwaitSaved,
{
}

/// A run whose selected files are all completed transfers nothing: its
/// first step closes the progress record and asks for nothing but to have
/// it written.
pub proof fn lemma_completed_run_copies_nothing(run: RunView, stamp: Seq<char>, now: Timestamp)
    requires
        run.phase == Phase::Ready,
        run.cursor <= run.progress.selected.len(),
        forall|i: int|
            0 <= i < run.progress.selected.len() ==> run.progress.completed.contains(
                #[trigger] run.progress.selected[i],
            ),
    ensures
        run.advanced(Event::Start, stamp, now).1 == ActionView::SaveProgress,
        run.advanced(Event::Start, stamp, now).0.phase == Phase::AwaitFinalSaved,
        run.advanced(Event::Start, stamp, now).0.closing(),
        run.advanced(Event::Start, stamp, now).0.progress.completed == run.progress.completed,
        run.advanced(Event::Start, stamp, now).0.progress.failed == run.progress.failed,
        run.advanced(Event::Start, stamp, now).0.progress.bytes_copied == run.progress.bytes_copied,
{
    lemma_next_pending(run.progress.selected, run.progress.completed, run.cursor);
}

/// The state record is touched by one step alone: the one that hears that
/// the closed progress record was written. It then holds the run as the
/// latest, under the run's snapshot id.
pub proof fn lemma_state_recorded_once(run: RunView, event: Event, stamp: Seq<char>, now: Timestamp)
    requires
        run.advanced(event, stamp, now).0.state != run.state,
    ensures
        run.phase == Phase::AwaitFinalSaved,
        event == Event::Succeeded,
        run.advanced(event, stamp, now).0.state == run.state.recorded(
            run.progress,
            run.config.destination,
        ),
        run.advanced(event, stamp, now).0.state.latest_id() == run.progress.snapshot_id,
        run.advanced(event, stamp, now).1 == ActionView::SaveState,
{
    crate::state::lemma_next_id_follows(run.state, run.progress, run.config.destination);
}

/// A run that has nothing left to transfer leaves the destination tree
/// alone: whatever it hears, it stays such a run, asks for no directory, no
/// rename and no copy, and lists no further file as completed or failed.
pub proof fn lemma_closing_run_touches_nothing(
    run: RunView,
    event: Event,
    stamp: Seq<char>,
    now: Timestamp,
)
    requires
        run.closing(),
    ensures
        run.advanced(event, stamp, now).0.closing(),
        !touches_tree(run.advanced(event, stamp, now).1),
        run.advanced(event, stamp, now).0.progress == run.progress,
{
}

/// A run takes up the first selected file that is not completed: a file
/// whose transfer was cut short is transferred by the run that resumes.
pub proof fn lemma_pending_is_taken_up(run: RunView, stamp: Seq<char>, now: Timestamp, i: int)
    requires
        run.phase == Phase::Ready,
        run.cursor <= i < run.progress.selected.len(),
        !run.progress.completed.contains(run.progress.selected[i]),
    ensures
        run.advanced(Event::Start, stamp, now).0.phase == Phase::AwaitSource,
        run.advanced(Event::Start, stamp, now).0.cursor <= i,
        run.advanced(Event::Start, stamp, now).1 == ActionView::ProbeSource(
            run.advanced(Event::Start, stamp, now).0.current(),
        ),
        !run.progress.completed.contains(run.advanced(Event::Start, stamp, now).0.current()),
{
    lemma_next_pending(run.progress.selected, run.progress.completed, run.cursor);
}

/// A step taken with a stamp from a clock keeps a run well formed too, and
/// moves a file into the history tree only under a stamp that can mark a
/// version.
pub proof fn lemma_checked_step(run: RunView, event: Event, stamp: Seq<char>, now: Timestamp)
    requires
        run.well_formed(),
    ensures
        run.advanced_checked(event, stamp, now).0.well_formed(),
        run.advanced_checked(event, stamp, now).0.progress.selected == run.progress.selected,
        run.advanced_checked(event, stamp, now).1 is Rename ==> crate::retention::usable_stamp(
            stamp,
        ),
{
    lemma_step_keeps_well_formed(run, event, stamp, now);
}

} // verus!
