//! What holds of whole walks of a directory.

use crate::dir_ingest;
use crate::dir_ingest::{
    DirAction, DirEventView, DirPhase, DirStateView, DirStepView, EntryKind,
};
use crate::ingest::{IngestErrorView, StatsView};
use crate::paths;
use std::path::PathBuf;
use vstd::multiset::Multiset;
use vstd::prelude::*;

verus! {

/// Where the walk of a directory is after these events, if it is still on its
/// way.
pub open spec fn dir_reach(start: DirStateView, events: Seq<DirEventView>) -> Option<DirStateView>
    decreases events.len(),
{
    if events.len() == 0 {
        Some(start)
    } else {
        match dir_reach(start, events.drop_last()) {
            Some(state) => match dir_ingest::dir_step(state, events.last()) {
                Some(DirStepView::Continue { state: next, .. }) => Some(next),
                _ => None,
            },
            None => None,
        }
    }
}

/// What the last of these events led to, if the walk waited for it.
pub open spec fn dir_last_step(start: DirStateView, events: Seq<DirEventView>) -> Option<
    DirStepView,
> {
    if events.len() == 0 {
        None
    } else {
        match dir_reach(start, events.drop_last()) {
            Some(state) => dir_ingest::dir_step(state, events.last()),
            None => None,
        }
    }
}

/// The counts of the files among these events, added to `stats`.
pub open spec fn file_totals(stats: StatsView, events: Seq<DirEventView>) -> StatsView
    decreases events.len(),
{
    if events.len() == 0 {
        stats
    } else {
        let before = file_totals(stats, events.drop_last());
        match events.last() {
            DirEventView::FileIngested { stats: file } => dir_ingest::with_file(before, file),
            _ => before,
        }
    }
}

/// The walk of a directory reports the sums of what its files came to, and of no
/// wait for a lock but the one it started with.
pub proof fn dir_totals_are_sums(start: DirStateView, events: Seq<DirEventView>)
    ensures
        dir_reach(start, events) matches Some(state) ==> state.stats == file_totals(
            start.stats,
            events,
        ) && state.stats.lock_wait_ms == start.stats.lock_wait_ms,
        dir_last_step(start, events) matches Some(DirStepView::Finish { stats }) ==> stats
            == file_totals(start.stats, events) && stats.lock_wait_ms == start.stats.lock_wait_ms,
    decreases events.len(),
{
    if events.len() > 0 {
        dir_totals_are_sums(start, events.drop_last());
    }
}

/// None of these directories is one to pass over.
pub open spec fn none_skipped(dirs: Seq<PathBuf>) -> bool {
    forall|i: int|
        0 <= i < dirs.len() ==> !paths::skips_dir(paths::buf_path(&#[trigger] dirs[i]))
}

/// A directory to pass over is never listed, unless the walk starts there.
pub proof fn skipped_dirs_are_never_listed(start: DirStateView, events: Seq<DirEventView>)
    requires
        none_skipped(start.stack),
    ensures
        dir_reach(start, events) matches Some(state) ==> {
            &&& none_skipped(state.stack)
            &&& state.current == start.current || !paths::skips_dir(
                paths::buf_path(&state.current),
            )
        },
    decreases events.len(),
{
    if events.len() > 0 {
        skipped_dirs_are_never_listed(start, events.drop_last());
    }
}

/// A walk that starts with this directory.
pub open spec fn is_fresh_walk(start: DirStateView) -> bool {
    &&& start.phase == DirPhase::Opening
    &&& start.stack.len() == 0
    &&& start.stats == (StatsView { files: 0, chunks: 0, skipped: 0, lock_wait_ms: None })
}

/// The files that the walk asked to ingest, in order.
pub open spec fn handed_files(start: DirStateView, events: Seq<DirEventView>) -> Seq<PathBuf>
    decreases events.len(),
{
    if events.len() == 0 {
        seq![]
    } else {
        let before = handed_files(start, events.drop_last());
        match dir_last_step(start, events) {
            Some(DirStepView::Continue { action: DirAction::IngestFile { path }, .. }) => before.push(
                path,
            ),
            _ => before,
        }
    }
}

/// The directories that were opened for the walk, in order.
pub open spec fn opened_dirs(start: DirStateView, events: Seq<DirEventView>) -> Seq<PathBuf>
    decreases events.len(),
{
    if events.len() == 0 {
        seq![]
    } else {
        let before = opened_dirs(start, events.drop_last());
        match (dir_reach(start, events.drop_last()), events.last()) {
            (Some(state), DirEventView::Opened) => before.push(state.current),
            _ => before,
        }
    }
}

/// The files that the listings showed, in order.
pub open spec fn found_files(events: Seq<DirEventView>) -> Seq<PathBuf>
    decreases events.len(),
{
    if events.len() == 0 {
        seq![]
    } else {
        let before = found_files(events.drop_last());
        match events.last() {
            DirEventView::Entry { path, kind: EntryKind::File } => before.push(path),
            _ => before,
        }
    }
}

/// The directory is one to enter.
pub open spec fn is_entered(path: PathBuf, kind: EntryKind) -> bool {
    kind == EntryKind::Directory && !paths::skips_dir(paths::buf_path(&path))
}

/// The directories to enter that the listings showed, in order.
pub open spec fn found_dirs(events: Seq<DirEventView>) -> Seq<PathBuf>
    decreases events.len(),
{
    if events.len() == 0 {
        seq![]
    } else {
        let before = found_dirs(events.drop_last());
        match events.last() {
            DirEventView::Entry { path, kind } => if is_entered(path, kind) {
                before.push(path)
            } else {
                before
            },
            _ => before,
        }
    }
}

proof fn lemma_handed(start: DirStateView, events: Seq<DirEventView>)
    ensures
        dir_reach(start, events) is Some || dir_last_step(start, events) is Some ==> handed_files(
            start,
            events,
        ) == found_files(events),
    decreases events.len(),
{
    if events.len() > 0 {
        lemma_handed(start, events.drop_last());
    }
}

/// The directories that the walk still has to open.
spec fn awaited_dirs(state: DirStateView) -> Multiset<PathBuf> {
    if state.phase == DirPhase::Opening {
        state.stack.to_multiset().insert(state.current)
    } else {
        state.stack.to_multiset()
    }
}

proof fn lemma_opened(start: DirStateView, events: Seq<DirEventView>)
    requires
        is_fresh_walk(start),
    ensures
        dir_reach(start, events) matches Some(state) ==> opened_dirs(
            start,
            events,
        ).to_multiset().add(awaited_dirs(state)) == found_dirs(events).to_multiset().insert(
            start.current,
        ),
    decreases events.len(),
{
    broadcast use vstd::seq_lib::group_to_multiset_ensures;

    let none: Seq<PathBuf> = seq![];
    none.to_multiset_ensures();
    assert(none.to_multiset() =~= Multiset::empty());
    if events.len() == 0 {
        assert(start.stack =~= none);
        assert(opened_dirs(start, events).to_multiset().add(awaited_dirs(start)) =~= found_dirs(
            events,
        ).to_multiset().insert(start.current));
    } else {
        let before = events.drop_last();
        lemma_opened(start, before);
        if let (Some(state), Some(next)) = (dir_reach(start, before), dir_reach(start, events)) {
            let opened = opened_dirs(start, before);
            match (state.phase, events.last()) {
                (DirPhase::Opening, DirEventView::Opened) => {
                    assert(opened.push(state.current).to_multiset() == opened.to_multiset().insert(
                        state.current,
                    ));
                },
                (DirPhase::Listing, DirEventView::Entry { path, kind }) => {
                    if is_entered(path, kind) {
                        assert(next.stack == state.stack.push(path));
                        assert(next.stack.to_multiset() == state.stack.to_multiset().insert(path));
                        let found = found_dirs(before);
                        assert(found.push(path).to_multiset() == found.to_multiset().insert(path));
                    }
                },
                (DirPhase::Listing, DirEventView::Exhausted) => {
                    assert(state.stack =~= next.stack.push(next.current));
                    assert(state.stack.to_multiset() == next.stack.to_multiset().insert(
                        next.current,
                    ));
                },
                _ => {},
            }
            let was = opened.to_multiset().add(awaited_dirs(state));
            let now = opened_dirs(start, events).to_multiset().add(awaited_dirs(next));
            let all = found_dirs(events).to_multiset().insert(start.current);
            assert forall|dir: PathBuf| now.count(dir) == all.count(dir) by {
                assert(was.count(dir) == found_dirs(before).to_multiset().insert(
                    start.current,
                ).count(dir));
            }
            assert(now =~= all);
        }
    }
}

/// A walk that is done asked to ingest the files that the listings showed, in
/// that order, and had opened the directory that it started with and every
/// directory to enter that the listings showed, each as often as it was shown.
pub proof fn finished_walk_is_complete(
    start: DirStateView,
    events: Seq<DirEventView>,
    stats: StatsView,
)
    requires
        is_fresh_walk(start),
        dir_last_step(start, events) == Some(DirStepView::Finish { stats }),
    ensures
        handed_files(start, events) == found_files(events),
        opened_dirs(start, events).to_multiset() == found_dirs(events).to_multiset().insert(
            start.current,
        ),
        stats == file_totals(start.stats, events),
{
    broadcast use vstd::seq_lib::group_to_multiset_ensures;

    let before = events.drop_last();
    lemma_handed(start, events);
    lemma_opened(start, before);
    dir_totals_are_sums(start, events);
    let state = dir_reach(start, before)->0;
    let none: Seq<PathBuf> = seq![];
    none.to_multiset_ensures();
    assert(state.stack =~= none);
    assert(opened_dirs(start, events).to_multiset() =~= opened_dirs(
        start,
        before,
    ).to_multiset().add(awaited_dirs(state)));
}

/// The files among these entries and below the directories to enter among them,
/// down to a depth. `listing` says what a directory holds.
pub open spec fn files_among(
    listing: spec_fn(PathBuf) -> Seq<(PathBuf, EntryKind)>,
    entries: Seq<(PathBuf, EntryKind)>,
    depth: nat,
) -> Multiset<PathBuf>
    decreases depth, entries.len(),
{
    if entries.len() == 0 {
        Multiset::empty()
    } else {
        let (path, kind) = entries[0];
        let rest = files_among(listing, entries.skip(1), depth);
        if kind == EntryKind::File {
            rest.insert(path)
        } else if is_entered(path, kind) && depth > 0 {
            rest.add(files_among(listing, listing(path), (depth - 1) as nat))
        } else {
            rest
        }
    }
}

/// No directory to enter among or below these entries lies deeper.
pub open spec fn is_within(
    listing: spec_fn(PathBuf) -> Seq<(PathBuf, EntryKind)>,
    entries: Seq<(PathBuf, EntryKind)>,
    depth: nat,
) -> bool
    decreases depth,
{
    forall|i: int|
        0 <= i < entries.len() && is_entered(#[trigger] entries[i].0, entries[i].1) ==> depth > 0
            && is_within(listing, listing(entries[i].0), (depth - 1) as nat)
}

/// The entries of the current directory that are still to come, if the events
/// so far say what `listing` says: of each directory that the walk asks for all
/// of the entries, once each.
pub open spec fn still_to_list(
    listing: spec_fn(PathBuf) -> Seq<(PathBuf, EntryKind)>,
    start: DirStateView,
    events: Seq<DirEventView>,
) -> Option<Seq<(PathBuf, EntryKind)>>
    decreases events.len(),
{
    if events.len() == 0 {
        Some(seq![])
    } else {
        match (still_to_list(listing, start, events.drop_last()), events.last()) {
            (Some(left), DirEventView::Opened) => match dir_reach(start, events.drop_last()) {
                Some(state) => Some(listing(state.current)),
                None => None,
            },
            (Some(left), DirEventView::Entry { path, kind }) => if left.len() > 0 && left[0] == (
                path,
                kind,
            ) {
                Some(left.skip(1))
            } else {
                None
            },
            (Some(left), DirEventView::Exhausted) => if left.len() == 0 {
                Some(left)
            } else {
                None
            },
            (left, _) => left,
        }
    }
}

/// A limit that holds is as good as any larger one.
proof fn lemma_deeper(
    listing: spec_fn(PathBuf) -> Seq<(PathBuf, EntryKind)>,
    entries: Seq<(PathBuf, EntryKind)>,
    depth: nat,
)
    requires
        is_within(listing, entries, depth),
    ensures
        is_within(listing, entries, depth + 1),
        files_among(listing, entries, depth) == files_among(listing, entries, depth + 1),
    decreases depth, entries.len(),
{
    assert forall|i: int|
        0 <= i < entries.len() && is_entered(#[trigger] entries[i].0, entries[i].1) implies is_within(
        listing,
        listing(entries[i].0),
        depth,
    ) by {
        lemma_deeper(listing, listing(entries[i].0), (depth - 1) as nat);
    }
    if entries.len() > 0 {
        let (path, kind) = entries[0];
        lemma_within_rest(listing, entries, depth);
        lemma_deeper(listing, entries.skip(1), depth);
        if is_entered(path, kind) {
            assert(is_entered(entries[0].0, entries[0].1));
            lemma_deeper(listing, listing(path), (depth - 1) as nat);
        }
    }
}

proof fn lemma_within_rest(
    listing: spec_fn(PathBuf) -> Seq<(PathBuf, EntryKind)>,
    entries: Seq<(PathBuf, EntryKind)>,
    depth: nat,
)
    requires
        entries.len() > 0,
        is_within(listing, entries, depth),
    ensures
        is_within(listing, entries.skip(1), depth),
{
    let rest = entries.skip(1);
    assert forall|i: int|
        0 <= i < rest.len() && is_entered(#[trigger] rest[i].0, rest[i].1) implies depth > 0
        && is_within(listing, listing(rest[i].0), (depth - 1) as nat) by {
        assert(rest[i] == entries[i + 1]);
        assert(is_entered(entries[i + 1].0, entries[i + 1].1));
    }
}

/// The files in and below these directories.
spec fn files_in_dirs(
    listing: spec_fn(PathBuf) -> Seq<(PathBuf, EntryKind)>,
    dirs: Seq<PathBuf>,
    depth: nat,
) -> Multiset<PathBuf>
    decreases dirs.len(),
{
    if dirs.len() == 0 {
        Multiset::empty()
    } else {
        files_in_dirs(listing, dirs.drop_last(), depth).add(
            files_among(listing, listing(dirs.last()), depth),
        )
    }
}

/// The files that the walk has not reached yet.
spec fn files_ahead(
    listing: spec_fn(PathBuf) -> Seq<(PathBuf, EntryKind)>,
    state: DirStateView,
    left: Seq<(PathBuf, EntryKind)>,
    depth: nat,
) -> Multiset<PathBuf> {
    let entries = if state.phase == DirPhase::Opening {
        listing(state.current)
    } else {
        left
    };
    files_in_dirs(listing, state.stack, depth).add(files_among(listing, entries, depth))
}

spec fn dirs_within(
    listing: spec_fn(PathBuf) -> Seq<(PathBuf, EntryKind)>,
    dirs: Seq<PathBuf>,
    depth: nat,
) -> bool {
    forall|i: int| 0 <= i < dirs.len() ==> is_within(listing, listing(#[trigger] dirs[i]), depth)
}

/// What the walk ingested and what lies ahead of it make up all files.
proof fn lemma_files_ahead(
    listing: spec_fn(PathBuf) -> Seq<(PathBuf, EntryKind)>,
    start: DirStateView,
    events: Seq<DirEventView>,
    depth: nat,
)
    requires
        is_fresh_walk(start),
        is_within(listing, listing(start.current), depth),
        still_to_list(listing, start, events) is Some,
    ensures
        dir_reach(start, events) matches Some(state) ==> {
            let left = still_to_list(listing, start, events)->0;
            &&& dirs_within(listing, state.stack, depth)
            &&& state.phase == DirPhase::Opening ==> is_within(
                listing,
                listing(state.current),
                depth,
            )
            &&& state.phase != DirPhase::Opening ==> is_within(listing, left, depth)
            &&& handed_files(start, events).to_multiset().add(
                files_ahead(listing, state, left, depth),
            ) == files_among(listing, listing(start.current), depth)
        },
    decreases events.len(),
{
    broadcast use vstd::seq_lib::group_to_multiset_ensures;

    let all = files_among(listing, listing(start.current), depth);
    if events.len() == 0 {
        let none: Seq<PathBuf> = seq![];
        none.to_multiset_ensures();
        assert(none.to_multiset() =~= Multiset::empty());
        assert(handed_files(start, events).to_multiset().add(
            files_ahead(listing, start, seq![], depth),
        ) =~= all);
    } else {
        let before = events.drop_last();
        lemma_files_ahead(listing, start, before, depth);
        if let (Some(state), Some(next)) = (dir_reach(start, before), dir_reach(start, events)) {
            let left = still_to_list(listing, start, before)->0;
            let then_left = still_to_list(listing, start, events)->0;
            match (state.phase, events.last()) {
                (DirPhase::Listing, DirEventView::Entry { path, kind }) => {
                    lemma_within_rest(listing, left, depth);
                    if is_entered(path, kind) {
                        assert(is_entered(left[0].0, left[0].1));
                        lemma_deeper(listing, listing(path), (depth - 1) as nat);
                        assert(next.stack.drop_last() =~= state.stack);
                    }
                },
                (DirPhase::Listing, DirEventView::Exhausted) => {
                    assert(state.stack[state.stack.len() - 1] == next.current);
                },
                _ => {},
            }
            assert(handed_files(start, events).to_multiset().add(
                files_ahead(listing, next, then_left, depth),
            ) =~= all);
        }
    }
}

/// A walk that is done asked to ingest every file below its directory, in
/// directories to enter, exactly as often as it is listed there, and no other
/// file.
pub proof fn every_file_is_ingested_once(
    listing: spec_fn(PathBuf) -> Seq<(PathBuf, EntryKind)>,
    depth: nat,
    start: DirStateView,
    events: Seq<DirEventView>,
    stats: StatsView,
)
    requires
        is_fresh_walk(start),
        is_within(listing, listing(start.current), depth),
        still_to_list(listing, start, events) is Some,
        dir_last_step(start, events) == Some(DirStepView::Finish { stats }),
    ensures
        handed_files(start, events).to_multiset() == files_among(
            listing,
            listing(start.current),
            depth,
        ),
        stats == file_totals(start.stats, events),
        stats.lock_wait_ms is None,
{
    let before = events.drop_last();
    lemma_files_ahead(listing, start, before, depth);
    dir_totals_are_sums(start, events);
    let state = dir_reach(start, before)->0;
    let left = still_to_list(listing, start, before)->0;
    assert(handed_files(start, events).to_multiset() =~= handed_files(
        start,
        before,
    ).to_multiset().add(files_ahead(listing, state, left, depth)));
}

/// Each file that was ingested is reported as one.
pub open spec fn files_count_once(events: Seq<DirEventView>) -> bool {
    forall|i: int|
        0 <= i < events.len() ==> (#[trigger] events[i] matches DirEventView::FileIngested {
            stats,
        } ==> stats.files == 1)
}

proof fn lemma_counted(start: DirStateView, events: Seq<DirEventView>)
    requires
        is_fresh_walk(start),
    ensures
        dir_reach(start, events) matches Some(state) ==> {
            let handed = handed_files(start, events).len();
            &&& handed == 0 ==> state.stats == start.stats
            &&& state.phase == DirPhase::Ingesting ==> handed > 0
            &&& files_count_once(events) ==> handed == state.stats.files + if state.phase
                == DirPhase::Ingesting {
                1int
            } else {
                0int
            }
        },
    decreases events.len(),
{
    if events.len() > 0 {
        let before = events.drop_last();
        lemma_counted(start, before);
        if files_count_once(events) {
            assert forall|i: int| 0 <= i < before.len() implies (
            #[trigger] before[i] matches DirEventView::FileIngested { stats } ==> stats.files
                == 1) by {
                assert(events[i] == before[i]);
            }
            assert(events[events.len() - 1] == events.last());
        }
    }
}

/// A walk that is done reports as many files as lie below its directory, in
/// directories to enter; where there are none, it reports nothing.
pub proof fn walk_counts_its_files(
    listing: spec_fn(PathBuf) -> Seq<(PathBuf, EntryKind)>,
    depth: nat,
    start: DirStateView,
    events: Seq<DirEventView>,
    stats: StatsView,
)
    requires
        is_fresh_walk(start),
        is_within(listing, listing(start.current), depth),
        still_to_list(listing, start, events) is Some,
        dir_last_step(start, events) == Some(DirStepView::Finish { stats }),
        files_count_once(events),
    ensures
        stats.files == files_among(listing, listing(start.current), depth).len(),
        files_among(listing, listing(start.current), depth).len() == 0 ==> stats == (StatsView {
            files: 0,
            chunks: 0,
            skipped: 0,
            lock_wait_ms: None,
        }),
{
    let before = events.drop_last();
    every_file_is_ingested_once(listing, depth, start, events, stats);
    handed_files(start, events).to_multiset_ensures();
    lemma_counted(start, before);
    assert forall|i: int| 0 <= i < before.len() implies (
    #[trigger] before[i] matches DirEventView::FileIngested { stats } ==> stats.files == 1) by {
        assert(events[i] == before[i]);
    }
}

/// A walk fails only where a file's ingest failed, with the same error, or where
/// a directory or an entry of it could not be read, with an error that names the
/// directory.
pub proof fn walk_fails_with_what_failed(start: DirStateView, events: Seq<DirEventView>)
    ensures
        dir_last_step(start, events) matches Some(DirStepView::Fail { error }) ==> {
            let state = dir_reach(start, events.drop_last())->0;
            match events.last() {
                DirEventView::FileFailed { error: cause } => state.phase == DirPhase::Ingesting
                    && error == cause,
                DirEventView::Failed => if state.phase == DirPhase::Opening {
                    error == IngestErrorView::ReadDir { path: state.current }
                } else {
                    state.phase == DirPhase::Listing && error == IngestErrorView::ReadDirEntry {
                        path: state.current,
                    }
                },
                _ => false,
            }
        },
{
}

/// A file's error ends the walk: it is the walk's error, and nothing comes after
/// it.
pub proof fn file_error_ends_the_walk(
    start: DirStateView,
    events: Seq<DirEventView>,
    error: IngestErrorView,
)
    requires
        dir_reach(start, events) matches Some(state) && state.phase == DirPhase::Ingesting,
    ensures
        dir_last_step(start, events.push(DirEventView::FileFailed { error })) == Some(
            DirStepView::Fail { error },
        ),
        dir_reach(start, events.push(DirEventView::FileFailed { error })) is None,
{
    assert(events.push(DirEventView::FileFailed { error }).drop_last() =~= events);
}

/// The sum of what these files report as files, chunks and skipped.
pub open spec fn sums(events: Seq<DirEventView>) -> (nat, nat, nat)
    decreases events.len(),
{
    if events.len() == 0 {
        (0, 0, 0)
    } else {
        let (files, chunks, skipped) = sums(events.drop_last());
        match events.last() {
            DirEventView::FileIngested { stats } => (
                files + stats.files,
                chunks + stats.chunks,
                skipped + stats.skipped,
            ),
            _ => (files, chunks, skipped),
        }
    }
}

proof fn lemma_sums(stats: StatsView, events: Seq<DirEventView>)
    ensures
        ({
            let (files, chunks, skipped) = sums(events);
            file_totals(stats, events) == (StatsView {
                files: stats.files + files,
                chunks: stats.chunks + chunks,
                skipped: stats.skipped + skipped,
                lock_wait_ms: stats.lock_wait_ms,
            })
        }),
    decreases events.len(),
{
    if events.len() > 0 {
        lemma_sums(stats, events.drop_last());
    }
}

/// A walk that is done reports the sums of what its files reported, and no wait
/// for a lock.
pub proof fn walks_report_sums(start: DirStateView, events: Seq<DirEventView>)
    requires
        is_fresh_walk(start),
    ensures
        dir_last_step(start, events) matches Some(DirStepView::Finish { stats }) ==> {
            let (files, chunks, skipped) = sums(events);
            stats == (StatsView { files, chunks, skipped, lock_wait_ms: None })
        },
{
    dir_totals_are_sums(start, events);
    lemma_sums(start.stats, events);
}

/// The directories that were found and are to be entered, and that were not
/// opened: whenever a directory is exhausted, the one found last is opened.
pub open spec fn still_to_open(events: Seq<DirEventView>) -> Seq<PathBuf>
    decreases events.len(),
{
    if events.len() == 0 {
        seq![]
    } else {
        let before = still_to_open(events.drop_last());
        match events.last() {
            DirEventView::Entry { path, kind } => if is_entered(path, kind) {
                before.push(path)
            } else {
                before
            },
            DirEventView::Exhausted => if before.len() > 0 {
                before.drop_last()
            } else {
                before
            },
            _ => before,
        }
    }
}

/// The directory that is open, or to be opened next.
pub open spec fn at_directory(start: PathBuf, events: Seq<DirEventView>) -> PathBuf
    decreases events.len(),
{
    if events.len() == 0 {
        start
    } else {
        let left = still_to_open(events.drop_last());
        if events.last() is Exhausted && left.len() > 0 {
            left.last()
        } else {
            at_directory(start, events.drop_last())
        }
    }
}

/// A walk goes on in the directory that was found last.
pub proof fn directory_found_last_is_next(start: DirStateView, events: Seq<DirEventView>)
    requires
        is_fresh_walk(start),
    ensures
        dir_reach(start, events) matches Some(state) ==> {
            &&& state.stack == still_to_open(events)
            &&& state.current == at_directory(start.current, events)
        },
    decreases events.len(),
{
    if events.len() > 0 {
        directory_found_last_is_next(start, events.drop_last());
    } else {
        assert(start.stack =~= seq![]);
    }
}

/// What the walk asked for last; at first it is to open its directory.
pub open spec fn dir_asked(start: DirStateView, events: Seq<DirEventView>) -> Option<DirAction> {
    if events.len() == 0 {
        Some(DirAction::OpenDir)
    } else {
        match dir_last_step(start, events) {
            Some(DirStepView::Continue { action, .. }) => Some(action),
            _ => None,
        }
    }
}

/// Every answer to the work that was asked for is taken, and has its sequel; no
/// other event is. An open directory is listed entry by entry; a file in it is
/// ingested, and then the listing goes on; when a directory is exhausted, the
/// next one is opened, and without one the walk is done. A failure ends it.
pub proof fn walk_answers_have_their_sequel(
    start: DirStateView,
    events: Seq<DirEventView>,
    event: DirEventView,
)
    requires
        is_fresh_walk(start),
    ensures
        dir_asked(start, events) matches Some(action) ==> {
            let all = events.push(event);
            let step = dir_last_step(start, all);
            let next = dir_asked(start, all);
            let at = at_directory(start.current, events);
            match (action, event) {
                (DirAction::OpenDir, DirEventView::Opened) => next == Some(DirAction::NextEntry),
                (DirAction::OpenDir, DirEventView::Failed) => step == Some(
                    DirStepView::Fail { error: IngestErrorView::ReadDir { path: at } },
                ),
                (DirAction::NextEntry, DirEventView::Entry { path, kind }) => next == Some(
                    if kind == EntryKind::File {
                        DirAction::IngestFile { path }
                    } else {
                        DirAction::NextEntry
                    },
                ),
                (DirAction::NextEntry, DirEventView::Exhausted) => if still_to_open(events).len()
                    > 0 {
                    next == Some(DirAction::OpenDir)
                } else {
                    step is Some && step->0 is Finish
                },
                (DirAction::NextEntry, DirEventView::Failed) => step == Some(
                    DirStepView::Fail { error: IngestErrorView::ReadDirEntry { path: at } },
                ),
                (DirAction::IngestFile { .. }, DirEventView::FileIngested { .. }) => next == Some(
                    DirAction::NextEntry,
                ),
                (DirAction::IngestFile { .. }, DirEventView::FileFailed { error }) => step == Some(
                    DirStepView::Fail { error },
                ),
                _ => step is None,
            }
        },
{
    assert(events.push(event).drop_last() =~= events);
    directory_found_last_is_next(start, events);
}

/// Counts fit exactly where none of their sums is too large.
pub proof fn counts_fit_where_their_sums_do(stats: StatsView, file: StatsView)
    ensures
        dir_ingest::fits(stats, file) <==> stats.files + file.files <= usize::MAX && stats.chunks
            + file.chunks <= usize::MAX && stats.skipped + file.skipped <= usize::MAX,
{
}

} // verus!
