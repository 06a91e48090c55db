//! The course of ingesting a directory. [`DirIngest`] decides what happens
//! next; its caller does it (lists directories, ingests files) and reports back
//! with a [`DirEvent`].

use crate::ingest::{IngestError, IngestErrorView, IngestStats, StatsView};
use crate::paths;
use std::path::{Path, PathBuf};
use vstd::prelude::*;

verus! {

/// What an entry of a directory is.
#[derive(Debug, Clone, Copy, PartialEq, Eq, Structural)]
pub enum EntryKind {
    Directory,
    File,
    Other,
}

/// What the walk waits for.
#[derive(Debug)]
pub enum DirPhase {
    /// The current directory to be opened.
    Opening,
    /// The next entry of the current directory.
    Listing,
    /// A file to be ingested.
    Ingesting,
}

/// A walk on its way.
pub struct DirStateView {
    /// The directory being listed.
    pub current: PathBuf,
    /// The directories still to list, the next one last.
    pub stack: Seq<PathBuf>,
    pub phase: DirPhase,
    /// What the files so far came to.
    pub stats: StatsView,
}

/// What came of the work that the walk waited for.
pub enum DirEventView {
    Opened,
    Entry { path: PathBuf, kind: EntryKind },
    Exhausted,
    FileIngested { stats: StatsView },
    FileFailed { error: IngestErrorView },
    Failed,
}

/// The work to do next.
#[derive(Debug)]
pub enum DirAction {
    /// Open the current directory.
    OpenDir,
    /// Take the next entry of the current directory.
    NextEntry,
    /// Ingest the file.
    IngestFile { path: PathBuf },
}

/// How the walk goes on after an event.
pub enum DirStepView {
    Continue { state: DirStateView, action: DirAction },
    Finish { stats: StatsView },
    Fail { error: IngestErrorView },
}

/// The counts of both; the wait for a lock is that of a single file, and left
/// out.
pub open spec fn with_file(stats: StatsView, file: StatsView) -> StatsView {
    StatsView {
        files: stats.files + file.files,
        chunks: stats.chunks + file.chunks,
        skipped: stats.skipped + file.skipped,
        lock_wait_ms: stats.lock_wait_ms,
    }
}

/// The counts of both can be stored.
pub open spec fn fits(stats: StatsView, file: StatsView) -> bool {
    &&& stats.files + file.files <= usize::MAX
    &&& stats.chunks + file.chunks <= usize::MAX
    &&& stats.skipped + file.skipped <= usize::MAX
}

/// How the walk goes on with the next entry of the current directory.
pub open spec fn next_entry(state: DirStateView) -> DirStepView {
    DirStepView::Continue {
        state: DirStateView { phase: DirPhase::Listing, ..state },
        action: DirAction::NextEntry,
    }
}

/// How the walk goes on with an entry: a directory is listed later, unless it is
/// one to pass over; a file is ingested; anything else is left alone.
pub open spec fn with_entry(state: DirStateView, path: PathBuf, kind: EntryKind) -> DirStepView {
    match kind {
        EntryKind::Directory => if paths::skips_dir(paths::buf_path(&path)) {
            next_entry(state)
        } else {
            next_entry(DirStateView { stack: state.stack.push(path), ..state })
        },
        EntryKind::File => DirStepView::Continue {
            state: DirStateView { phase: DirPhase::Ingesting, ..state },
            action: DirAction::IngestFile { path },
        },
        EntryKind::Other => next_entry(state),
    }
}

/// How the walk goes on at the end of a directory: with the directory found
/// last; when none is left, it is done.
pub open spec fn next_dir(state: DirStateView) -> DirStepView {
    if state.stack.len() == 0 {
        DirStepView::Finish { stats: state.stats }
    } else {
        DirStepView::Continue {
            state: DirStateView {
                current: state.stack.last(),
                stack: state.stack.drop_last(),
                phase: DirPhase::Opening,
                stats: state.stats,
            },
            action: DirAction::OpenDir,
        }
    }
}

/// How the walk goes on after an event; `None` where it does not wait for that
/// event. The error of a file is that of the walk.
pub open spec fn dir_step(state: DirStateView, event: DirEventView) -> Option<DirStepView> {
    match (state.phase, event) {
        (DirPhase::Opening, DirEventView::Opened) => Some(next_entry(state)),
        (DirPhase::Opening, DirEventView::Failed) => Some(
            DirStepView::Fail { error: IngestErrorView::ReadDir { path: state.current } },
        ),
        (DirPhase::Listing, DirEventView::Entry { path, kind }) => Some(
            with_entry(state, path, kind),
        ),
        (DirPhase::Listing, DirEventView::Exhausted) => Some(next_dir(state)),
        (DirPhase::Listing, DirEventView::Failed) => Some(
            DirStepView::Fail { error: IngestErrorView::ReadDirEntry { path: state.current } },
        ),
        (DirPhase::Ingesting, DirEventView::FileIngested { stats }) => Some(
            next_entry(DirStateView { stats: with_file(state.stats, stats), ..state }),
        ),
        (DirPhase::Ingesting, DirEventView::FileFailed { error }) => Some(
            DirStepView::Fail { error },
        ),
        _ => None,
    }
}

/// What came of the work that the walk waited for.
#[derive(Debug)]
pub enum DirEvent {
    /// The current directory was opened.
    Opened,
    /// The current directory has this entry.
    Entry { path: PathBuf, kind: EntryKind },
    /// The current directory has no more entries.
    Exhausted,
    /// The file was ingested.
    FileIngested { stats: IngestStats },
    /// The ingest of the file failed.
    FileFailed { error: IngestError },
    /// The directory or its next entry could not be read.
    Failed,
}

impl View for DirEvent {
    type V = DirEventView;

    open spec fn view(&self) -> DirEventView {
        match *self {
            DirEvent::Opened => DirEventView::Opened,
            DirEvent::Entry { path, kind } => DirEventView::Entry { path, kind },
            DirEvent::Exhausted => DirEventView::Exhausted,
            DirEvent::FileIngested { stats } => DirEventView::FileIngested { stats: stats@ },
            DirEvent::FileFailed { error } => DirEventView::FileFailed { error: error@ },
            DirEvent::Failed => DirEventView::Failed,
        }
    }
}

/// A walk on its way. It starts by waiting for its directory to be opened.
#[derive(Debug)]
pub struct DirIngest {
    current: PathBuf,
    stack: Vec<PathBuf>,
    phase: DirPhase,
    stats: IngestStats,
}

impl View for DirIngest {
    type V = DirStateView;

    closed spec fn view(&self) -> DirStateView {
        DirStateView {
            current: self.current,
            stack: self.stack@,
            phase: self.phase,
            stats: self.stats@,
        }
    }
}

/// How the walk goes on after an event.
#[derive(Debug)]
pub enum DirStep {
    /// It waits for the outcome of the action.
    Continue { state: DirIngest, action: DirAction },
    /// It is done.
    Finish { stats: IngestStats },
    /// It failed.
    Fail { error: IngestError },
}

impl View for DirStep {
    type V = DirStepView;

    open spec fn view(&self) -> DirStepView {
        match *self {
            DirStep::Continue { state, action } => DirStepView::Continue { state: state@, action },
            DirStep::Finish { stats } => DirStepView::Finish { stats: stats@ },
            DirStep::Fail { error } => DirStepView::Fail { error: error@ },
        }
    }
}

impl DirIngest {
    /// The ingest of the files below `dir`.
    pub fn new(dir: &Path) -> (r: DirIngest)
        ensures
            paths::buf_path(&r@.current) == dir,
            r@.stack.len() == 0,
            r@.phase == DirPhase::Opening,
            r@.stats == (StatsView { files: 0, chunks: 0, skipped: 0, lock_wait_ms: None }),
    {
        DirIngest {
            current: dir.to_path_buf(),
            stack: Vec::new(),
            phase: DirPhase::Opening,
            stats: IngestStats::default(),
        }
    }

    /// The directory being listed.
    pub fn current(&self) -> (r: &Path)
        ensures
            r == paths::buf_path(&self@.current),
    {
        self.current.as_path()
    }

    /// Whether the counts of a file fit beside those so far.
    pub fn has_room_for(&self, file: &IngestStats) -> (r: bool)
        ensures
            r == fits(self@.stats, file@),
    {
        file.files <= usize::MAX - self.stats.files && file.chunks <= usize::MAX - self.stats.chunks
            && file.skipped <= usize::MAX - self.stats.skipped
    }

    /// The walk, waiting for the next entry of the current directory.
    fn listing(current: PathBuf, stack: Vec<PathBuf>, stats: IngestStats) -> (r: DirStep)
        ensures
            r@ == next_entry(
                DirStateView { current, stack: stack@, phase: DirPhase::Listing, stats: stats@ },
            ),
    {
        DirStep::Continue {
            state: DirIngest { current, stack, phase: DirPhase::Listing, stats },
            action: DirAction::NextEntry,
        }
    }

    /// How the walk goes on after an event; `None` where it does not wait for
    /// that event. The counts of a file must fit beside those so far.
    pub fn advance(self, event: DirEvent) -> (r: Option<DirStep>)
        requires
            event@ matches DirEventView::FileIngested { stats } ==> fits(self@.stats, stats),
        ensures
            r is Some <==> dir_step(self@, event@) is Some,
            r matches Some(step) ==> dir_step(self@, event@) == Some(step@),
    {
        let DirIngest { current, mut stack, phase, stats } = self;
        match (phase, event) {
            (DirPhase::Opening, DirEvent::Opened) => Some(
                DirIngest::listing(current, stack, stats),
            ),
            (DirPhase::Opening, DirEvent::Failed) => Some(
                DirStep::Fail { error: IngestError::ReadDir { path: current } },
            ),
            (DirPhase::Listing, DirEvent::Entry { path, kind }) => match kind {
                EntryKind::Directory => {
                    if !paths::should_skip_dir(path.as_path()) {
                        stack.push(path);
                    }
                    Some(DirIngest::listing(current, stack, stats))
                },
                EntryKind::File => Some(
                    DirStep::Continue {
                        state: DirIngest { current, stack, phase: DirPhase::Ingesting, stats },
                        action: DirAction::IngestFile { path },
                    },
                ),
                EntryKind::Other => Some(DirIngest::listing(current, stack, stats)),
            },
            (DirPhase::Listing, DirEvent::Exhausted) => match stack.pop() {
                Some(next) => Some(
                    DirStep::Continue {
                        state: DirIngest { current: next, stack, phase: DirPhase::Opening, stats },
                        action: DirAction::OpenDir,
                    },
                ),
                None => Some(DirStep::Finish { stats }),
            },
            (DirPhase::Listing, DirEvent::Failed) => Some(
                DirStep::Fail { error: IngestError::ReadDirEntry { path: current } },
            ),
            (DirPhase::Ingesting, DirEvent::FileIngested { stats: file }) => {
                let total = IngestStats {
                    files: stats.files + file.files,
                    chunks: stats.chunks + file.chunks,
                    skipped: stats.skipped + file.skipped,
                    lock_wait_ms: stats.lock_wait_ms,
                };
                Some(DirIngest::listing(current, stack, total))
            },
            (DirPhase::Ingesting, DirEvent::FileFailed { error }) => Some(DirStep::Fail { error }),
            _ => None,
        }
    }
}

} // verus!
