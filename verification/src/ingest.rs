//! What an ingest is told, what it stores and what it reports.

use crate::detect::Format;
use crate::normalize::NormalizeError;
use crate::text;
use std::path::{Path, PathBuf};
use vstd::prelude::*;

verus! {

/// Characters per window when plain text is cut into chunks.
pub const CHUNK_WINDOW: usize = 800;

/// Characters that neighbouring windows share.
pub const CHUNK_OVERLAP: usize = 100;

/// Longest wait for the lock of a source, in seconds.
pub const LOCK_TIMEOUT_SECS: u64 = 5;

/// What an ingest did.
#[derive(Debug, Clone, Copy, PartialEq, Eq, Structural)]
pub struct IngestStats {
    pub files: usize,
    pub chunks: usize,
    pub skipped: usize,
    /// Time waited for the lock of the source; `None` where no lock was taken.
    pub lock_wait_ms: Option<u64>,
}

/// What an ingest did, as a mathematical object.
pub struct StatsView {
    pub files: nat,
    pub chunks: nat,
    pub skipped: nat,
    pub lock_wait_ms: Option<u64>,
}

impl View for IngestStats {
    type V = StatsView;

    open spec fn view(&self) -> StatsView {
        StatsView {
            files: self.files as nat,
            chunks: self.chunks as nat,
            skipped: self.skipped as nat,
            lock_wait_ms: self.lock_wait_ms,
        }
    }
}

impl Default for IngestStats {
    fn default() -> (r: IngestStats)
        ensures
            r == (IngestStats { files: 0, chunks: 0, skipped: 0, lock_wait_ms: None }),
    {
        IngestStats { files: 0, chunks: 0, skipped: 0, lock_wait_ms: None }
    }
}

/// How to ingest.
#[derive(Debug, Clone, Copy)]
pub struct IngestOptions<'a> {
    /// The room to file under; routed by the taxonomy where there is none.
    pub room: Option<&'a str>,
    /// The directory that sources are named after.
    pub source_root: Option<&'a Path>,
    /// Whether to count only, and write nothing.
    pub dry_run: bool,
}

impl<'a> Default for IngestOptions<'a> {
    fn default() -> (r: IngestOptions<'a>)
        ensures
            r.room is None,
            r.source_root is None,
            !r.dry_run,
    {
        IngestOptions { room: None, source_root: None, dry_run: false }
    }
}

/// The options under which a single file is ingested: named after its
/// directory, and written.
pub fn file_options<'a>(path: &'a Path, room: Option<&'a str>) -> (r: IngestOptions<'a>)
    ensures
        r.room == room,
        r.source_root == crate::paths::path_parent(path),
        !r.dry_run,
{
    IngestOptions { room, source_root: path.parent(), dry_run: false }
}

/// The options under which a directory is ingested: its files named after it,
/// and written.
pub fn dir_options<'a>(dir: &'a Path, room: Option<&'a str>) -> (r: IngestOptions<'a>)
    ensures
        r.room == room,
        r.source_root == Some(dir),
        !r.dry_run,
{
    IngestOptions { room, source_root: Some(dir), dry_run: false }
}

/// Why an ingest failed.
#[derive(Debug)]
pub enum IngestError {
    ReadFile { path: PathBuf },
    Normalize { path: PathBuf, source: NormalizeError },
    LoadTaxonomy { wing: String },
    EmbedChunks { path: PathBuf },
    CheckDrawer { drawer_id: String },
    InsertDrawer { drawer_id: String },
    InsertVector { drawer_id: String },
    Lock,
    ReadDir { path: PathBuf },
    ReadDirEntry { path: PathBuf },
}

/// Why an ingest failed, as a mathematical object.
pub enum IngestErrorView {
    ReadFile { path: PathBuf },
    Normalize { path: PathBuf, source: NormalizeError },
    LoadTaxonomy { wing: Seq<char> },
    EmbedChunks { path: PathBuf },
    CheckDrawer { drawer_id: Seq<char> },
    InsertDrawer { drawer_id: Seq<char> },
    InsertVector { drawer_id: Seq<char> },
    Lock,
    ReadDir { path: PathBuf },
    ReadDirEntry { path: PathBuf },
}

impl View for IngestError {
    type V = IngestErrorView;

    open spec fn view(&self) -> IngestErrorView {
        match *self {
            IngestError::ReadFile { path } => IngestErrorView::ReadFile { path },
            IngestError::Normalize { path, source } => IngestErrorView::Normalize { path, source },
            IngestError::LoadTaxonomy { wing } => IngestErrorView::LoadTaxonomy { wing: wing@ },
            IngestError::EmbedChunks { path } => IngestErrorView::EmbedChunks { path },
            IngestError::CheckDrawer { drawer_id } => IngestErrorView::CheckDrawer {
                drawer_id: drawer_id@,
            },
            IngestError::InsertDrawer { drawer_id } => IngestErrorView::InsertDrawer {
                drawer_id: drawer_id@,
            },
            IngestError::InsertVector { drawer_id } => IngestErrorView::InsertVector {
                drawer_id: drawer_id@,
            },
            IngestError::Lock => IngestErrorView::Lock,
            IngestError::ReadDir { path } => IngestErrorView::ReadDir { path },
            IngestError::ReadDirEntry { path } => IngestErrorView::ReadDirEntry { path },
        }
    }
}

/// Where a drawer comes from.
#[derive(Debug, Clone, Copy, PartialEq, Eq, Structural)]
pub enum SourceType {
    Project,
    Conversation,
}

/// The format holds a conversation.
pub open spec fn is_conversation(format: Format) -> bool {
    format != Format::PlainText
}

/// Where the drawers of a file of this format come from.
pub open spec fn source_of(format: Format) -> SourceType {
    if is_conversation(format) {
        SourceType::Conversation
    } else {
        SourceType::Project
    }
}

/// Where the drawers of a file of this format come from.
pub fn source_type_for(format: Format) -> (r: SourceType)
    ensures
        r == source_of(format),
{
    match format {
        Format::ClaudeJsonl | Format::ChatGptJson | Format::CodexJsonl | Format::SlackJson => {
            SourceType::Conversation
        },
        Format::PlainText => SourceType::Project,
    }
}

/// How a text is cut into chunks.
#[derive(Debug, Clone, Copy, PartialEq, Eq, Structural)]
pub enum ChunkPlan {
    /// By the turns of a conversation.
    Turns,
    /// Into overlapping windows.
    Windows { window: usize, overlap: usize },
}

/// How the text of a file of this format is cut into chunks.
pub open spec fn plan_of(format: Format) -> ChunkPlan {
    if is_conversation(format) {
        ChunkPlan::Turns
    } else {
        ChunkPlan::Windows { window: CHUNK_WINDOW, overlap: CHUNK_OVERLAP }
    }
}

/// How the text of a file of this format is cut into chunks.
pub fn chunk_plan(format: Format) -> (r: ChunkPlan)
    ensures
        r == plan_of(format),
{
    match format {
        Format::ClaudeJsonl | Format::ChatGptJson | Format::CodexJsonl | Format::SlackJson => {
            ChunkPlan::Turns
        },
        Format::PlainText => ChunkPlan::Windows { window: CHUNK_WINDOW, overlap: CHUNK_OVERLAP },
    }
}

/// A stored chunk of a source.
#[derive(Debug)]
pub struct Drawer {
    pub id: String,
    pub content: String,
    pub wing: String,
    pub room: Option<String>,
    pub source_file: Option<String>,
    pub source_type: SourceType,
    pub added_at: String,
    pub chunk_index: Option<i64>,
    pub importance: i32,
}

/// A stored chunk, as a mathematical object.
pub struct DrawerView {
    pub id: Seq<char>,
    pub content: Seq<char>,
    pub wing: Seq<char>,
    pub room: Option<Seq<char>>,
    pub source_file: Option<Seq<char>>,
    pub source_type: SourceType,
    pub added_at: Seq<char>,
    pub chunk_index: Option<i64>,
    pub importance: i32,
}

impl View for Drawer {
    type V = DrawerView;

    open spec fn view(&self) -> DrawerView {
        DrawerView {
            id: self.id@,
            content: self.content@,
            wing: self.wing@,
            room: text::opt_string(self.room),
            source_file: text::opt_string(self.source_file),
            source_type: self.source_type,
            added_at: self.added_at@,
            chunk_index: self.chunk_index,
            importance: self.importance,
        }
    }
}

} // verus!
