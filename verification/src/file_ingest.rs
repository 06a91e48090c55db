//! The course of ingesting one file. [`FileIngest`] decides what happens next;
//! its caller does it (reads the file, asks the database, embeds) and reports
//! back with an [`Event`].

use crate::detect;
use crate::detect::Format;
use crate::ingest;
use crate::ingest::{
    ChunkPlan, Drawer, DrawerView, IngestError, IngestErrorView, IngestOptions, IngestStats,
    StatsView, LOCK_TIMEOUT_SECS,
};
use crate::normalize;
use crate::paths;
use crate::text;
use std::path::{Path, PathBuf};
use vstd::prelude::*;

verus! {

/// A chunk of a source, with the id of the drawer that it goes to.
pub struct ChunkView {
    pub text: Seq<char>,
    pub drawer_id: Seq<char>,
}

/// The chunks with these texts, each with the id of its drawer.
pub open spec fn named_chunks(texts: Seq<Seq<char>>, ids: Seq<Seq<char>>) -> Seq<ChunkView> {
    Seq::new(texts.len(), |i: int| ChunkView { text: texts[i], drawer_id: ids[i] })
}

/// What is known of the file from the start.
pub struct JobView {
    pub path: PathBuf,
    pub wing: Seq<char>,
    pub room: Option<Seq<char>>,
    pub source_file: Seq<char>,
    /// The directory that holds the locks.
    pub home: &'static Path,
    pub dry_run: bool,
}

/// The chunks of the file, and how far they have been checked.
pub struct BatchView {
    pub format: Format,
    pub room: Seq<char>,
    pub chunks: Seq<ChunkView>,
    /// The wait for the lock of the source, once it was taken.
    pub lock_wait_ms: Option<u64>,
    /// Chunks that were looked up.
    pub checked: nat,
    /// Positions of the chunks to store.
    pub accepted: Seq<nat>,
    /// Chunks that are stored already, or were accepted before.
    pub skipped: nat,
}

/// What the ingest waits for.
pub enum PhaseView {
    Reading,
    Routing { format: Format, text: Seq<char> },
    Chunking { format: Format, room: Seq<char> },
    Naming { format: Format, room: Seq<char>, texts: Seq<Seq<char>> },
    Locking { batch: BatchView },
    Checking { batch: BatchView },
    Embedding { batch: BatchView },
    Stamping { batch: BatchView, vectors: nat, written: nat },
    InsertingDrawer { batch: BatchView, vectors: nat, written: nat },
    InsertingVector { batch: BatchView, vectors: nat, written: nat },
}

/// An ingest on its way.
pub struct StateView {
    pub job: JobView,
    pub phase: PhaseView,
}

/// What came of the work that the ingest waited for.
pub enum EventView {
    FileRead { bytes: Seq<u8> },
    RoomRouted { room: Seq<char> },
    Chunked { texts: Seq<Seq<char>> },
    DrawersNamed { ids: Seq<Seq<char>> },
    LockAcquired { wait_ms: u128 },
    DrawerChecked { found: bool },
    Embedded { vectors: nat },
    Stamped { added_at: Seq<char> },
    DrawerInserted,
    VectorInserted,
    Failed,
}

/// The work to do next.
pub enum ActionView {
    RouteRoom { text: Seq<char>, wing: Seq<char> },
    Chunk { text: Seq<char>, plan: ChunkPlan },
    NameDrawers { wing: Seq<char>, room: Seq<char>, texts: Seq<Seq<char>> },
    AcquireLock { home: &'static Path, source_file: Seq<char>, timeout_secs: u64 },
    CheckDrawer { drawer_id: Seq<char> },
    Embed { texts: Seq<Seq<char>> },
    Stamp,
    InsertDrawer { drawer: DrawerView },
    InsertVector { drawer_id: Seq<char>, slot: nat },
}

/// How the ingest goes on after an event.
pub enum StepView {
    Continue { state: StateView, action: ActionView },
    Finish { stats: StatsView },
    Fail { error: IngestErrorView },
    Endless,
}

/// What is reported of a file of which nothing was stored.
pub open spec fn nothing_stored() -> StatsView {
    StatsView { files: 1, chunks: 0, skipped: 0, lock_wait_ms: None }
}

impl BatchView {
    /// The id of the drawer for the chunk at `i`.
    pub open spec fn id_at(self, i: nat) -> Seq<char> {
        self.chunks[i as int].drawer_id
    }

    /// A chunk for this drawer was accepted.
    pub open spec fn has_accepted(self, id: Seq<char>) -> bool {
        exists|k: int| 0 <= k < self.accepted.len() && self.id_at(#[trigger] self.accepted[k]) == id
    }

    /// The batch once the next chunk was looked up: it is skipped where its
    /// drawer exists or a chunk for that drawer was accepted, else accepted.
    pub open spec fn with_answer(self, found: bool) -> BatchView {
        if found || self.has_accepted(self.id_at(self.checked)) {
            BatchView { checked: self.checked + 1, skipped: self.skipped + 1, ..self }
        } else {
            BatchView {
                checked: self.checked + 1,
                accepted: self.accepted.push(self.checked),
                ..self
            }
        }
    }

    /// Every chunk looked up was accepted or skipped; the accepted ones stand in
    /// their order, each for a drawer of its own.
    pub open spec fn valid(self) -> bool {
        &&& self.checked <= self.chunks.len()
        &&& self.accepted.len() + self.skipped == self.checked
        &&& forall|k: int| 0 <= k < self.accepted.len() ==> #[trigger] self.accepted[k] < self.checked
        &&& forall|k: int, l: int|
            0 <= k < l < self.accepted.len() ==> {
                &&& #[trigger] self.accepted[k] < #[trigger] self.accepted[l]
                &&& self.id_at(self.accepted[k]) != self.id_at(self.accepted[l])
            }
    }

    /// The texts of the accepted chunks.
    pub open spec fn accepted_texts(self) -> Seq<Seq<char>> {
        self.accepted.map_values(|i: nat| self.chunks[i as int].text)
    }
}

/// What is reported of a batch of which `written` chunks were stored.
pub open spec fn batch_stats(job: JobView, batch: BatchView, written: nat) -> StatsView {
    StatsView {
        files: 1,
        chunks: if job.dry_run {
            batch.accepted.len()
        } else {
            written
        },
        skipped: batch.skipped,
        lock_wait_ms: batch.lock_wait_ms,
    }
}

/// How the ingest goes on with the text of the file: it routes the text to a
/// room, unless it was told one.
pub open spec fn with_text(job: JobView, format: Format, text: Seq<char>) -> StepView {
    match job.room {
        Some(room) => StepView::Continue {
            state: StateView { job, phase: PhaseView::Chunking { format, room } },
            action: ActionView::Chunk { text, plan: ingest::plan_of(format) },
        },
        None => StepView::Continue {
            state: StateView { job, phase: PhaseView::Routing { format, text } },
            action: ActionView::RouteRoom { text, wing: job.wing },
        },
    }
}

/// How the ingest goes on with the bytes of the file. A blank file is done.
pub open spec fn with_bytes(job: JobView, bytes: Seq<u8>) -> StepView {
    let content = text::lossy_text(bytes);
    let format = detect::detected(content);
    if text::trimmed(content).len() == 0 {
        StepView::Finish { stats: nothing_stored() }
    } else {
        match normalize::normalized(content, format) {
            Some(Ok(text)) => with_text(job, format, text),
            Some(Err(source)) => StepView::Fail {
                error: IngestErrorView::Normalize { path: job.path, source },
            },
            None => StepView::Endless,
        }
    }
}

/// The batch of chunks none of which was looked up.
pub open spec fn fresh_batch(
    format: Format,
    room: Seq<char>,
    chunks: Seq<ChunkView>,
    lock_wait_ms: Option<u64>,
) -> BatchView {
    BatchView {
        format,
        room,
        chunks,
        lock_wait_ms,
        checked: 0,
        accepted: seq![],
        skipped: 0,
    }
}

/// How the ingest goes on with the texts of the chunks: it asks for the ids of
/// their drawers, in the wing and the room. No chunks are no work.
pub open spec fn with_texts(
    job: JobView,
    format: Format,
    room: Seq<char>,
    texts: Seq<Seq<char>>,
) -> StepView {
    if texts.len() == 0 {
        StepView::Finish { stats: nothing_stored() }
    } else {
        StepView::Continue {
            state: StateView { job, phase: PhaseView::Naming { format, room, texts } },
            action: ActionView::NameDrawers { wing: job.wing, room, texts },
        }
    }
}

/// How the ingest goes on with the chunks: before any of them is looked up the
/// lock of the source is taken, with a limit on the wait for it, except in a dry
/// run.
pub open spec fn with_chunks(
    job: JobView,
    format: Format,
    room: Seq<char>,
    chunks: Seq<ChunkView>,
) -> StepView {
    let batch = fresh_batch(format, room, chunks, None);
    if job.dry_run {
        check_next(job, batch)
    } else {
        StepView::Continue {
            state: StateView { job, phase: PhaseView::Locking { batch } },
            action: ActionView::AcquireLock {
                home: job.home,
                source_file: job.source_file,
                timeout_secs: LOCK_TIMEOUT_SECS,
            },
        }
    }
}

/// How the ingest goes on with a batch: it looks the next chunk up; when none is
/// left, it embeds the accepted ones, unless there are none or this is a dry
/// run.
pub open spec fn check_next(job: JobView, batch: BatchView) -> StepView {
    if batch.checked < batch.chunks.len() {
        StepView::Continue {
            state: StateView { job, phase: PhaseView::Checking { batch } },
            action: ActionView::CheckDrawer { drawer_id: batch.id_at(batch.checked) },
        }
    } else if job.dry_run || batch.accepted.len() == 0 {
        StepView::Finish { stats: batch_stats(job, batch, 0) }
    } else {
        StepView::Continue {
            state: StateView { job, phase: PhaseView::Embedding { batch } },
            action: ActionView::Embed { texts: batch.accepted_texts() },
        }
    }
}

/// How the ingest goes on with the accepted chunks: it stores the next one that
/// has a vector; when none is left, it is done.
pub open spec fn write_next(
    job: JobView,
    batch: BatchView,
    vectors: nat,
    written: nat,
) -> StepView {
    if written < batch.accepted.len() && written < vectors {
        StepView::Continue {
            state: StateView { job, phase: PhaseView::Stamping { batch, vectors, written } },
            action: ActionView::Stamp,
        }
    } else {
        StepView::Finish { stats: batch_stats(job, batch, written) }
    }
}

/// The drawer for an accepted chunk.
pub open spec fn drawer_for(
    job: JobView,
    batch: BatchView,
    written: nat,
    added_at: Seq<char>,
) -> DrawerView {
    let i = batch.accepted[written as int];
    DrawerView {
        id: batch.id_at(i),
        content: batch.chunks[i as int].text,
        wing: job.wing,
        room: Some(batch.room),
        source_file: Some(job.source_file),
        source_type: ingest::source_of(batch.format),
        added_at,
        chunk_index: Some(i as i64),
        importance: 0,
    }
}

/// How the ingest goes on after an event; `None` where it does not wait for that
/// event. Drawers are named one for each text.
pub open spec fn step(state: StateView, event: EventView) -> Option<StepView> {
    let job = state.job;
    match (state.phase, event) {
        (PhaseView::Reading, EventView::FileRead { bytes }) => Some(with_bytes(job, bytes)),
        (PhaseView::Reading, EventView::Failed) => Some(
            StepView::Fail { error: IngestErrorView::ReadFile { path: job.path } },
        ),
        (PhaseView::Routing { format, text }, EventView::RoomRouted { room }) => Some(
            StepView::Continue {
                state: StateView { job, phase: PhaseView::Chunking { format, room } },
                action: ActionView::Chunk { text, plan: ingest::plan_of(format) },
            },
        ),
        (PhaseView::Routing { .. }, EventView::Failed) => Some(
            StepView::Fail { error: IngestErrorView::LoadTaxonomy { wing: job.wing } },
        ),
        (PhaseView::Chunking { format, room }, EventView::Chunked { texts }) => Some(
            with_texts(job, format, room, texts),
        ),
        (PhaseView::Naming { format, room, texts }, EventView::DrawersNamed { ids }) => if ids.len()
            == texts.len() {
            Some(with_chunks(job, format, room, named_chunks(texts, ids)))
        } else {
            None
        },
        (PhaseView::Locking { batch }, EventView::LockAcquired { wait_ms }) => Some(
            check_next(job, BatchView { lock_wait_ms: Some(wait_ms as u64), ..batch }),
        ),
        (PhaseView::Locking { .. }, EventView::Failed) => Some(
            StepView::Fail { error: IngestErrorView::Lock },
        ),
        (PhaseView::Checking { batch }, EventView::DrawerChecked { found }) => Some(
            check_next(job, batch.with_answer(found)),
        ),
        (PhaseView::Checking { batch }, EventView::Failed) => Some(
            StepView::Fail {
                error: IngestErrorView::CheckDrawer { drawer_id: batch.id_at(batch.checked) },
            },
        ),
        (PhaseView::Embedding { batch }, EventView::Embedded { vectors }) => Some(
            write_next(job, batch, vectors, 0),
        ),
        (PhaseView::Embedding { .. }, EventView::Failed) => Some(
            StepView::Fail { error: IngestErrorView::EmbedChunks { path: job.path } },
        ),
        (PhaseView::Stamping { batch, vectors, written }, EventView::Stamped { added_at }) => Some(
            StepView::Continue {
                state: StateView {
                    job,
                    phase: PhaseView::InsertingDrawer { batch, vectors, written },
                },
                action: ActionView::InsertDrawer {
                    drawer: drawer_for(job, batch, written, added_at),
                },
            },
        ),
        (PhaseView::InsertingDrawer { batch, vectors, written }, EventView::DrawerInserted) => Some(
            StepView::Continue {
                state: StateView {
                    job,
                    phase: PhaseView::InsertingVector { batch, vectors, written },
                },
                action: ActionView::InsertVector {
                    drawer_id: batch.id_at(batch.accepted[written as int]),
                    slot: written,
                },
            },
        ),
        (PhaseView::InsertingDrawer { batch, vectors, written }, EventView::Failed) => Some(
            StepView::Fail {
                error: IngestErrorView::InsertDrawer {
                    drawer_id: batch.id_at(batch.accepted[written as int]),
                },
            },
        ),
        (PhaseView::InsertingVector { batch, vectors, written }, EventView::VectorInserted) => Some(
            write_next(job, batch, vectors, written + 1),
        ),
        (PhaseView::InsertingVector { batch, vectors, written }, EventView::Failed) => Some(
            StepView::Fail {
                error: IngestErrorView::InsertVector {
                    drawer_id: batch.id_at(batch.accepted[written as int]),
                },
            },
        ),
        _ => None,
    }
}

/// The batch has been looked up or is being so: under the lock of the source,
/// except in a dry run, which takes none.
pub open spec fn is_guarded(job: JobView, batch: BatchView) -> bool {
    batch.lock_wait_ms is None <==> job.dry_run
}

/// All chunks were looked up, some are to be stored, and this is no dry run.
pub open spec fn is_settled(job: JobView, batch: BatchView) -> bool {
    &&& batch.valid()
    &&& is_guarded(job, batch)
    &&& !job.dry_run
    &&& batch.checked == batch.chunks.len()
    &&& batch.accepted.len() > 0
}

impl StateView {
    /// What holds of every ingest on its way.
    pub open spec fn valid(self) -> bool {
        match self.phase {
            PhaseView::Reading | PhaseView::Routing { .. } | PhaseView::Chunking { .. } => true,
            PhaseView::Naming { texts, .. } => texts.len() > 0,
            PhaseView::Locking { batch } => {
                &&& !self.job.dry_run
                &&& batch.chunks.len() > 0
                &&& batch == fresh_batch(batch.format, batch.room, batch.chunks, None)
            },
            PhaseView::Checking { batch } => {
                &&& batch.valid()
                &&& is_guarded(self.job, batch)
                &&& batch.checked < batch.chunks.len()
            },
            PhaseView::Embedding { batch } => is_settled(self.job, batch),
            PhaseView::Stamping { batch, vectors, written } => {
                &&& is_settled(self.job, batch)
                &&& written < vectors
                &&& written < batch.accepted.len()
            },
            PhaseView::InsertingDrawer { batch, vectors, written } => {
                &&& is_settled(self.job, batch)
                &&& written < vectors
                &&& written < batch.accepted.len()
            },
            PhaseView::InsertingVector { batch, vectors, written } => {
                &&& is_settled(self.job, batch)
                &&& written < vectors
                &&& written < batch.accepted.len()
            },
        }
    }
}

/// An answer keeps a batch valid.
pub proof fn answer_keeps_batch_valid(batch: BatchView, found: bool)
    requires
        batch.valid(),
        batch.checked < batch.chunks.len(),
    ensures
        batch.with_answer(found).valid(),
{
    let next = batch.with_answer(found);
    if next.accepted.len() > batch.accepted.len() {
        assert forall|k: int, l: int| 0 <= k < l < next.accepted.len() implies {
            &&& #[trigger] next.accepted[k] < #[trigger] next.accepted[l]
            &&& next.id_at(next.accepted[k]) != next.id_at(next.accepted[l])
        } by {
            assert(next.accepted[k] == batch.accepted[k]);
            if l == batch.accepted.len() {
                assert(batch.id_at(batch.accepted[k]) != batch.id_at(batch.checked));
            } else {
                assert(next.accepted[l] == batch.accepted[l]);
            }
        }
    }
}

/// A valid ingest stays valid whatever happens, and keeps what it was told.
pub proof fn step_keeps_valid(state: StateView, event: EventView)
    requires
        state.valid(),
    ensures
        step(state, event) matches Some(StepView::Continue { state: next, .. }) ==> next.valid()
            && next.job == state.job,
{
    match (state.phase, event) {
        (PhaseView::Checking { batch }, EventView::DrawerChecked { found }) => {
            answer_keeps_batch_valid(batch, found);
        },
        _ => {},
    }
}

/// What came of the work that the ingest waited for.
#[derive(Debug)]
pub enum Event {
    /// The file was read.
    FileRead { bytes: Vec<u8> },
    /// The taxonomy was loaded, and routed the text to a room.
    RoomRouted { room: String },
    /// The text was cut into chunks, which have these texts.
    Chunked { texts: Vec<String> },
    /// The drawers for the texts have these ids, in the order of the texts.
    DrawersNamed { ids: Vec<String> },
    /// The lock of the source was taken.
    LockAcquired { wait_ms: u128 },
    /// The drawer was looked up.
    DrawerChecked { found: bool },
    /// The texts were embedded.
    Embedded { vectors: usize },
    /// The time was taken.
    Stamped { added_at: String },
    /// The drawer was stored.
    DrawerInserted,
    /// The vector was stored.
    VectorInserted,
    /// The work failed.
    Failed,
}

impl View for Event {
    type V = EventView;

    open spec fn view(&self) -> EventView {
        match *self {
            Event::FileRead { bytes } => EventView::FileRead { bytes: bytes@ },
            Event::RoomRouted { room } => EventView::RoomRouted { room: room@ },
            Event::Chunked { texts } => EventView::Chunked { texts: text::strings(texts@) },
            Event::DrawersNamed { ids } => EventView::DrawersNamed { ids: text::strings(ids@) },
            Event::LockAcquired { wait_ms } => EventView::LockAcquired { wait_ms },
            Event::DrawerChecked { found } => EventView::DrawerChecked { found },
            Event::Embedded { vectors } => EventView::Embedded { vectors: vectors as nat },
            Event::Stamped { added_at } => EventView::Stamped { added_at: added_at@ },
            Event::DrawerInserted => EventView::DrawerInserted,
            Event::VectorInserted => EventView::VectorInserted,
            Event::Failed => EventView::Failed,
        }
    }
}

/// The work to do next.
#[derive(Debug)]
pub enum Action {
    /// Load the taxonomy, and route the text to a room of the wing.
    RouteRoom { text: String, wing: String },
    /// Cut the text into chunks.
    Chunk { text: String, plan: ChunkPlan },
    /// Compute, for each of the texts, the id of the drawer for that text in
    /// this wing and room.
    NameDrawers { wing: String, room: String, texts: Vec<String> },
    /// Take the lock of the source, among those in `home`; fail where that takes
    /// longer than the timeout.
    AcquireLock { home: PathBuf, source_file: String, timeout_secs: u64 },
    /// Look the drawer up.
    CheckDrawer { drawer_id: String },
    /// Embed the texts.
    Embed { texts: Vec<String> },
    /// Take the time.
    Stamp,
    /// Store the drawer.
    InsertDrawer { drawer: Drawer },
    /// Store the vector at this position for the drawer.
    InsertVector { drawer_id: String, slot: usize },
}

impl View for Action {
    type V = ActionView;

    open spec fn view(&self) -> ActionView {
        match *self {
            Action::RouteRoom { text, wing } => ActionView::RouteRoom { text: text@, wing: wing@ },
            Action::Chunk { text, plan } => ActionView::Chunk { text: text@, plan },
            Action::NameDrawers { wing, room, texts } => ActionView::NameDrawers {
                wing: wing@,
                room: room@,
                texts: text::strings(texts@),
            },
            Action::AcquireLock { home, source_file, timeout_secs } => ActionView::AcquireLock {
                home: paths::buf_path(&home),
                source_file: source_file@,
                timeout_secs,
            },
            Action::CheckDrawer { drawer_id } => ActionView::CheckDrawer { drawer_id: drawer_id@ },
            Action::Embed { texts } => ActionView::Embed { texts: text::strings(texts@) },
            Action::Stamp => ActionView::Stamp,
            Action::InsertDrawer { drawer } => ActionView::InsertDrawer { drawer: drawer@ },
            Action::InsertVector { drawer_id, slot } => ActionView::InsertVector {
                drawer_id: drawer_id@,
                slot: slot as nat,
            },
        }
    }
}

/// What is known of the file from the start.
#[derive(Debug)]
struct Job {
    path: PathBuf,
    wing: String,
    room: Option<String>,
    source_file: String,
    home: PathBuf,
    dry_run: bool,
}

impl Job {
    spec fn view(&self) -> JobView {
        JobView {
            path: self.path,
            wing: self.wing@,
            room: text::opt_string(self.room),
            source_file: self.source_file@,
            home: paths::buf_path(&self.home),
            dry_run: self.dry_run,
        }
    }
}

/// The chunks of the file, and how far they have been checked. The text of a
/// chunk and the id of its drawer stand at the same position.
#[derive(Debug)]
struct Batch {
    format: Format,
    room: String,
    texts: Vec<String>,
    ids: Vec<String>,
    lock_wait_ms: Option<u64>,
    checked: usize,
    accepted: Vec<usize>,
    skipped: usize,
}

/// Positions, as numbers without bound.
pub open spec fn positions(list: Seq<usize>) -> Seq<nat> {
    list.map_values(|i: usize| i as nat)
}

impl Batch {
    spec fn view(&self) -> BatchView {
        BatchView {
            format: self.format,
            room: self.room@,
            chunks: named_chunks(text::strings(self.texts@), text::strings(self.ids@)),
            lock_wait_ms: self.lock_wait_ms,
            checked: self.checked as nat,
            accepted: positions(self.accepted@),
            skipped: self.skipped as nat,
        }
    }

    /// Every text has the id of its drawer.
    spec fn is_named(&self) -> bool {
        self.ids@.len() == self.texts@.len()
    }

    /// The chunks, none of which was looked up.
    fn fresh(format: Format, room: String, texts: Vec<String>, ids: Vec<String>) -> (r: Batch)
        requires
            ids@.len() == texts@.len(),
        ensures
            r.is_named(),
            r@ == fresh_batch(
                format,
                room@,
                named_chunks(text::strings(texts@), text::strings(ids@)),
                None,
            ),
    {
        let batch = Batch {
            format,
            room,
            texts,
            ids,
            lock_wait_ms: None,
            checked: 0,
            accepted: Vec::new(),
            skipped: 0,
        };
        assert(positions(batch.accepted@) =~= seq![]);
        batch
    }

    /// Whether a chunk for this drawer was accepted.
    fn has_accepted(&self, id: &str) -> (r: bool)
        requires
            self.is_named(),
            self@.valid(),
        ensures
            r == self@.has_accepted(id@),
    {
        let mut k: usize = 0;
        while k < self.accepted.len()
            invariant
                k <= self.accepted.len(),
                self.is_named(),
                self@.valid(),
                forall|l: int|
                    0 <= l < k ==> self@.id_at(#[trigger] self@.accepted[l]) != id@,
            decreases self.accepted.len() - k,
        {
            let i = self.accepted[k];
            assert(self@.accepted[k as int] == i as nat);
            if *self.ids[i].as_str() == *id {
                return true;
            }
            k += 1;
        }
        false
    }

    /// The batch once the next chunk was looked up.
    fn answered(self, found: bool) -> (r: Batch)
        requires
            self.is_named(),
            self@.valid(),
            self@.checked < self@.chunks.len(),
        ensures
            r.is_named(),
            r@ == self@.with_answer(found),
    {
        let mut batch = self;
        assert(batch.skipped <= batch.checked < batch.texts.len());
        let skip = found || batch.has_accepted(batch.ids[batch.checked].as_str());
        if skip {
            batch.skipped = batch.skipped + 1;
        } else {
            let ghost before = batch.accepted@;
            batch.accepted.push(batch.checked);
            assert(positions(batch.accepted@) =~= positions(before).push(batch.checked as nat));
        }
        batch.checked = batch.checked + 1;
        batch
    }

    /// The texts of the accepted chunks.
    fn accepted_texts(&self) -> (r: Vec<String>)
        requires
            self.is_named(),
            self@.valid(),
        ensures
            text::strings(r@) == self@.accepted_texts(),
    {
        let mut texts: Vec<String> = Vec::new();
        let mut k: usize = 0;
        while k < self.accepted.len()
            invariant
                k <= self.accepted.len(),
                self.is_named(),
                self@.valid(),
                texts@.len() == k,
                forall|l: int|
                    0 <= l < k ==> (#[trigger] texts@[l])@ == self@.accepted_texts()[l],
            decreases self.accepted.len() - k,
        {
            let i = self.accepted[k];
            assert(self@.accepted[k as int] == i as nat);
            texts.push(self.texts[i].clone());
            k += 1;
        }
        assert(text::strings(texts@) =~= self@.accepted_texts());
        texts
    }

    /// What is reported of this batch, with `written` chunks stored.
    fn stats(&self, job: &Job, written: usize) -> (r: IngestStats)
        ensures
            r@ == batch_stats(job@, self@, written as nat),
    {
        IngestStats {
            files: 1,
            chunks: if job.dry_run {
                self.accepted.len()
            } else {
                written
            },
            skipped: self.skipped,
            lock_wait_ms: self.lock_wait_ms,
        }
    }
}

/// What the ingest waits for.
#[derive(Debug)]
enum Phase {
    Reading,
    Routing { format: Format, text: String },
    Chunking { format: Format, room: String },
    Naming { format: Format, room: String, texts: Vec<String> },
    Locking { batch: Batch },
    Checking { batch: Batch },
    Embedding { batch: Batch },
    Stamping { batch: Batch, vectors: usize, written: usize },
    InsertingDrawer { batch: Batch, vectors: usize, written: usize },
    InsertingVector { batch: Batch, vectors: usize, written: usize },
}

impl Phase {
    spec fn view(&self) -> PhaseView {
        match *self {
            Phase::Reading => PhaseView::Reading,
            Phase::Routing { format, text } => PhaseView::Routing { format, text: text@ },
            Phase::Chunking { format, room } => PhaseView::Chunking { format, room: room@ },
            Phase::Naming { format, room, texts } => PhaseView::Naming {
                format,
                room: room@,
                texts: text::strings(texts@),
            },
            Phase::Locking { batch } => PhaseView::Locking { batch: batch@ },
            Phase::Checking { batch } => PhaseView::Checking { batch: batch@ },
            Phase::Embedding { batch } => PhaseView::Embedding { batch: batch@ },
            Phase::Stamping { batch, vectors, written } => PhaseView::Stamping {
                batch: batch@,
                vectors: vectors as nat,
                written: written as nat,
            },
            Phase::InsertingDrawer { batch, vectors, written } => PhaseView::InsertingDrawer {
                batch: batch@,
                vectors: vectors as nat,
                written: written as nat,
            },
            Phase::InsertingVector { batch, vectors, written } => PhaseView::InsertingVector {
                batch: batch@,
                vectors: vectors as nat,
                written: written as nat,
            },
        }
    }
}

impl Phase {
    /// Every chunk has the id of its drawer, once drawers are named.
    spec fn is_named(&self) -> bool {
        match *self {
            Phase::Reading | Phase::Routing { .. } | Phase::Chunking { .. } | Phase::Naming { .. } => true,
            Phase::Locking { batch } => batch.is_named(),
            Phase::Checking { batch } => batch.is_named(),
            Phase::Embedding { batch } => batch.is_named(),
            Phase::Stamping { batch, .. } => batch.is_named(),
            Phase::InsertingDrawer { batch, .. } => batch.is_named(),
            Phase::InsertingVector { batch, .. } => batch.is_named(),
        }
    }
}

/// An ingest on its way. It starts by waiting for the bytes of the file.
#[derive(Debug)]
pub struct FileIngest {
    job: Job,
    phase: Phase,
}

impl View for FileIngest {
    type V = StateView;

    closed spec fn view(&self) -> StateView {
        StateView { job: self.job@, phase: self.phase@ }
    }
}

/// How the ingest goes on after an event.
#[derive(Debug)]
pub enum Step {
    /// It waits for the outcome of the action.
    Continue { state: FileIngest, action: Action },
    /// It is done.
    Finish { stats: IngestStats },
    /// It failed.
    Fail { error: IngestError },
    /// The file holds a conversation that does not end.
    Endless,
}

impl View for Step {
    type V = StepView;

    open spec fn view(&self) -> StepView {
        match *self {
            Step::Continue { state, action } => StepView::Continue {
                state: state@,
                action: action@,
            },
            Step::Finish { stats } => StepView::Finish { stats: stats@ },
            Step::Fail { error } => StepView::Fail { error: error@ },
            Step::Endless => StepView::Endless,
        }
    }
}

/// What is reported of a file of which nothing was stored.
fn report_nothing() -> (r: Step)
    ensures
        r@ == (StepView::Finish { stats: nothing_stored() }),
{
    Step::Finish { stats: IngestStats { files: 1, chunks: 0, skipped: 0, lock_wait_ms: None } }
}

impl FileIngest {
    #[verifier::type_invariant]
    spec fn holds(self) -> bool {
        self@.valid() && self.phase.is_named()
    }

    /// The ingest of the file at `path` into `wing`, for the database at
    /// `db_path`.
    pub fn new(db_path: &Path, path: &Path, wing: &str, options: &IngestOptions<'_>) -> (r:
        FileIngest)
        ensures
            r@.phase == PhaseView::Reading,
            paths::buf_path(&r@.job.path) == path,
            r@.job.wing == wing@,
            r@.job.room == text::opt_slice(options.room),
            r@.job.source_file == paths::source_name(path, options.source_root),
            paths::is_home_of(r@.job.home, db_path),
            r@.job.dry_run == options.dry_run,
    {
        let room = match options.room {
            Some(room) => Some(room.to_owned()),
            None => None,
        };
        let job = Job {
            path: path.to_path_buf(),
            wing: wing.to_owned(),
            room,
            source_file: paths::normalize_source_file(path, options.source_root),
            home: paths::mempal_home_from_db(db_path),
            dry_run: options.dry_run,
        };
        FileIngest { job, phase: Phase::Reading }
    }

    /// How the ingest goes on with the text of the file.
    fn continue_with_text(job: Job, format: Format, text: String) -> (r: Step)
        ensures
            r@ == with_text(job@, format, text@),
    {
        let room = job.room.clone();
        match room {
            Some(room) => {
                let action = Action::Chunk { text, plan: ingest::chunk_plan(format) };
                Step::Continue {
                    state: FileIngest { job, phase: Phase::Chunking { format, room } },
                    action,
                }
            },
            None => {
                let action = Action::RouteRoom { text: text.clone(), wing: job.wing.clone() };
                Step::Continue {
                    state: FileIngest { job, phase: Phase::Routing { format, text } },
                    action,
                }
            },
        }
    }

    /// How the ingest goes on with the bytes of the file.
    fn continue_with_bytes(job: Job, bytes: Vec<u8>) -> (r: Step)
        ensures
            r@ == with_bytes(job@, bytes@),
    {
        let content = text::decode_lossy(bytes.as_slice());
        if content.as_str().trim().is_empty() {
            return report_nothing();
        }
        let format = detect::detect_format(content.as_str());
        match normalize::try_normalize_content(content.as_str(), format) {
            Some(Ok(text)) => FileIngest::continue_with_text(job, format, text),
            Some(Err(source)) => Step::Fail {
                error: IngestError::Normalize { path: job.path, source },
            },
            None => Step::Endless,
        }
    }

    /// How the ingest goes on with a batch.
    fn continue_checking(job: Job, batch: Batch) -> (r: Step)
        requires
            batch.is_named(),
            batch@.valid(),
            is_guarded(job@, batch@),
        ensures
            r@ == check_next(job@, batch@),
    {
        if batch.checked < batch.texts.len() {
            let drawer_id = batch.ids[batch.checked].clone();
            Step::Continue {
                state: FileIngest { job, phase: Phase::Checking { batch } },
                action: Action::CheckDrawer { drawer_id },
            }
        } else if job.dry_run || batch.accepted.len() == 0 {
            Step::Finish { stats: batch.stats(&job, 0) }
        } else {
            let texts = batch.accepted_texts();
            Step::Continue {
                state: FileIngest { job, phase: Phase::Embedding { batch } },
                action: Action::Embed { texts },
            }
        }
    }

    /// How the ingest goes on with the texts of the chunks.
    fn continue_with_texts(job: Job, format: Format, room: String, texts: Vec<String>) -> (r: Step)
        ensures
            r@ == with_texts(job@, format, room@, text::strings(texts@)),
    {
        if texts.len() == 0 {
            return report_nothing();
        }
        let action = Action::NameDrawers {
            wing: job.wing.clone(),
            room: room.clone(),
            texts: text::copy_strings(&texts),
        };
        Step::Continue {
            state: FileIngest { job, phase: Phase::Naming { format, room, texts } },
            action,
        }
    }

    /// How the ingest goes on with the chunks.
    fn continue_with_chunks(job: Job, batch: Batch) -> (r: Step)
        requires
            batch.is_named(),
            batch@.chunks.len() > 0,
            batch@ == fresh_batch(batch@.format, batch@.room, batch@.chunks, None),
        ensures
            r@ == with_chunks(job@, batch@.format, batch@.room, batch@.chunks),
    {
        if job.dry_run {
            FileIngest::continue_checking(job, batch)
        } else {
            let action = Action::AcquireLock {
                home: job.home.as_path().to_path_buf(),
                source_file: job.source_file.clone(),
                timeout_secs: LOCK_TIMEOUT_SECS,
            };
            Step::Continue {
                state: FileIngest { job, phase: Phase::Locking { batch } },
                action,
            }
        }
    }

    /// How the ingest goes on with the accepted chunks.
    fn continue_writing(job: Job, batch: Batch, vectors: usize, written: usize) -> (r: Step)
        requires
            batch.is_named(),
            is_settled(job@, batch@),
        ensures
            r@ == write_next(job@, batch@, vectors as nat, written as nat),
    {
        if written < batch.accepted.len() && written < vectors {
            Step::Continue {
                state: FileIngest { job, phase: Phase::Stamping { batch, vectors, written } },
                action: Action::Stamp,
            }
        } else {
            Step::Finish { stats: batch.stats(&job, written) }
        }
    }

    /// The drawer for an accepted chunk.
    fn build_drawer(job: &Job, batch: &Batch, written: usize, added_at: String) -> (r: Drawer)
        requires
            batch.is_named(),
            batch@.valid(),
            written < batch@.accepted.len(),
        ensures
            r@ == drawer_for(job@, batch@, written as nat, added_at@),
    {
        let i = batch.accepted[written];
        assert(batch@.accepted[written as int] == i as nat);
        Drawer {
            id: batch.ids[i].clone(),
            content: batch.texts[i].clone(),
            wing: job.wing.clone(),
            room: Some(batch.room.clone()),
            source_file: Some(job.source_file.clone()),
            source_type: ingest::source_type_for(batch.format),
            added_at,
            chunk_index: Some(i as i64),
            importance: 0,
        }
    }

    /// The id of the drawer for an accepted chunk.
    fn accepted_id(batch: &Batch, written: usize) -> (r: String)
        requires
            batch.is_named(),
            batch@.valid(),
            written < batch@.accepted.len(),
        ensures
            r@ == batch@.id_at(batch@.accepted[written as int]),
    {
        let i = batch.accepted[written];
        assert(batch@.accepted[written as int] == i as nat);
        batch.ids[i].clone()
    }

    /// How the ingest goes on with the text of the file, once the file was read;
    /// `None` where it does not wait for the file.
    pub fn accept_text(self, format: Format, text: String) -> (r: Option<Step>)
        ensures
            r is Some <==> self@.phase is Reading,
            r matches Some(step) ==> step@ == with_text(self@.job, format, text@),
    {
        let FileIngest { job, phase } = self;
        match phase {
            Phase::Reading => Some(FileIngest::continue_with_text(job, format, text)),
            _ => None,
        }
    }

    /// How the ingest goes on after an event; `None` where it does not wait for
    /// that event.
    pub fn advance(self, event: Event) -> (r: Option<Step>)
        ensures
            r is Some <==> step(self@, event@) is Some,
            r matches Some(next) ==> step(self@, event@) == Some(next@),
    {
        proof {
            use_type_invariant(&self);
        }
        let FileIngest { job, phase } = self;
        match (phase, event) {
            (Phase::Reading, Event::FileRead { bytes }) => Some(
                FileIngest::continue_with_bytes(job, bytes),
            ),
            (Phase::Reading, Event::Failed) => Some(
                Step::Fail { error: IngestError::ReadFile { path: job.path } },
            ),
            (Phase::Routing { format, text }, Event::RoomRouted { room }) => {
                let action = Action::Chunk { text, plan: ingest::chunk_plan(format) };
                Some(
                    Step::Continue {
                        state: FileIngest { job, phase: Phase::Chunking { format, room } },
                        action,
                    },
                )
            },
            (Phase::Routing { .. }, Event::Failed) => Some(
                Step::Fail { error: IngestError::LoadTaxonomy { wing: job.wing } },
            ),
            (Phase::Chunking { format, room }, Event::Chunked { texts }) => Some(
                FileIngest::continue_with_texts(job, format, room, texts),
            ),
            (Phase::Naming { format, room, texts }, Event::DrawersNamed { ids }) => {
                if ids.len() == texts.len() {
                    let batch = Batch::fresh(format, room, texts, ids);
                    Some(FileIngest::continue_with_chunks(job, batch))
                } else {
                    None
                }
            },
            (Phase::Locking { batch }, Event::LockAcquired { wait_ms }) => {
                let mut batch = batch;
                batch.lock_wait_ms = Some(wait_ms as u64);
                Some(FileIngest::continue_checking(job, batch))
            },
            (Phase::Locking { .. }, Event::Failed) => Some(Step::Fail { error: IngestError::Lock }),
            (Phase::Checking { batch }, Event::DrawerChecked { found }) => {
                proof {
                    answer_keeps_batch_valid(batch@, found);
                }
                let batch = batch.answered(found);
                Some(FileIngest::continue_checking(job, batch))
            },
            (Phase::Checking { batch }, Event::Failed) => {
                let drawer_id = batch.ids[batch.checked].clone();
                Some(Step::Fail { error: IngestError::CheckDrawer { drawer_id } })
            },
            (Phase::Embedding { batch }, Event::Embedded { vectors }) => Some(
                FileIngest::continue_writing(job, batch, vectors, 0),
            ),
            (Phase::Embedding { .. }, Event::Failed) => Some(
                Step::Fail { error: IngestError::EmbedChunks { path: job.path } },
            ),
            (Phase::Stamping { batch, vectors, written }, Event::Stamped { added_at }) => {
                let drawer = FileIngest::build_drawer(&job, &batch, written, added_at);
                Some(
                    Step::Continue {
                        state: FileIngest {
                            job,
                            phase: Phase::InsertingDrawer { batch, vectors, written },
                        },
                        action: Action::InsertDrawer { drawer },
                    },
                )
            },
            (Phase::InsertingDrawer { batch, vectors, written }, Event::DrawerInserted) => {
                let drawer_id = FileIngest::accepted_id(&batch, written);
                Some(
                    Step::Continue {
                        state: FileIngest {
                            job,
                            phase: Phase::InsertingVector { batch, vectors, written },
                        },
                        action: Action::InsertVector { drawer_id, slot: written },
                    },
                )
            },
            (Phase::InsertingDrawer { batch, vectors, written }, Event::Failed) => {
                let drawer_id = FileIngest::accepted_id(&batch, written);
                Some(Step::Fail { error: IngestError::InsertDrawer { drawer_id } })
            },
            (Phase::InsertingVector { batch, vectors, written }, Event::VectorInserted) => Some(
                FileIngest::continue_writing(job, batch, vectors, written + 1),
            ),
            (Phase::InsertingVector { batch, vectors, written }, Event::Failed) => {
                let drawer_id = FileIngest::accepted_id(&batch, written);
                Some(Step::Fail { error: IngestError::InsertVector { drawer_id } })
            },
            _ => None,
        }
    }
}

} // verus!
