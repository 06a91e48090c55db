//! What the laws speak of is what callers hand in and get back, with nothing left
//! out.

use crate::chatgpt::{Thread, ThreadView};
use crate::dir_ingest::{DirEvent, DirEventView, DirStep, DirStepView};
use crate::file_ingest::{Action, ActionView, Event, EventView, Step, StepView};
use crate::ingest::{Drawer, IngestError, IngestErrorView, IngestStats};
use crate::json;
use crate::json::{Json, JsonView};
use crate::normalize;
use crate::normalize::NormalizeError;
use crate::paths;
use crate::text;
use crate::transcript::{Message, MessageView};
use vstd::prelude::*;

verus! {

/// `views` are the texts of `list`, all of them and in order.
pub open spec fn are_texts_of(views: Seq<Seq<char>>, list: Seq<String>) -> bool {
    &&& views.len() == list.len()
    &&& forall|i: int| 0 <= i < list.len() ==> #[trigger] views[i] == list[i]@
}

/// `views` are the messages of `list`, all of them and in order.
pub open spec fn are_messages_of(views: Seq<MessageView>, list: Seq<Message>) -> bool {
    &&& views.len() == list.len()
    &&& forall|i: int|
        0 <= i < list.len() ==> (#[trigger] views[i]).role == list[i].role@ && views[i].content
            == list[i].content@
}

/// Counts show all of their numbers.
pub proof fn counts_show_their_numbers(stats: IngestStats)
    ensures
        stats@.files == stats.files,
        stats@.chunks == stats.chunks,
        stats@.skipped == stats.skipped,
        stats@.lock_wait_ms == stats.lock_wait_ms,
{
}

/// Drawers show all that is stored of them.
pub proof fn drawers_show_what_is_stored(drawer: Drawer)
    ensures
        drawer@.id == drawer.id@,
        drawer@.content == drawer.content@,
        drawer@.wing == drawer.wing@,
        drawer.room matches Some(room) ==> drawer@.room == Some(room@),
        drawer.room is None ==> drawer@.room is None,
        drawer.source_file matches Some(file) ==> drawer@.source_file == Some(file@),
        drawer.source_file is None ==> drawer@.source_file is None,
        drawer@.source_type == drawer.source_type,
        drawer@.added_at == drawer.added_at@,
        drawer@.chunk_index == drawer.chunk_index,
        drawer@.importance == drawer.importance,
{
}

/// Errors show what failed, and for what.
pub proof fn errors_show_what_failed(error: IngestError)
    ensures
        match error {
            IngestError::ReadFile { path } => error@ == (IngestErrorView::ReadFile { path }),
            IngestError::Normalize { path, source } => error@ == (IngestErrorView::Normalize {
                path,
                source,
            }),
            IngestError::LoadTaxonomy { wing } => error@ == (IngestErrorView::LoadTaxonomy {
                wing: wing@,
            }),
            IngestError::EmbedChunks { path } => error@ == (IngestErrorView::EmbedChunks { path }),
            IngestError::CheckDrawer { drawer_id } => error@ == (IngestErrorView::CheckDrawer {
                drawer_id: drawer_id@,
            }),
            IngestError::InsertDrawer { drawer_id } => error@ == (IngestErrorView::InsertDrawer {
                drawer_id: drawer_id@,
            }),
            IngestError::InsertVector { drawer_id } => error@ == (IngestErrorView::InsertVector {
                drawer_id: drawer_id@,
            }),
            IngestError::Lock => error@ == IngestErrorView::Lock,
            IngestError::ReadDir { path } => error@ == (IngestErrorView::ReadDir { path }),
            IngestError::ReadDirEntry { path } => error@ == (IngestErrorView::ReadDirEntry { path }),
        },
{
}

/// Events of an ingest show all that happened.
pub proof fn events_show_what_happened(event: Event)
    ensures
        match event {
            Event::FileRead { bytes } => event@ == (EventView::FileRead { bytes: bytes@ }),
            Event::RoomRouted { room } => event@ == (EventView::RoomRouted { room: room@ }),
            Event::Chunked { texts } => event@ matches EventView::Chunked { texts: views }
                && are_texts_of(views, texts@),
            Event::DrawersNamed { ids } => event@ matches EventView::DrawersNamed { ids: views }
                && are_texts_of(views, ids@),
            Event::LockAcquired { wait_ms } => event@ == (EventView::LockAcquired { wait_ms }),
            Event::DrawerChecked { found } => event@ == (EventView::DrawerChecked { found }),
            Event::Embedded { vectors } => event@ == (EventView::Embedded {
                vectors: vectors as nat,
            }),
            Event::Stamped { added_at } => event@ == (EventView::Stamped { added_at: added_at@ }),
            Event::DrawerInserted => event@ == EventView::DrawerInserted,
            Event::VectorInserted => event@ == EventView::VectorInserted,
            Event::Failed => event@ == EventView::Failed,
        },
{
}

/// Actions of an ingest show all that is asked for.
pub proof fn actions_show_what_is_asked(action: Action)
    ensures
        match action {
            Action::RouteRoom { text, wing } => action@ == (ActionView::RouteRoom {
                text: text@,
                wing: wing@,
            }),
            Action::Chunk { text, plan } => action@ == (ActionView::Chunk { text: text@, plan }),
            Action::NameDrawers { wing, room, texts } => {
                &&& action@ matches ActionView::NameDrawers { wing: w, room: r, texts: views }
                &&& w == wing@
                &&& r == room@
                &&& are_texts_of(views, texts@)
            },
            Action::AcquireLock { home, source_file, timeout_secs } => action@ == (
            ActionView::AcquireLock {
                home: paths::buf_path(&home),
                source_file: source_file@,
                timeout_secs,
            }),
            Action::CheckDrawer { drawer_id } => action@ == (ActionView::CheckDrawer {
                drawer_id: drawer_id@,
            }),
            Action::Embed { texts } => action@ matches ActionView::Embed { texts: views }
                && are_texts_of(views, texts@),
            Action::Stamp => action@ == ActionView::Stamp,
            Action::InsertDrawer { drawer } => action@ == (ActionView::InsertDrawer {
                drawer: drawer@,
            }),
            Action::InsertVector { drawer_id, slot } => action@ == (ActionView::InsertVector {
                drawer_id: drawer_id@,
                slot: slot as nat,
            }),
        },
{
}

/// Steps of an ingest show how it goes on.
pub proof fn steps_show_how_it_goes_on(step: Step)
    ensures
        match step {
            Step::Continue { state, action } => step@ == (StepView::Continue {
                state: state@,
                action: action@,
            }),
            Step::Finish { stats } => step@ == (StepView::Finish { stats: stats@ }),
            Step::Fail { error } => step@ == (StepView::Fail { error: error@ }),
            Step::Endless => step@ == StepView::Endless,
        },
{
}

/// Events and steps of a walk show all that happened and how it goes on.
pub proof fn walks_show_what_happens(event: DirEvent, step: DirStep)
    ensures
        match event {
            DirEvent::Opened => event@ == DirEventView::Opened,
            DirEvent::Entry { path, kind } => event@ == (DirEventView::Entry { path, kind }),
            DirEvent::Exhausted => event@ == DirEventView::Exhausted,
            DirEvent::FileIngested { stats } => event@ == (DirEventView::FileIngested {
                stats: stats@,
            }),
            DirEvent::FileFailed { error } => event@ == (DirEventView::FileFailed {
                error: error@,
            }),
            DirEvent::Failed => event@ == DirEventView::Failed,
        },
        match step {
            DirStep::Continue { state, action } => step@ == (DirStepView::Continue {
                state: state@,
                action,
            }),
            DirStep::Finish { stats } => step@ == (DirStepView::Finish { stats: stats@ }),
            DirStep::Fail { error } => step@ == (DirStepView::Fail { error: error@ }),
        },
{
}

/// Conversations show all of their messages.
pub proof fn threads_show_their_messages(thread: Thread)
    ensures
        match thread {
            Thread::Messages(messages) => thread@ matches ThreadView::Messages(views)
                && are_messages_of(views, messages@),
            Thread::Endless => thread@ == ThreadView::Endless,
            Thread::Unsupported => thread@ == ThreadView::Unsupported,
        },
{
}

/// Outcomes show their values and errors.
pub proof fn outcomes_show_what_came_out(
    parsed: Result<Json, serde_json::Error>,
    records: Result<Vec<Json>, serde_json::Error>,
    normalized: Result<String, NormalizeError>,
)
    ensures
        json::json_outcome(parsed) == match parsed {
            Ok(value) => Ok::<JsonView, _>(value@),
            Err(error) => Err(error),
        },
        match records {
            Ok(values) => {
                &&& json::records_outcome(records) matches Ok(views)
                &&& views.len() == values@.len()
                &&& forall|i: int| 0 <= i < values@.len() ==> #[trigger] views[i] == values@[i]@
            },
            Err(error) => json::records_outcome(records) == Err::<Seq<JsonView>, _>(error),
        },
        normalize::text_outcome(normalized) == match normalized {
            Ok(text) => Ok::<Seq<char>, _>(text@),
            Err(error) => Err(error),
        },
{
}

/// Optional texts and lists of them show what they hold.
pub proof fn texts_show_what_they_hold(
    slice: Option<&str>,
    string: Option<String>,
    slices: Seq<&str>,
    strings: Seq<String>,
)
    ensures
        slice matches Some(s) ==> text::opt_slice(slice) == Some(s@),
        slice is None ==> text::opt_slice(slice) is None,
        string matches Some(s) ==> text::opt_string(string) == Some(s@),
        string is None ==> text::opt_string(string) is None,
        text::slices(slices).len() == slices.len(),
        forall|i: int| 0 <= i < slices.len() ==> text::slices(slices)[i] == (#[trigger] slices[i])@,
        are_texts_of(text::strings(strings), strings),
{
}

} // verus!
