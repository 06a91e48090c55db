//! What holds of the drawers that an ingest stores: their ids, and the names of
//! their sources.

use crate::file_ingest::{ActionView, BatchView, EventView, JobView, PhaseView, StepView};
use crate::laws::file_runs;
use crate::paths;
use crate::text;
use std::path::Path;
use vstd::prelude::*;

verus! {

/// The room that the ingest was told, or else the one that the text was routed
/// to.
pub open spec fn room_of(job: JobView, events: Seq<EventView>) -> Option<Seq<char>>
    decreases events.len(),
{
    if job.room is Some {
        job.room
    } else if events.len() == 0 {
        None
    } else {
        match events.last() {
            EventView::RoomRouted { room } => Some(room),
            _ => room_of(job, events.drop_last()),
        }
    }
}

/// The ids of these texts in a wing and a room, as `id_of` computes them.
pub open spec fn ids_by(
    id_of: spec_fn(Seq<char>, Seq<char>, Seq<char>) -> Seq<char>,
    wing: Seq<char>,
    room: Seq<char>,
    texts: Seq<Seq<char>>,
) -> Seq<Seq<char>> {
    texts.map_values(|text: Seq<char>| id_of(wing, room, text))
}

/// When the ingest asked for ids, it got those that `id_of` computes from the
/// wing, the room and each of the texts that it handed out.
pub open spec fn is_named_by(
    id_of: spec_fn(Seq<char>, Seq<char>, Seq<char>) -> Seq<char>,
    job: JobView,
    events: Seq<EventView>,
) -> bool
    decreases events.len(),
{
    events.len() > 0 ==> {
        &&& is_named_by(id_of, job, events.drop_last())
        &&& match (file_runs::last_step(job, events.drop_last()), events.last()) {
            (
                Some(
                    StepView::Continue {
                        action: ActionView::NameDrawers { wing, room, texts },
                        ..
                    },
                ),
                EventView::DrawersNamed { ids },
            ) => ids == ids_by(id_of, wing, room, texts),
            _ => true,
        }
    }
}

/// What was asked for last is what the phase waits for.
proof fn lemma_asked_for_ids(job: JobView, events: Seq<EventView>)
    ensures
        file_runs::reach(job, events) matches Some(state) ==> (
        state.phase matches PhaseView::Naming { format, room, texts } ==> file_runs::last_step(
            job,
            events,
        ) == Some(
            StepView::Continue {
                state,
                action: ActionView::NameDrawers { wing: job.wing, room, texts },
            },
        )),
{
    if events.len() > 0 {
        file_runs::reachable_states_are_valid(job, events.drop_last());
    }
}

/// The chunks of the batch have the ids that `id_of` computes.
spec fn has_ids_by(
    id_of: spec_fn(Seq<char>, Seq<char>, Seq<char>) -> Seq<char>,
    job: JobView,
    batch: BatchView,
) -> bool {
    forall|i: int|
        0 <= i < batch.chunks.len() ==> (#[trigger] batch.chunks[i]).drawer_id == id_of(
            job.wing,
            batch.room,
            batch.chunks[i].text,
        )
}

proof fn lemma_batch_ids(
    id_of: spec_fn(Seq<char>, Seq<char>, Seq<char>) -> Seq<char>,
    job: JobView,
    events: Seq<EventView>,
)
    requires
        is_named_by(id_of, job, events),
    ensures
        file_runs::reach(job, events) matches Some(state) ==> {
            &&& state.phase matches PhaseView::Locking { batch } ==> has_ids_by(id_of, job, batch)
            &&& file_runs::batch_in(state.phase) matches Some(batch) ==> has_ids_by(
                id_of,
                job,
                batch,
            )
        },
    decreases events.len(),
{
    if events.len() > 0 {
        let before = events.drop_last();
        lemma_batch_ids(id_of, job, before);
        lemma_asked_for_ids(job, before);
        file_runs::reachable_states_are_valid(job, before);
    }
}

/// A drawer is looked up and stored under the id of its text in the wing and the
/// room: the drawer that is looked up next is that of the next chunk, and each
/// drawer that is stored has the id of its own content, wing and room.
pub proof fn drawers_have_the_ids_of_their_texts(
    id_of: spec_fn(Seq<char>, Seq<char>, Seq<char>) -> Seq<char>,
    job: JobView,
    events: Seq<EventView>,
)
    requires
        is_named_by(id_of, job, events),
    ensures
        file_runs::last_step(job, events) matches Some(StepView::Continue { state, action }) ==> {
            &&& (action matches ActionView::CheckDrawer { drawer_id } ==> {
                &&& state.phase matches PhaseView::Checking { batch }
                &&& drawer_id == id_of(
                    job.wing,
                    batch.room,
                    batch.chunks[batch.checked as int].text,
                )
            })
            &&& (action matches ActionView::InsertDrawer { drawer } ==> {
                &&& drawer.room matches Some(room)
                &&& drawer.id == id_of(drawer.wing, room, drawer.content)
            })
        },
{
    if events.len() > 0 {
        let before = events.drop_last();
        file_runs::reachable_states_are_valid(job, before);
        file_runs::reachable_states_are_valid(job, events);
        lemma_batch_ids(id_of, job, events);
    }
}

pub(super) proof fn lemma_rooms(job: JobView, events: Seq<EventView>)
    ensures
        file_runs::reach(job, events) matches Some(state) ==> match state.phase {
            PhaseView::Chunking { room, .. } => room_of(job, events) == Some(room),
            PhaseView::Naming { room, .. } => room_of(job, events) == Some(room),
            PhaseView::Locking { batch } => room_of(job, events) == Some(batch.room),
            _ => file_runs::batch_in(state.phase) matches Some(batch) ==> room_of(job, events)
                == Some(batch.room),
        },
    decreases events.len(),
{
    if events.len() > 0 {
        lemma_rooms(job, events.drop_last());
        file_runs::reachable_states_are_valid(job, events.drop_last());
    }
}

/// Each drawer that is stored is of the wing, the room and the source of the
/// ingest.
pub proof fn drawers_tell_where_they_belong(job: JobView, events: Seq<EventView>)
    ensures
        file_runs::last_step(job, events) matches Some(
            StepView::Continue { action: ActionView::InsertDrawer { drawer }, .. },
        ) ==> {
            &&& drawer.wing == job.wing
            &&& drawer.room is Some && drawer.room == room_of(job, events)
            &&& drawer.source_file == Some(job.source_file)
        },
{
    if events.len() > 0 {
        file_runs::reachable_states_are_valid(job, events.drop_last());
        lemma_rooms(job, events.drop_last());
    }
}

proof fn lemma_given_ids(
    id_of: spec_fn(Seq<char>, Seq<char>, Seq<char>) -> Seq<char>,
    job: JobView,
    events: Seq<EventView>,
)
    requires
        file_runs::is_run(job, events),
        is_named_by(id_of, job, events),
    ensures
        file_runs::given_ids(events) matches Some(ids) ==> {
            &&& file_runs::cut_texts(events) matches Some(texts)
            &&& room_of(job, events) matches Some(room)
            &&& ids == ids_by(id_of, job.wing, room, texts)
        },
    decreases events.len(),
{
    if events.len() > 0 {
        let before = events.drop_last();
        lemma_given_ids(id_of, job, before);
        lemma_asked_for_ids(job, before);
        lemma_rooms(job, before);
        file_runs::lemma_trace(job, before);
        file_runs::reachable_states_are_valid(job, before);
    }
}

/// Two ingests of the same texts in the same wing and room have the same chunks,
/// ids and all, where the same function computes their ids.
pub proof fn same_texts_have_the_same_ids(
    id_of: spec_fn(Seq<char>, Seq<char>, Seq<char>) -> Seq<char>,
    job: JobView,
    events: Seq<EventView>,
    again: JobView,
    second: Seq<EventView>,
)
    requires
        file_runs::is_run(job, events),
        file_runs::is_run(again, second),
        is_named_by(id_of, job, events),
        is_named_by(id_of, again, second),
        job.wing == again.wing,
        room_of(job, events) == room_of(again, second),
        file_runs::cut_texts(events) == file_runs::cut_texts(second),
        file_runs::given_ids(events) is Some,
        file_runs::given_ids(second) is Some,
    ensures
        file_runs::given_ids(events) == file_runs::given_ids(second),
        file_runs::cut_chunks(events) == file_runs::cut_chunks(second),
{
    lemma_given_ids(id_of, job, events);
    lemma_given_ids(id_of, again, second);
}

/// The drawers of a file that is ingested by itself name the file without its
/// directory, with `/` for each backslash. That the path without its parent is
/// its file name is the platform's.
pub proof fn single_files_are_named_by_their_name(
    job: JobView,
    events: Seq<EventView>,
    path: &Path,
    name: &Path,
)
    requires
        job.source_file == paths::source_name(path, paths::path_parent(path)),
        paths::path_file_name(path) == Some(name),
        paths::path_parent(path) matches Some(parent) ==> (paths::path_relative(
            path,
            parent,
        ) matches Some(rest) ==> paths::path_lossy(rest) == paths::path_lossy(name)),
    ensures
        file_runs::last_step(job, events) matches Some(
            StepView::Continue { action: ActionView::InsertDrawer { drawer }, .. },
        ) ==> drawer.source_file == Some(text::replaced(paths::path_lossy(name), '\\', '/')),
{
    drawers_tell_where_they_belong(job, events);
}

/// The drawers of a file below a directory that is ingested name the file by its
/// path below the directory, with `/` for each backslash.
pub proof fn files_are_named_below_their_directory(
    job: JobView,
    events: Seq<EventView>,
    path: &Path,
    dir: &Path,
    rest: &'static Path,
)
    requires
        job.source_file == paths::source_name(path, Some(dir)),
        paths::path_relative(path, dir) == Some(rest),
        paths::path_lossy(rest).len() > 0,
    ensures
        file_runs::last_step(job, events) matches Some(
            StepView::Continue { action: ActionView::InsertDrawer { drawer }, .. },
        ) ==> drawer.source_file == Some(text::replaced(paths::path_lossy(rest), '\\', '/')),
{
    drawers_tell_where_they_belong(job, events);
}

} // verus!
