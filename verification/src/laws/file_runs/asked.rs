//! What an ingest asks for and reports, by what it was told before.

use crate::detect;
use crate::detect::Format;
use crate::file_ingest;
use crate::file_ingest::{ActionView, EventView, JobView, PhaseView, StepView};
use crate::ingest;
use crate::ingest::{ChunkPlan, IngestErrorView, SourceType};
use crate::laws::content::raw;
use crate::laws::file_runs;
use crate::laws::file_runs::drawers;
use crate::normalize;
use crate::normalize::NormalizeError;
use crate::text;
use vstd::prelude::*;

verus! {

/// The text of the file that was read.
pub open spec fn content_read(events: Seq<EventView>) -> Seq<char> {
    text::lossy_text(file_runs::read_bytes(events)->0)
}

/// Conversations are cut by their turns and come from conversations; plain text
/// is cut into windows of 800 characters of which neighbours share 100, and comes
/// from a project.
pub proof fn only_plain_text_is_no_conversation(format: Format)
    ensures
        ingest::plan_of(format) == if format == Format::PlainText {
            ChunkPlan::Windows { window: 800, overlap: 100 }
        } else {
            ChunkPlan::Turns
        },
        ingest::source_of(format) == if format == Format::PlainText {
            SourceType::Project
        } else {
            SourceType::Conversation
        },
{
}

proof fn lemma_content(job: JobView, events: Seq<EventView>)
    ensures
        file_runs::reach(job, events) matches Some(state) ==> {
            let format = detect::detected(content_read(events));
            &&& !(state.phase is Reading) ==> file_runs::read_bytes(events) is Some
            &&& match state.phase {
                PhaseView::Reading => true,
                PhaseView::Routing { format: taken, text } => {
                    &&& taken == format
                    &&& job.room is None
                    &&& normalize::normalized(content_read(events), format) == Some(
                        Ok::<_, NormalizeError>(text),
                    )
                },
                PhaseView::Chunking { format: taken, .. } => taken == format,
                PhaseView::Naming { format: taken, .. } => taken == format,
                PhaseView::Locking { batch } => batch.format == format,
                _ => file_runs::batch_in(state.phase) matches Some(batch) && batch.format == format,
            }
        },
    decreases events.len(),
{
    if events.len() > 0 {
        lemma_content(job, events.drop_last());
        file_runs::reachable_states_are_valid(job, events.drop_last());
    }
}

/// Whenever an ingest asks to cut a text, whether its room was told or routed,
/// the text is what the bytes that were read normalize to in the format that
/// was detected in them, and it is to be cut by turns, or into windows where that
/// format is plain text. The text that is routed is the same, and only routed
/// where no room was told.
pub proof fn texts_are_cut_as_they_were_read(job: JobView, events: Seq<EventView>)
    ensures
        file_runs::last_step(job, events) matches Some(StepView::Continue { action, .. }) ==> {
            let content = content_read(events);
            let format = detect::detected(content);
            &&& file_runs::read_bytes(events) is Some
            &&& (action matches ActionView::Chunk { text, plan } ==> {
                &&& normalize::normalized(content, format) == Some(Ok::<_, NormalizeError>(text))
                &&& plan == if format == Format::PlainText {
                    ChunkPlan::Windows { window: 800, overlap: 100 }
                } else {
                    ChunkPlan::Turns
                }
            })
            &&& (action matches ActionView::RouteRoom { text, wing } ==> {
                &&& normalize::normalized(content, format) == Some(Ok::<_, NormalizeError>(text))
                &&& wing == job.wing
                &&& job.room is None
            })
        },
{
    if events.len() > 0 {
        lemma_content(job, events.drop_last());
        file_runs::reachable_states_are_valid(job, events.drop_last());
    }
}

/// A text that was handed in is cut at once where the room was told, and else
/// routed first; it is cut by turns unless its format is plain text.
pub proof fn texts_that_are_handed_in_are_cut(job: JobView, format: Format, text: Seq<char>)
    ensures
        file_ingest::with_text(job, format, text) matches StepView::Continue { state, action } && {
            &&& state.job == job
            &&& job.room matches Some(room) ==> {
                &&& state.phase == (PhaseView::Chunking { format, room })
                &&& action == (ActionView::Chunk {
                    text,
                    plan: if format == Format::PlainText {
                        ChunkPlan::Windows { window: 800, overlap: 100 }
                    } else {
                        ChunkPlan::Turns
                    },
                })
            }
            &&& job.room is None ==> {
                &&& state.phase == (PhaseView::Routing { format, text })
                &&& action == (ActionView::RouteRoom { text, wing: job.wing })
            }
        },
{
}

/// A file that was read is cut, once it has a room, unless it is blank, holds a
/// conversation that does not end, or does not normalize in the format that was
/// detected in it.
pub proof fn files_are_read_to_be_cut(job: JobView, bytes: Seq<u8>)
    ensures
        ({
            let content = text::lossy_text(bytes);
            let outcome = normalize::normalized(content, detect::detected(content));
            let step = file_runs::last_step(job, seq![EventView::FileRead { bytes }]);
            if raw::is_blank(content) {
                step matches Some(StepView::Finish { stats }) && stats.files == 1 && stats.chunks == 0
                    && stats.skipped == 0 && stats.lock_wait_ms is None
            } else {
                match outcome {
                    None => step == Some(StepView::Endless),
                    Some(Err(source)) => step == Some(
                        StepView::Fail {
                            error: IngestErrorView::Normalize { path: job.path, source },
                        },
                    ),
                    Some(Ok(_)) => {
                        &&& step matches Some(StepView::Continue { action, .. })
                        &&& if job.room is Some {
                            action is Chunk
                        } else {
                            action is RouteRoom
                        }
                    },
                }
            }
        }),
{
    let events = seq![EventView::FileRead { bytes }];
    assert(events.drop_last() =~= seq![]);
    raw::trimming_leaves_the_core(text::lossy_text(bytes));
}

/// Ids are asked for exactly the texts that the file was cut into, in the wing
/// of the ingest and in its room.
pub proof fn ids_are_asked_for_the_texts(job: JobView, events: Seq<EventView>)
    ensures
        file_runs::last_step(job, events) matches Some(
            StepView::Continue { action: ActionView::NameDrawers { wing, room, texts }, .. },
        ) ==> {
            &&& wing == job.wing
            &&& drawers::room_of(job, events) == Some(room)
            &&& file_runs::cut_texts(events) == Some(texts)
        },
{
    if events.len() > 0 {
        drawers::lemma_rooms(job, events.drop_last());
        file_runs::reachable_states_are_valid(job, events.drop_last());
    }
}

proof fn lemma_named(job: JobView, events: Seq<EventView>)
    ensures
        file_runs::reach(job, events) matches Some(state) ==> {
            let texts = file_runs::cut_texts(events)->0;
            let ids = file_runs::given_ids(events)->0;
            &&& (state.phase matches PhaseView::Naming { texts: cut, .. } ==> file_runs::cut_texts(
                events,
            ) == Some(cut))
            &&& (state.phase matches PhaseView::Locking { batch } ==> {
                &&& file_runs::cut_texts(events) is Some && file_runs::given_ids(events) is Some
                &&& ids.len() == texts.len()
                &&& batch.chunks == file_ingest::named_chunks(texts, ids)
            })
            &&& (file_runs::batch_in(state.phase) matches Some(batch) ==> {
                &&& file_runs::cut_texts(events) is Some && file_runs::given_ids(events) is Some
                &&& ids.len() == texts.len()
                &&& batch.chunks == file_ingest::named_chunks(texts, ids)
            })
        },
    decreases events.len(),
{
    if events.len() > 0 {
        lemma_named(job, events.drop_last());
        file_runs::reachable_states_are_valid(job, events.drop_last());
    }
}

/// The chunk at `i` is new: its drawer was not found, nor did a chunk before it
/// with the same id miss its drawer.
pub open spec fn is_new_at(ids: Seq<Seq<char>>, answers: Seq<bool>, i: int) -> bool {
    &&& !answers[i]
    &&& forall|j: int| 0 <= j < i && #[trigger] ids[j] == ids[i] ==> answers[j]
}

/// These are the positions of the chunks that are new, in order.
pub open spec fn are_new(at: Seq<nat>, ids: Seq<Seq<char>>, answers: Seq<bool>) -> bool {
    &&& forall|k: int, l: int|
        0 <= k < l < at.len() ==> #[trigger] at[k] < #[trigger] at[l]
    &&& forall|k: int| 0 <= k < at.len() ==> #[trigger] at[k] < answers.len()
    &&& forall|i: int|
        0 <= i < answers.len() ==> (#[trigger] at.contains(i as nat) <==> is_new_at(ids, answers, i))
}

proof fn lemma_new(texts: Seq<Seq<char>>, ids: Seq<Seq<char>>, answers: Seq<bool>)
    requires
        ids.len() == texts.len(),
        answers.len() <= ids.len(),
    ensures
        ({
            let batch = file_runs::looked_up(file_ingest::named_chunks(texts, ids), answers);
            &&& are_new(batch.accepted, ids, answers)
            &&& batch.accepted.len() + batch.skipped == answers.len()
        }),
{
    let chunks = file_ingest::named_chunks(texts, ids);
    let fresh = file_ingest::fresh_batch(Format::PlainText, seq![], chunks, None);
    let batch = file_runs::looked_up(chunks, answers);
    file_runs::lemma_answered(fresh, answers);
    assert forall|i: int| 0 <= i < answers.len() implies (#[trigger] batch.accepted.contains(
        i as nat,
    ) <==> is_new_at(ids, answers, i)) by {
        file_runs::new_chunks_are_accepted(fresh, answers, i);
        assert forall|j: int| 0 <= j < ids.len() implies fresh.id_at(j as nat) == #[trigger] ids[j] by {}
        if file_runs::is_new(fresh, answers, i) {
            assert forall|j: int| 0 <= j < i && #[trigger] ids[j] == ids[i] implies answers[j] by {
                assert(fresh.id_at(j as nat) == fresh.id_at(i as nat));
            }
        }
        if is_new_at(ids, answers, i) {
            assert forall|j: int|
                0 <= j < i && fresh.id_at(j as nat) == fresh.id_at(i as nat) implies answers[j] by {
                assert(ids[j] == ids[i]);
            }
        }
    }
}

proof fn lemma_new_so_far(job: JobView, events: Seq<EventView>)
    ensures
        file_runs::reach(job, events) matches Some(state) ==> (file_runs::batch_in(
            state.phase,
        ) matches Some(batch) ==> {
            let texts = file_runs::cut_texts(events)->0;
            let ids = file_runs::given_ids(events)->0;
            let answers = file_runs::lookup_answers(events);
            &&& file_runs::cut_texts(events) is Some && file_runs::given_ids(events) is Some
            &&& ids.len() == texts.len()
            &&& batch.chunks == file_ingest::named_chunks(texts, ids)
            &&& answers.len() == batch.checked
            &&& are_new(batch.accepted, ids, answers)
        }),
{
    lemma_named(job, events);
    file_runs::lemma_trace(job, events);
    file_runs::reachable_states_are_valid(job, events);
    if let Some(state) = file_runs::reach(job, events) {
        if let Some(batch) = file_runs::batch_in(state.phase) {
            lemma_new(
                file_runs::cut_texts(events)->0,
                file_runs::given_ids(events)->0,
                file_runs::lookup_answers(events),
            );
        }
    }
}

/// Drawers are looked up chunk by chunk: the next one is that of the first chunk
/// that was not looked up.
pub proof fn chunks_are_looked_up_in_order(job: JobView, events: Seq<EventView>)
    ensures
        file_runs::last_step(job, events) matches Some(
            StepView::Continue { action: ActionView::CheckDrawer { drawer_id }, .. },
        ) ==> {
            let n = file_runs::lookup_answers(events).len() as int;
            &&& file_runs::given_ids(events) is Some
            &&& n < file_runs::given_ids(events)->0.len()
            &&& drawer_id == file_runs::given_ids(events)->0[n]
        },
{
    if events.len() > 0 {
        file_runs::reachable_states_are_valid(job, events.drop_last());
        file_runs::reachable_states_are_valid(job, events);
        lemma_new_so_far(job, events);
    }
}

/// The texts that are embedded are those of the chunks that are new, all of them
/// and in order, once every chunk was looked up.
pub proof fn new_texts_are_embedded(job: JobView, events: Seq<EventView>)
    ensures
        file_runs::last_step(job, events) matches Some(
            StepView::Continue { action: ActionView::Embed { texts }, .. },
        ) ==> {
            let cut = file_runs::cut_texts(events)->0;
            let ids = file_runs::given_ids(events)->0;
            let answers = file_runs::lookup_answers(events);
            &&& answers.len() == cut.len()
            &&& exists|at: Seq<nat>| #[trigger]
                are_new(at, ids, answers) && texts.len() == at.len() && forall|k: int|
                    0 <= k < at.len() ==> #[trigger] texts[k] == cut[at[k] as int]
        },
{
    if events.len() > 0 {
        file_runs::reachable_states_are_valid(job, events.drop_last());
        file_runs::reachable_states_are_valid(job, events);
        lemma_new_so_far(job, events);
        if let Some(
            StepView::Continue { state, action: ActionView::Embed { texts } },
        ) = file_runs::last_step(job, events) {
            let batch = file_runs::batch_in(state.phase)->0;
            let cut = file_runs::cut_texts(events)->0;
            let ids = file_runs::given_ids(events)->0;
            let answers = file_runs::lookup_answers(events);
            assert(are_new(batch.accepted, ids, answers));
            assert forall|k: int| 0 <= k < batch.accepted.len() implies #[trigger] texts[k]
                == cut[batch.accepted[k] as int] by {
                assert(batch.accepted[k] < batch.checked);
            }
        }
    }
}

/// The drawer that is stored next is that of the next chunk that is new: with
/// the id and the text of the chunk and its position in the file, in the wing,
/// the room and from the source of the ingest, of the time that was taken for it,
/// and from a conversation unless the file is plain text.
pub proof fn drawers_are_made_of_their_chunks(job: JobView, events: Seq<EventView>)
    ensures
        file_runs::last_step(job, events) matches Some(
            StepView::Continue { action: ActionView::InsertDrawer { drawer }, .. },
        ) ==> {
            let cut = file_runs::cut_texts(events)->0;
            let ids = file_runs::given_ids(events)->0;
            let k = file_runs::stored_ids(job, events.drop_last()).len() as int;
            &&& events.last() == EventView::Stamped { added_at: drawer.added_at }
            &&& drawer.wing == job.wing
            &&& drawer.room is Some && drawer.room == drawers::room_of(job, events)
            &&& drawer.source_file == Some(job.source_file)
            &&& drawer.source_type == if detect::detected(content_read(events))
                == Format::PlainText {
                SourceType::Project
            } else {
                SourceType::Conversation
            }
            &&& drawer.importance == 0
            &&& exists|at: Seq<nat>| #[trigger]
                are_new(at, ids, file_runs::lookup_answers(events)) && k < at.len() && drawer.id
                    == ids[at[k] as int] && drawer.content == cut[at[k] as int]
                    && drawer.chunk_index == Some(at[k] as i64)
        },
{
    if events.len() > 0 {
        let before = events.drop_last();
        file_runs::reachable_states_are_valid(job, before);
        lemma_new_so_far(job, before);
        lemma_content(job, before);
        drawers::drawers_tell_where_they_belong(job, events);
        file_runs::lemma_stored_ids(job, before);
        if let Some(
            StepView::Continue { state, action: ActionView::InsertDrawer { drawer } },
        ) = file_runs::last_step(job, events) {
            let batch = file_runs::batch_in(state.phase)->0;
            let ids = file_runs::given_ids(events)->0;
            let k = file_runs::stored_ids(job, before).len() as int;
            assert(are_new(batch.accepted, ids, file_runs::lookup_answers(events)));
            assert(batch.accepted[k] < batch.checked);
        }
    }
}

/// The work that the ingest asked for last.
pub open spec fn asked(job: JobView, events: Seq<EventView>) -> Option<ActionView> {
    match file_runs::last_step(job, events) {
        Some(StepView::Continue { action, .. }) => Some(action),
        _ => None,
    }
}

/// Where the work that was asked for failed, the error is that of this work, and
/// names what it was done for. Cutting a text, computing ids and taking the time
/// do not fail.
pub proof fn failures_are_those_of_the_work(job: JobView, events: Seq<EventView>)
    ensures
        events.len() == 0 ==> file_runs::last_step(job, events.push(EventView::Failed)) == Some(
            StepView::Fail { error: IngestErrorView::ReadFile { path: job.path } },
        ),
        asked(job, events) matches Some(action) ==> {
            let step = file_runs::last_step(job, events.push(EventView::Failed));
            match action {
                ActionView::RouteRoom { .. } => step == Some(
                    StepView::Fail { error: IngestErrorView::LoadTaxonomy { wing: job.wing } },
                ),
                ActionView::AcquireLock { .. } => step == Some(
                    StepView::Fail { error: IngestErrorView::Lock },
                ),
                ActionView::CheckDrawer { drawer_id } => step == Some(
                    StepView::Fail { error: IngestErrorView::CheckDrawer { drawer_id } },
                ),
                ActionView::Embed { .. } => step == Some(
                    StepView::Fail { error: IngestErrorView::EmbedChunks { path: job.path } },
                ),
                ActionView::InsertDrawer { drawer } => step == Some(
                    StepView::Fail {
                        error: IngestErrorView::InsertDrawer { drawer_id: drawer.id },
                    },
                ),
                ActionView::InsertVector { drawer_id, .. } => step == Some(
                    StepView::Fail { error: IngestErrorView::InsertVector { drawer_id } },
                ),
                ActionView::Chunk { .. } => step is None,
                ActionView::NameDrawers { .. } => step is None,
                ActionView::Stamp => step is None,
            }
        },
{
    let all = events.push(EventView::Failed);
    assert(all.drop_last() =~= events);
    if events.len() > 0 {
        file_runs::reachable_states_are_valid(job, events.drop_last());
    }
}

/// The number of vectors that the embedder returned.
pub open spec fn returned_vectors(events: Seq<EventView>) -> nat
    decreases events.len(),
{
    if events.len() == 0 {
        0
    } else {
        match events.last() {
            EventView::Embedded { vectors } => vectors,
            _ => returned_vectors(events.drop_last()),
        }
    }
}

/// The wait for the lock, where it was taken.
pub open spec fn waited(events: Seq<EventView>) -> Option<u64>
    decreases events.len(),
{
    if events.len() == 0 {
        None
    } else {
        match events.last() {
            EventView::LockAcquired { wait_ms } => Some(wait_ms as u64),
            _ => waited(events.drop_last()),
        }
    }
}

proof fn lemma_returned(job: JobView, events: Seq<EventView>)
    ensures
        file_runs::reach(job, events) matches Some(state) ==> {
            &&& match state.phase {
                PhaseView::Stamping { vectors, .. } => returned_vectors(events) == vectors,
                PhaseView::InsertingDrawer { vectors, .. } => returned_vectors(events) == vectors,
                PhaseView::InsertingVector { vectors, .. } => returned_vectors(events) == vectors,
                _ => returned_vectors(events) == 0,
            }
            &&& match file_runs::batch_in(state.phase) {
                Some(batch) => batch.lock_wait_ms == waited(events),
                None => waited(events) is None,
            }
        },
    decreases events.len(),
{
    if events.len() > 0 {
        lemma_returned(job, events.drop_last());
        file_runs::reachable_states_are_valid(job, events.drop_last());
    }
}

/// An ingest that is done reports one file, and the wait for the lock that it
/// had. Of a file that was cut into chunks it reports as skipped all that are not
/// new, and as stored all that are new, as far as there are vectors for them; a
/// dry run reports all that are new. Of other files it reports nothing more.
pub proof fn reports_are_what_was_done(job: JobView, events: Seq<EventView>)
    ensures
        file_runs::last_step(job, events) matches Some(StepView::Finish { stats }) ==> {
            let cut = file_runs::cut_texts(events);
            let ids = file_runs::given_ids(events)->0;
            let answers = file_runs::lookup_answers(events);
            &&& stats.files == 1
            &&& stats.lock_wait_ms == waited(events)
            &&& (cut is None || cut->0.len() == 0 ==> stats.chunks == 0 && stats.skipped == 0)
            &&& (cut is Some && cut->0.len() > 0 ==> {
                &&& answers.len() == cut->0.len()
                &&& exists|at: Seq<nat>| #[trigger]
                    are_new(at, ids, answers) && stats.skipped + at.len() == answers.len()
                        && stats.chunks == if job.dry_run || at.len() <= returned_vectors(events) {
                        at.len()
                    } else {
                        returned_vectors(events)
                    }
            })
        },
{
    if events.len() > 0 {
        let before = events.drop_last();
        let cut = file_runs::cut_texts(events)->0;
        let ids = file_runs::given_ids(events)->0;
        let answers = file_runs::lookup_answers(events);
        file_runs::reachable_states_are_valid(job, before);
        file_runs::lemma_trace(job, before);
        lemma_named(job, before);
        lemma_returned(job, before);
        if let Some(StepView::Finish { stats }) = file_runs::last_step(job, events) {
            file_runs::finished_ingest_stored_what_it_reports(job, events, stats);
            let state = file_runs::reach(job, before)->0;
            if let Some(batch) = file_runs::batch_in(state.phase) {
                lemma_new(cut, ids, answers);
                let done = file_runs::looked_up(file_ingest::named_chunks(cut, ids), answers);
                assert(are_new(done.accepted, ids, answers));
                if let (PhaseView::Checking { batch }, EventView::DrawerChecked { found }) = (
                    state.phase,
                    events.last(),
                ) {
                    let last = batch.with_answer(found);
                    assert(file_runs::lookup_answers(events).drop_last()
                        =~= file_runs::lookup_answers(before));
                    file_runs::lemma_same_progress(
                        batch,
                        file_runs::looked_up(batch.chunks, file_runs::lookup_answers(before)),
                        found,
                    );
                    assert(last.accepted == done.accepted);
                }
            }
        }
    }
}

/// One of the chunks that were looked up is new.
pub open spec fn some_new(ids: Seq<Seq<char>>, answers: Seq<bool>) -> bool {
    exists|i: int| 0 <= i < answers.len() && #[trigger] is_new_at(ids, answers, i)
}

/// The ingest goes on, and asks for this next.
pub open spec fn next_asked(step: Option<StepView>) -> Option<ActionView> {
    match step {
        Some(StepView::Continue { action, .. }) => Some(action),
        _ => None,
    }
}

/// The ingest is done.
pub open spec fn is_done(step: Option<StepView>) -> bool {
    step is Some && step->0 is Finish
}

/// Every answer to the work that was asked for is taken, and has its sequel; no
/// other event but a failure is. A routed text is cut, and the texts that it is
/// cut into get ids, one for each. Then the lock is taken, except in a dry run,
/// and the chunks are looked up, one after the other. When all are, those that are
/// new are embedded, except in a dry run, and each that has a vector is stored:
/// the time is taken, then the drawer is stored, and then its vector. When there
/// is nothing more to do, the ingest is done.
pub proof fn answers_have_their_sequel(job: JobView, events: Seq<EventView>, event: EventView)
    requires
        !(event is Failed),
    ensures
        events.len() == 0 && !(event is FileRead) ==> file_runs::last_step(
            job,
            events.push(event),
        ) is None,
        asked(job, events) matches Some(action) ==> {
            let all = events.push(event);
            let step = file_runs::last_step(job, all);
            let next = next_asked(step);
            let ids = file_runs::given_ids(all)->0;
            let answers = file_runs::lookup_answers(all);
            match (action, event) {
                (ActionView::RouteRoom { .. }, EventView::RoomRouted { .. }) => next is Some
                    && next->0 is Chunk,
                (ActionView::Chunk { .. }, EventView::Chunked { texts }) => if texts.len() == 0 {
                    is_done(step)
                } else {
                    next is Some && next->0 is NameDrawers
                },
                (
                    ActionView::NameDrawers { texts, .. },
                    EventView::DrawersNamed { ids: named },
                ) => if named.len() != texts.len() {
                    step is None
                } else if job.dry_run {
                    next is Some && next->0 is CheckDrawer
                } else {
                    next is Some && next->0 is AcquireLock
                },
                (ActionView::AcquireLock { .. }, EventView::LockAcquired { .. }) => next is Some
                    && next->0 is CheckDrawer,
                (ActionView::CheckDrawer { .. }, EventView::DrawerChecked { .. }) => {
                    if answers.len() < ids.len() {
                        next is Some && next->0 is CheckDrawer
                    } else if !job.dry_run && some_new(ids, answers) {
                        next is Some && next->0 is Embed
                    } else {
                        is_done(step)
                    }
                },
                (ActionView::Embed { .. }, EventView::Embedded { vectors }) => if vectors == 0 {
                    is_done(step)
                } else {
                    next is Some && next->0 is Stamp
                },
                (ActionView::Stamp, EventView::Stamped { .. }) => next is Some
                    && next->0 is InsertDrawer,
                (ActionView::InsertDrawer { .. }, EventView::DrawerInserted) => next is Some
                    && next->0 is InsertVector,
                (ActionView::InsertVector { slot, .. }, EventView::VectorInserted) => {
                    exists|at: Seq<nat>| #[trigger]
                        are_new(at, ids, answers) && if slot + 1 < at.len() && slot + 1
                            < returned_vectors(all) {
                            next is Some && next->0 is Stamp
                        } else {
                            is_done(step)
                        }
                },
                _ => step is None,
            }
        },
{
    let all = events.push(event);
    assert(all.drop_last() =~= events);
    if events.len() > 0 {
        file_runs::reachable_states_are_valid(job, events.drop_last());
        file_runs::reachable_states_are_valid(job, events);
        lemma_new_so_far(job, events);
        lemma_named(job, events);
        lemma_returned(job, events);
        if let Some(state) = file_runs::reach(job, events) {
            match (state.phase, event) {
                (PhaseView::Checking { batch }, EventView::DrawerChecked { found }) => {
                    lemma_last_lookup(job, events, found);
                },
                (PhaseView::InsertingVector { batch, .. }, EventView::VectorInserted) => {
                    assert(are_new(
                        batch.accepted,
                        file_runs::given_ids(all)->0,
                        file_runs::lookup_answers(all),
                    ));
                },
                _ => {},
            }
        }
    }
}

proof fn lemma_last_lookup(job: JobView, events: Seq<EventView>, found: bool)
    requires
        file_runs::reach(job, events) is Some,
        file_runs::reach(job, events)->0.phase is Checking,
    ensures
        ({
            let all = events.push(EventView::DrawerChecked { found });
            let batch = file_runs::batch_in(file_runs::reach(job, events)->0.phase)->0;
            let next = batch.with_answer(found);
            &&& file_runs::lookup_answers(all).len() == next.checked
            &&& next.accepted.len() > 0 <==> some_new(
                file_runs::given_ids(all)->0,
                file_runs::lookup_answers(all),
            )
        }),
{
    let all = events.push(EventView::DrawerChecked { found });
    let batch = file_runs::batch_in(file_runs::reach(job, events)->0.phase)->0;
    let next = batch.with_answer(found);
    let cut = file_runs::cut_texts(events)->0;
    let ids = file_runs::given_ids(events)->0;
    let answers = file_runs::lookup_answers(all);
    assert(all.drop_last() =~= events);
    lemma_named(job, events);
    file_runs::lemma_trace(job, events);
    file_runs::reachable_states_are_valid(job, events);
    assert(answers.drop_last() =~= file_runs::lookup_answers(events));
    file_runs::lemma_same_progress(
        batch,
        file_runs::looked_up(batch.chunks, file_runs::lookup_answers(events)),
        found,
    );
    lemma_new(cut, ids, answers);
    assert(are_new(next.accepted, ids, answers));
    if next.accepted.len() > 0 {
        let i = next.accepted[0] as int;
        assert(next.accepted.contains(i as nat));
        assert(is_new_at(ids, answers, i));
    }
    if some_new(ids, answers) {
        let i = choose|i: int| 0 <= i < answers.len() && #[trigger] is_new_at(ids, answers, i);
        assert(next.accepted.contains(i as nat));
    }
}

} // verus!
