//! What holds of whole runs of a file's ingest.

pub mod asked;
pub mod drawers;
pub mod together;

use crate::detect::Format;
use crate::file_ingest;
use crate::file_ingest::{
    ActionView, BatchView, ChunkView, EventView, JobView, PhaseView, StateView, StepView,
};
use crate::ingest::{IngestErrorView, StatsView, LOCK_TIMEOUT_SECS};
use crate::text;
use vstd::prelude::*;

verus! {

/// Where the ingest of a file is after these events, if it is still on its way.
pub open spec fn reach(job: JobView, events: Seq<EventView>) -> Option<StateView>
    decreases events.len(),
{
    if events.len() == 0 {
        Some(StateView { job, phase: PhaseView::Reading })
    } else {
        match reach(job, events.drop_last()) {
            Some(state) => match file_ingest::step(state, events.last()) {
                Some(StepView::Continue { state: next, .. }) => Some(next),
                _ => None,
            },
            None => None,
        }
    }
}

/// What the last of these events led to, if the ingest waited for it.
pub open spec fn last_step(job: JobView, events: Seq<EventView>) -> Option<StepView> {
    if events.len() == 0 {
        None
    } else {
        match reach(job, events.drop_last()) {
            Some(state) => file_ingest::step(state, events.last()),
            None => None,
        }
    }
}

/// The ingest waited for each of these events.
pub open spec fn is_run(job: JobView, events: Seq<EventView>) -> bool {
    events.len() > 0 ==> last_step(job, events) is Some
}

/// One of these events is that the lock of the source was taken.
pub open spec fn lock_was_taken(events: Seq<EventView>) -> bool {
    exists|i: int| 0 <= i < events.len() && #[trigger] events[i] is LockAcquired
}

/// The action reads or writes the stored drawers, or prepares to write them.
pub open spec fn needs_lock(action: ActionView) -> bool {
    ||| action is CheckDrawer
    ||| action is Embed
    ||| action is Stamp
    ||| action is InsertDrawer
    ||| action is InsertVector
}

/// The drawers that an ingest asked to store, by their ids.
pub open spec fn stored_ids(job: JobView, events: Seq<EventView>) -> Seq<Seq<char>>
    decreases events.len(),
{
    if events.len() == 0 {
        seq![]
    } else {
        let before = stored_ids(job, events.drop_last());
        match last_step(job, events) {
            Some(StepView::Continue { action: ActionView::InsertDrawer { drawer }, .. }) => before.push(
                drawer.id,
            ),
            _ => before,
        }
    }
}

/// Every ingest on its way is valid, and keeps what it was told.
pub proof fn reachable_states_are_valid(job: JobView, events: Seq<EventView>)
    ensures
        reach(job, events) matches Some(state) ==> state.valid() && state.job == job,
    decreases events.len(),
{
    if events.len() > 0 {
        reachable_states_are_valid(job, events.drop_last());
        if let Some(state) = reach(job, events.drop_last()) {
            file_ingest::step_keeps_valid(state, events.last());
        }
    }
}

/// A dry run takes no lock, embeds nothing and stores nothing; it only looks
/// drawers up, and counts.
pub proof fn dry_run_only_counts(job: JobView, events: Seq<EventView>)
    requires
        job.dry_run,
    ensures
        last_step(job, events) matches Some(StepView::Continue { action, .. }) ==> {
            ||| action is RouteRoom
            ||| action is Chunk
            ||| action is NameDrawers
            ||| action is CheckDrawer
        },
        last_step(job, events) matches Some(StepView::Finish { stats }) ==> stats.lock_wait_ms is None,
        stored_ids(job, events).len() == 0,
    decreases events.len(),
{
    if events.len() > 0 {
        reachable_states_are_valid(job, events.drop_last());
        dry_run_only_counts(job, events.drop_last());
    }
}

/// The phase comes after the lock was taken.
spec fn is_past_lock(phase: PhaseView) -> bool {
    ||| phase is Checking
    ||| phase is Embedding
    ||| phase is Stamping
    ||| phase is InsertingDrawer
    ||| phase is InsertingVector
}

proof fn lemma_lock_taken(job: JobView, events: Seq<EventView>)
    requires
        !job.dry_run,
    ensures
        reach(job, events) matches Some(state) ==> (is_past_lock(state.phase) <==> lock_was_taken(
            events,
        )),
    decreases events.len(),
{
    if events.len() > 0 {
        let before = events.drop_last();
        reachable_states_are_valid(job, before);
        lemma_lock_taken(job, before);
        lemma_lock_taken_last(events);
    }
}

proof fn lemma_lock_taken_last(events: Seq<EventView>)
    requires
        events.len() > 0,
    ensures
        lock_was_taken(events) <==> lock_was_taken(events.drop_last()) || events.last() is LockAcquired,
{
    let before = events.drop_last();
    if lock_was_taken(before) {
        let i = choose|i: int| 0 <= i < before.len() && #[trigger] before[i] is LockAcquired;
        assert(events[i] is LockAcquired);
    }
    if events.last() is LockAcquired {
        assert(events[events.len() - 1] is LockAcquired);
    }
    if lock_was_taken(events) && !(events.last() is LockAcquired) {
        let i = choose|i: int| 0 <= i < events.len() && #[trigger] events[i] is LockAcquired;
        assert(before[i] is LockAcquired);
    }
}

/// Unless it is a dry run, an ingest looks drawers up and stores them only after
/// it took the lock of the source; and it reports a wait for the lock exactly
/// where it took it.
pub proof fn drawers_are_touched_under_the_lock(job: JobView, events: Seq<EventView>)
    requires
        !job.dry_run,
    ensures
        last_step(job, events) matches Some(StepView::Continue { action, .. }) ==> (needs_lock(
            action,
        ) ==> lock_was_taken(events)),
        last_step(job, events) matches Some(StepView::Finish { stats }) ==> (stats.lock_wait_ms is Some
            <==> lock_was_taken(events)),
{
    if events.len() > 0 {
        let before = events.drop_last();
        reachable_states_are_valid(job, before);
        lemma_lock_taken(job, before);
        lemma_lock_taken_last(events);
    }
}

/// The ids of the first `n` accepted chunks.
pub open spec fn first_ids(batch: BatchView, n: nat) -> Seq<Seq<char>> {
    Seq::new(n, |k: int| batch.id_at(batch.accepted[k]))
}

/// The drawers that an ingest in this phase asked to store.
spec fn ids_so_far(phase: PhaseView) -> Seq<Seq<char>> {
    match phase {
        PhaseView::Stamping { batch, vectors, written } => first_ids(batch, written),
        PhaseView::InsertingDrawer { batch, vectors, written } => first_ids(batch, written + 1),
        PhaseView::InsertingVector { batch, vectors, written } => first_ids(batch, written + 1),
        _ => seq![],
    }
}

proof fn lemma_stored_ids(job: JobView, events: Seq<EventView>)
    ensures
        reach(job, events) matches Some(state) ==> stored_ids(job, events) == ids_so_far(
            state.phase,
        ),
    decreases events.len(),
{
    if events.len() > 0 {
        let before = events.drop_last();
        reachable_states_are_valid(job, before);
        lemma_stored_ids(job, before);
        if let Some(state) = reach(job, events) {
            match (reach(job, before)->0.phase, events.last()) {
                (PhaseView::Embedding { batch }, _) => {
                    assert(first_ids(batch, 0) =~= seq![]);
                },
                (PhaseView::Stamping { batch, vectors, written }, _) => {
                    assert(first_ids(batch, written + 1) =~= first_ids(batch, written).push(
                        batch.id_at(batch.accepted[written as int]),
                    ));
                },
                _ => {},
            }
        }
    }
}

/// An ingest stores no drawer twice.
pub proof fn each_drawer_is_stored_once(job: JobView, events: Seq<EventView>)
    ensures
        stored_ids(job, events).no_duplicates(),
    decreases events.len(),
{
    if events.len() > 0 {
        let before = events.drop_last();
        each_drawer_is_stored_once(job, before);
        reachable_states_are_valid(job, before);
        lemma_stored_ids(job, before);
        if let Some(state) = reach(job, before) {
            if let (PhaseView::Stamping { batch, vectors, written }, EventView::Stamped { added_at }) =
                (state.phase, events.last()) {
                let ids = first_ids(batch, written);
                let id = batch.id_at(batch.accepted[written as int]);
                assert(stored_ids(job, events) == ids.push(id));
                assert forall|k: int, l: int|
                    0 <= k < ids.push(id).len() && 0 <= l < ids.push(id).len() && k
                        != l implies ids.push(id)[k] != ids.push(id)[l] by {
                    let low = if k < l {
                        k
                    } else {
                        l
                    };
                    let high = if k < l {
                        l
                    } else {
                        k
                    };
                    assert(batch.id_at(batch.accepted[low]) != batch.id_at(batch.accepted[high]));
                }
            }
        }
    }
}

/// When an ingest is done, every chunk was stored or skipped (in a dry run,
/// counted or skipped), but for those that got no vector.
pub proof fn chunks_are_accounted_for(state: StateView, event: EventView)
    requires
        state.valid(),
    ensures
        file_ingest::step(state, event) matches Some(StepView::Finish { stats }) ==> {
            &&& stats.files == 1
            &&& match (state.phase, event) {
                (PhaseView::Checking { batch }, _) => stats.chunks + stats.skipped
                    == batch.chunks.len(),
                (PhaseView::Embedding { batch }, EventView::Embedded { vectors }) => {
                    &&& stats.chunks == vectors == 0
                    &&& batch.accepted.len() + stats.skipped == batch.chunks.len()
                },
                (PhaseView::InsertingVector { batch, vectors, written }, _) => {
                    &&& stats.chunks == vstd::math::min(
                        vectors as int,
                        batch.accepted.len() as int,
                    )
                    &&& batch.accepted.len() + stats.skipped == batch.chunks.len()
                },
                _ => stats.chunks == 0 && stats.skipped == 0,
            }
        },
{
    if let (PhaseView::Checking { batch }, EventView::DrawerChecked { found }) = (
        state.phase,
        event,
    ) {
        file_ingest::answer_keeps_batch_valid(batch, found);
    }
}

/// The batch once its first chunks were looked up with these answers.
pub open spec fn answered(batch: BatchView, answers: Seq<bool>) -> BatchView
    decreases answers.len(),
{
    if answers.len() == 0 {
        batch
    } else {
        answered(batch, answers.drop_last()).with_answer(answers.last())
    }
}

/// A batch of which nothing was looked up.
pub open spec fn is_fresh(batch: BatchView) -> bool {
    batch.checked == 0 && batch.accepted.len() == 0 && batch.skipped == 0
}

proof fn lemma_answered(batch: BatchView, answers: Seq<bool>)
    requires
        is_fresh(batch),
        answers.len() <= batch.chunks.len(),
    ensures
        answered(batch, answers).valid(),
        answered(batch, answers).checked == answers.len(),
        answered(batch, answers).chunks == batch.chunks,
    decreases answers.len(),
{
    if answers.len() > 0 {
        lemma_answered(batch, answers.drop_last());
        file_ingest::answer_keeps_batch_valid(
            answered(batch, answers.drop_last()),
            answers.last(),
        );
    }
}

/// A chunk is new: its drawer is not stored, nor is a chunk for that drawer, not
/// stored either, before it.
pub open spec fn is_new(batch: BatchView, answers: Seq<bool>, i: int) -> bool {
    &&& !answers[i]
    &&& forall|j: int| 0 <= j < i && batch.id_at(j as nat) == batch.id_at(i as nat) ==> answers[j]
}

/// The first chunk for the drawer of chunk `i` whose drawer is not stored.
proof fn lemma_first_new(batch: BatchView, answers: Seq<bool>, i: int) -> (first: int)
    requires
        0 <= i < answers.len(),
        !answers[i],
    ensures
        0 <= first <= i,
        batch.id_at(first as nat) == batch.id_at(i as nat),
        is_new(batch, answers, first),
    decreases i,
{
    if is_new(batch, answers, i) {
        i
    } else {
        let j = choose|j: int|
            0 <= j < i && batch.id_at(j as nat) == batch.id_at(i as nat) && !answers[j];
        lemma_first_new(batch, answers, j)
    }
}

/// Of the chunks that were looked up, those are accepted that are new.
pub proof fn new_chunks_are_accepted(batch: BatchView, answers: Seq<bool>, i: int)
    requires
        is_fresh(batch),
        answers.len() <= batch.chunks.len(),
        0 <= i < answers.len(),
    ensures
        answered(batch, answers).accepted.contains(i as nat) <==> is_new(batch, answers, i),
    decreases answers.len(),
{
    let before = answers.drop_last();
    let earlier = answered(batch, before);
    let next = answered(batch, answers);
    let n = before.len() as int;
    lemma_answered(batch, before);
    assert forall|j: int| 0 <= j < n implies answers[j] == before[j] by {}
    if i < n {
        new_chunks_are_accepted(batch, before, i);
        assert(is_new(batch, answers, i) <==> is_new(batch, before, i));
        if earlier.accepted.contains(i as nat) {
            let k = choose|k: int| 0 <= k < earlier.accepted.len() && earlier.accepted[k] == i;
            assert(next.accepted[k] == i);
        }
        if next.accepted.contains(i as nat) {
            let k = choose|k: int| 0 <= k < next.accepted.len() && next.accepted[k] == i;
            assert(k < earlier.accepted.len());
            assert(earlier.accepted[k] == i);
        }
    } else {
        let id = batch.id_at(n as nat);
        if earlier.has_accepted(id) {
            let k = choose|k: int|
                0 <= k < earlier.accepted.len() && earlier.id_at(#[trigger] earlier.accepted[k]) == id;
            let j = earlier.accepted[k] as int;
            new_chunks_are_accepted(batch, before, j);
            assert(earlier.accepted.contains(j as nat));
            assert(!answers[j]);
        }
        if !answers[n] && !is_new(batch, answers, n) {
            let j = choose|j: int| 0 <= j < n && batch.id_at(j as nat) == id && !answers[j];
            let first = lemma_first_new(batch, before, j);
            new_chunks_are_accepted(batch, before, first);
            let k = choose|k: int| 0 <= k < earlier.accepted.len() && earlier.accepted[k] == first;
            assert(earlier.id_at(earlier.accepted[k]) == id);
        }
        if next.accepted.contains(n as nat) {
            let k = choose|k: int| 0 <= k < next.accepted.len() && next.accepted[k] == n;
            if k < earlier.accepted.len() {
                assert(earlier.accepted[k] == n);
            }
        }
        if next.accepted.len() > earlier.accepted.len() {
            assert(next.accepted[earlier.accepted.len() as int] == n);
        }
    }
}

/// The answers to looking all chunks up in a store that holds these drawers.
pub open spec fn answers_of(batch: BatchView, store: Set<Seq<char>>) -> Seq<bool> {
    Seq::new(batch.chunks.len(), |i: int| store.contains(batch.id_at(i as nat)))
}

/// Where all drawers are stored, nothing is accepted.
proof fn lemma_all_stored(batch: BatchView, answers: Seq<bool>)
    requires
        is_fresh(batch),
        forall|i: int| 0 <= i < answers.len() ==> #[trigger] answers[i],
    ensures
        answered(batch, answers).accepted.len() == 0,
        answered(batch, answers).skipped == answers.len(),
    decreases answers.len(),
{
    if answers.len() > 0 {
        assert forall|i: int| 0 <= i < answers.drop_last().len() implies #[trigger] answers.drop_last()[i] by {
            assert(answers[i]);
        }
        lemma_all_stored(batch, answers.drop_last());
        assert(answers[answers.len() - 1]);
    }
}

/// The events that these answers to looking drawers up are.
pub open spec fn answer_events(answers: Seq<bool>) -> Seq<EventView> {
    answers.map_values(|found: bool| EventView::DrawerChecked { found })
}

/// An ingest that starts to look its chunks up goes on as its answers say.
pub proof fn answers_decide_the_course(
    job: JobView,
    events: Seq<EventView>,
    batch: BatchView,
    answers: Seq<bool>,
)
    requires
        reach(job, events) == Some(StateView { job, phase: PhaseView::Checking { batch } }),
        is_fresh(batch),
        0 < answers.len() <= batch.chunks.len(),
    ensures
        last_step(job, events + answer_events(answers)) == Some(
            file_ingest::check_next(job, answered(batch, answers)),
        ),
    decreases answers.len(),
{
    let all = events + answer_events(answers);
    let before = answers.drop_last();
    assert(all.drop_last() =~= events + answer_events(before));
    assert(all.last() == EventView::DrawerChecked { found: answers.last() });
    let earlier = answered(batch, before);
    lemma_answered(batch, before);
    if before.len() == 0 {
        assert(events + answer_events(before) =~= events);
        assert(earlier == batch);
    } else {
        answers_decide_the_course(job, events, batch, before);
    }
    assert(earlier.checked < earlier.chunks.len());
    assert(reach(job, all.drop_last()) == Some(
        StateView { job, phase: PhaseView::Checking { batch: earlier } },
    ));
    assert(answered(batch, answers) == earlier.with_answer(answers.last()));
}

proof fn lemma_answered_keeps_wait(batch: BatchView, answers: Seq<bool>)
    ensures
        answered(batch, answers).lock_wait_ms == batch.lock_wait_ms,
    decreases answers.len(),
{
    if answers.len() > 0 {
        lemma_answered_keeps_wait(batch, answers.drop_last());
    }
}

/// The bytes that were read from the file.
pub open spec fn read_bytes(events: Seq<EventView>) -> Option<Seq<u8>>
    decreases events.len(),
{
    if events.len() == 0 {
        None
    } else {
        match events.last() {
            EventView::FileRead { bytes } => Some(bytes),
            _ => read_bytes(events.drop_last()),
        }
    }
}

/// The texts of the chunks that the text was cut into.
pub open spec fn cut_texts(events: Seq<EventView>) -> Option<Seq<Seq<char>>>
    decreases events.len(),
{
    if events.len() == 0 {
        None
    } else {
        match events.last() {
            EventView::Chunked { texts } => Some(texts),
            _ => cut_texts(events.drop_last()),
        }
    }
}

/// The ids of the drawers for the chunks.
pub open spec fn given_ids(events: Seq<EventView>) -> Option<Seq<Seq<char>>>
    decreases events.len(),
{
    if events.len() == 0 {
        None
    } else {
        match events.last() {
            EventView::DrawersNamed { ids } => Some(ids),
            _ => given_ids(events.drop_last()),
        }
    }
}

/// The chunks that the text was cut into, once their drawers have ids.
pub open spec fn cut_chunks(events: Seq<EventView>) -> Option<Seq<ChunkView>> {
    match (cut_texts(events), given_ids(events)) {
        (Some(texts), Some(ids)) => Some(file_ingest::named_chunks(texts, ids)),
        (Some(texts), None) if texts.len() == 0 => Some(seq![]),
        _ => None,
    }
}

/// The answers to looking drawers up.
pub open spec fn lookup_answers(events: Seq<EventView>) -> Seq<bool>
    decreases events.len(),
{
    if events.len() == 0 {
        seq![]
    } else {
        let before = lookup_answers(events.drop_last());
        match events.last() {
            EventView::DrawerChecked { found } => before.push(found),
            _ => before,
        }
    }
}

/// The embedder returned a vector for each text, or more.
pub open spec fn vector_per_text(job: JobView, events: Seq<EventView>) -> bool
    decreases events.len(),
{
    events.len() > 0 ==> {
        &&& vector_per_text(job, events.drop_last())
        &&& match (reach(job, events.drop_last()), events.last()) {
            (
                Some(StateView { phase: PhaseView::Embedding { batch }, .. }),
                EventView::Embedded { vectors },
            ) => vectors >= batch.accepted.len(),
            _ => true,
        }
    }
}

/// Chunks of which the first were looked up with these answers.
pub open spec fn looked_up(chunks: Seq<ChunkView>, answers: Seq<bool>) -> BatchView {
    answered(file_ingest::fresh_batch(Format::PlainText, seq![], chunks, None), answers)
}

/// Both batches are of the same chunks, and as far.
spec fn same_progress(a: BatchView, b: BatchView) -> bool {
    &&& a.chunks == b.chunks
    &&& a.checked == b.checked
    &&& a.accepted == b.accepted
    &&& a.skipped == b.skipped
}

proof fn lemma_same_progress(a: BatchView, b: BatchView, found: bool)
    requires
        same_progress(a, b),
    ensures
        same_progress(a.with_answer(found), b.with_answer(found)),
{
    let id = a.id_at(a.checked);
    if a.has_accepted(id) {
        let k = choose|k: int| 0 <= k < a.accepted.len() && a.id_at(#[trigger] a.accepted[k]) == id;
        assert(b.id_at(b.accepted[k]) == id);
    }
    if b.has_accepted(id) {
        let k = choose|k: int| 0 <= k < b.accepted.len() && b.id_at(#[trigger] b.accepted[k]) == id;
        assert(a.id_at(a.accepted[k]) == id);
    }
}

/// The batch of a phase that comes after the lock.
spec fn batch_in(phase: PhaseView) -> Option<BatchView> {
    match phase {
        PhaseView::Checking { batch } => Some(batch),
        PhaseView::Embedding { batch } => Some(batch),
        PhaseView::Stamping { batch, .. } => Some(batch),
        PhaseView::InsertingDrawer { batch, .. } => Some(batch),
        PhaseView::InsertingVector { batch, .. } => Some(batch),
        _ => None,
    }
}

/// The file holds more than white space.
spec fn is_not_blank(bytes: Seq<u8>) -> bool {
    text::trimmed(text::lossy_text(bytes)).len() > 0
}

/// What the events of an ingest on its way say of where it is.
proof fn lemma_trace(job: JobView, events: Seq<EventView>)
    ensures
        reach(job, events) matches Some(state) ==> {
            &&& state.phase is Reading <==> events.len() == 0
            &&& !(state.phase is Reading) ==> read_bytes(events) is Some && is_not_blank(
                read_bytes(events)->0,
            )
            &&& state.phase is Reading || state.phase is Routing || state.phase is Chunking ==> {
                &&& cut_texts(events) is None
                &&& given_ids(events) is None
                &&& lookup_answers(events).len() == 0
            }
            &&& state.phase matches PhaseView::Naming { texts, .. } ==> {
                &&& cut_texts(events) == Some(texts)
                &&& given_ids(events) is None
                &&& lookup_answers(events).len() == 0
            }
            &&& state.phase matches PhaseView::Locking { batch } ==> {
                &&& cut_chunks(events) == Some(batch.chunks)
                &&& lookup_answers(events).len() == 0
            }
            &&& batch_in(state.phase) matches Some(batch) ==> {
                &&& cut_chunks(events) == Some(batch.chunks)
                &&& same_progress(batch, looked_up(batch.chunks, lookup_answers(events)))
                &&& lookup_answers(events).len() == batch.checked
            }
        },
    decreases events.len(),
{
    if events.len() > 0 {
        let before = events.drop_last();
        lemma_trace(job, before);
        reachable_states_are_valid(job, before);
        if let Some(state) = reach(job, before) {
            match (state.phase, events.last()) {
                (PhaseView::Naming { format, room, texts }, EventView::DrawersNamed { ids }) => {
                    assert(lookup_answers(before) =~= seq![]);
                },
                (PhaseView::Locking { batch }, EventView::LockAcquired { wait_ms }) => {
                    assert(lookup_answers(before) =~= seq![]);
                },
                (PhaseView::Checking { batch }, EventView::DrawerChecked { found }) => {
                    let answers = lookup_answers(before);
                    assert(lookup_answers(events).drop_last() =~= answers);
                    lemma_same_progress(batch, looked_up(batch.chunks, answers), found);
                },
                _ => {},
            }
        }
    }
}

proof fn lemma_vectors(job: JobView, events: Seq<EventView>)
    requires
        vector_per_text(job, events),
    ensures
        reach(job, events) matches Some(state) ==> match state.phase {
            PhaseView::Stamping { batch, vectors, .. } => vectors >= batch.accepted.len(),
            PhaseView::InsertingDrawer { batch, vectors, .. } => vectors >= batch.accepted.len(),
            PhaseView::InsertingVector { batch, vectors, .. } => vectors >= batch.accepted.len(),
            _ => true,
        },
    decreases events.len(),
{
    if events.len() > 0 {
        lemma_vectors(job, events.drop_last());
    }
}

proof fn lemma_first_ids(a: BatchView, b: BatchView, n: nat)
    requires
        same_progress(a, b),
    ensures
        first_ids(a, n) == first_ids(b, n),
{
    assert(first_ids(a, n) =~= first_ids(b, n));
}

/// An ingest that is done looked every chunk up, and reports as skipped those
/// that were not new. Of the new ones it asked to store as many as it reports,
/// the first ones, in order; with a vector for each text these are all of them. In a
/// dry run it reports all of them, and asked to store none. A blank file has no
/// chunks.
pub proof fn finished_ingest_stored_what_it_reports(
    job: JobView,
    events: Seq<EventView>,
    stats: StatsView,
)
    requires
        last_step(job, events) == Some(StepView::Finish { stats }),
    ensures
        stats.files == 1,
        read_bytes(events) is Some,
        cut_chunks(events) is None <==> text::trimmed(
            text::lossy_text(read_bytes(events)->0),
        ).len() == 0,
        cut_chunks(events) is None ==> {
            &&& stats.chunks == 0
            &&& stats.skipped == 0
            &&& stored_ids(job, events).len() == 0
        },
        cut_chunks(events) matches Some(chunks) ==> {
            let batch = looked_up(chunks, lookup_answers(events));
            &&& lookup_answers(events).len() == chunks.len()
            &&& batch.valid()
            &&& batch.checked == chunks.len()
            &&& stats.skipped == batch.skipped
            &&& !job.dry_run ==> stats.chunks <= batch.accepted.len() && stored_ids(job, events)
                == first_ids(batch, stats.chunks)
            &&& !job.dry_run && vector_per_text(job, events) ==> stats.chunks
                == batch.accepted.len()
            &&& job.dry_run ==> stats.chunks == batch.accepted.len() && stored_ids(
                job,
                events,
            ).len() == 0
        },
{
    let before = events.drop_last();
    let state = reach(job, before)->0;
    lemma_trace(job, before);
    lemma_stored_ids(job, before);
    reachable_states_are_valid(job, before);
    if job.dry_run {
        dry_run_only_counts(job, events);
    }
    if vector_per_text(job, events) {
        lemma_vectors(job, before);
    }
    match (state.phase, events.last()) {
        (PhaseView::Chunking { format, room }, EventView::Chunked { texts }) => {
            assert(lookup_answers(before) =~= seq![]);
            assert(first_ids(looked_up(seq![], seq![]), 0) =~= seq![]);
        },
        (PhaseView::Checking { batch }, EventView::DrawerChecked { found }) => {
            let answers = lookup_answers(before);
            let fresh = file_ingest::fresh_batch(Format::PlainText, seq![], batch.chunks, None);
            assert(lookup_answers(events).drop_last() =~= answers);
            lemma_same_progress(batch, looked_up(batch.chunks, answers), found);
            lemma_answered(fresh, lookup_answers(events));
            assert(first_ids(looked_up(batch.chunks, lookup_answers(events)), 0) =~= seq![]);
        },
        (PhaseView::Embedding { batch }, EventView::Embedded { vectors }) => {
            let fresh = file_ingest::fresh_batch(Format::PlainText, seq![], batch.chunks, None);
            lemma_answered(fresh, lookup_answers(events));
            assert(first_ids(looked_up(batch.chunks, lookup_answers(events)), 0) =~= seq![]);
        },
        (PhaseView::InsertingVector { batch, vectors, written }, EventView::VectorInserted) => {
            let fresh = file_ingest::fresh_batch(Format::PlainText, seq![], batch.chunks, None);
            lemma_answered(fresh, lookup_answers(events));
            lemma_first_ids(
                batch,
                looked_up(batch.chunks, lookup_answers(events)),
                (written + 1) as nat,
            );
        },
        _ => {},
    }
}

/// The events of a run that a dry run has too: all but those of the lock, the
/// embedder and the store.
pub open spec fn dry_events(events: Seq<EventView>) -> Seq<EventView>
    decreases events.len(),
{
    if events.len() == 0 {
        seq![]
    } else {
        let before = dry_events(events.drop_last());
        match events.last() {
            EventView::LockAcquired { .. } => before,
            EventView::Embedded { .. } => before,
            EventView::Stamped { .. } => before,
            EventView::DrawerInserted => before,
            EventView::VectorInserted => before,
            event => before.push(event),
        }
    }
}

/// The same ingest as a dry run.
pub open spec fn as_dry_run(job: JobView) -> JobView {
    JobView { dry_run: true, ..job }
}

/// The batch without a lock.
spec fn unlocked(batch: BatchView) -> BatchView {
    BatchView { lock_wait_ms: None, ..batch }
}

proof fn lemma_dry_course(job: JobView, events: Seq<EventView>)
    requires
        !job.dry_run,
    ensures
        reach(job, events) matches Some(state) ==> {
            let dry = as_dry_run(job);
            let kept = dry_events(events);
            match state.phase {
                PhaseView::Locking { batch } => reach(dry, kept) == Some(
                    StateView { job: dry, phase: PhaseView::Checking { batch } },
                ),
                PhaseView::Checking { batch } => reach(dry, kept) == Some(
                    StateView { job: dry, phase: PhaseView::Checking { batch: unlocked(batch) } },
                ),
                _ => match batch_in(state.phase) {
                    Some(batch) => last_step(dry, kept) == Some(
                        StepView::Finish {
                            stats: file_ingest::batch_stats(dry, unlocked(batch), 0),
                        },
                    ),
                    None => reach(dry, kept) == Some(StateView { job: dry, phase: state.phase }),
                },
            }
        },
    decreases events.len(),
{
    let dry = as_dry_run(job);
    if events.len() > 0 {
        let before = events.drop_last();
        let kept = dry_events(before);
        lemma_dry_course(job, before);
        reachable_states_are_valid(job, before);
        assert(kept.push(events.last()).drop_last() =~= kept);
        if let Some(state) = reach(job, before) {
            match (state.phase, events.last()) {
                (PhaseView::Checking { batch }, EventView::DrawerChecked { found }) => {
                    lemma_same_progress(batch, unlocked(batch), found);
                    assert(unlocked(batch).with_answer(found) == unlocked(
                        batch.with_answer(found),
                    ));
                },
                (PhaseView::Locking { batch }, EventView::LockAcquired { wait_ms }) => {
                    assert(unlocked(
                        BatchView { lock_wait_ms: Some(wait_ms as u64), ..batch },
                    ) == batch);
                },
                _ => {},
            }
        }
    }
}

/// A dry run reports what the run then stores: with the same file, room, chunks
/// and answers, and a vector for each text, a run that is done reports the counts
/// that the dry run reported, which took no lock.
pub proof fn dry_run_counts_what_a_run_stores(
    job: JobView,
    events: Seq<EventView>,
    stats: StatsView,
)
    requires
        !job.dry_run,
        last_step(job, events) == Some(StepView::Finish { stats }),
        vector_per_text(job, events),
    ensures
        last_step(as_dry_run(job), dry_events(events)) == Some(
            StepView::Finish { stats: StatsView { lock_wait_ms: None, ..stats } },
        ),
        stored_ids(job, events).len() == stats.chunks,
        stored_ids(as_dry_run(job), dry_events(events)).len() == 0,
{
    let dry = as_dry_run(job);
    let before = events.drop_last();
    let kept = dry_events(before);
    assert(stored_ids(job, events).len() == stats.chunks) by {
        finished_ingest_stored_what_it_reports(job, events, stats);
    }
    assert(stored_ids(dry, dry_events(events)).len() == 0) by {
        dry_run_only_counts(dry, dry_events(events));
    }
    lemma_dry_course(job, before);
    lemma_vectors(job, before);
    reachable_states_are_valid(job, before);
    assert(kept.push(events.last()).drop_last() =~= kept);
    let state = reach(job, before)->0;
    match (state.phase, events.last()) {
        (PhaseView::Checking { batch }, EventView::DrawerChecked { found }) => {
            lemma_same_progress(batch, unlocked(batch), found);
            assert(unlocked(batch).with_answer(found) == unlocked(batch.with_answer(found)));
        },
        (PhaseView::Embedding { batch }, EventView::Embedded { vectors }) => {
            assert(dry_events(events) == kept);
        },
        (PhaseView::InsertingVector { batch, vectors, written }, EventView::VectorInserted) => {
            assert(dry_events(events) == kept);
        },
        _ => {},
    }
}

/// Drawers were looked up in a store that held these.
pub open spec fn answered_from(events: Seq<EventView>, store: Set<Seq<char>>) -> bool {
    cut_chunks(events) matches Some(chunks) ==> forall|i: int|
        0 <= i < lookup_answers(events).len() && i < chunks.len() ==> (
        #[trigger] lookup_answers(events)[i] <==> store.contains(chunks[i].drawer_id))
}

/// What is read and cut in a second run is what was in the first.
pub open spec fn same_source(first: Seq<EventView>, second: Seq<EventView>) -> bool {
    forall|i: int|
        0 <= i < second.len() ==> match #[trigger] second[i] {
            EventView::FileRead { bytes } => read_bytes(first) == Some(bytes),
            EventView::Chunked { texts } => cut_texts(first) == Some(texts),
            EventView::DrawersNamed { ids } => given_ids(first) == Some(ids),
            _ => true,
        }
}

/// The drawers that are stored after a run.
pub open spec fn store_after(job: JobView, events: Seq<EventView>, store: Set<Seq<char>>) -> Set<
    Seq<char>,
> {
    store.union(stored_ids(job, events).to_set())
}

/// After a run that stored all new chunks, every chunk is stored.
proof fn lemma_all_chunks_stored(
    job: JobView,
    events: Seq<EventView>,
    stats: StatsView,
    store: Set<Seq<char>>,
    i: int,
)
    requires
        !job.dry_run,
        last_step(job, events) == Some(StepView::Finish { stats }),
        vector_per_text(job, events),
        answered_from(events, store),
        cut_chunks(events) is Some,
        0 <= i < cut_chunks(events)->0.len(),
    ensures
        store_after(job, events, store).contains(cut_chunks(events)->0[i].drawer_id),
{
    let chunks = cut_chunks(events)->0;
    let answers = lookup_answers(events);
    let fresh = file_ingest::fresh_batch(Format::PlainText, seq![], chunks, None);
    let batch = looked_up(chunks, answers);
    let id = chunks[i].drawer_id;
    finished_ingest_stored_what_it_reports(job, events, stats);
    assert(answers[i] <==> store.contains(id));
    if !store.contains(id) {
        let j = lemma_first_new(fresh, answers, i);
        new_chunks_are_accepted(fresh, answers, j);
        lemma_answered(fresh, answers);
        let k = choose|k: int| 0 <= k < batch.accepted.len() && batch.accepted[k] == j;
        let ids = stored_ids(job, events);
        assert(ids == first_ids(batch, stats.chunks));
        assert(ids[k] == batch.id_at(batch.accepted[k]));
        assert(ids[k] == id);
        assert(ids.contains(id));
    }
}

proof fn lemma_cut_source(first: Seq<EventView>, second: Seq<EventView>)
    requires
        same_source(first, second),
    ensures
        cut_texts(second) is Some ==> cut_texts(second) == cut_texts(first),
        given_ids(second) is Some ==> given_ids(second) == given_ids(first),
        cut_chunks(second) is Some ==> cut_chunks(second) == cut_chunks(first),
        read_bytes(second) is Some ==> read_bytes(second) == read_bytes(first),
    decreases second.len(),
{
    if second.len() > 0 {
        let before = second.drop_last();
        assert forall|i: int| 0 <= i < before.len() implies match #[trigger] before[i] {
            EventView::FileRead { bytes } => read_bytes(first) == Some(bytes),
            EventView::Chunked { texts } => cut_texts(first) == Some(texts),
            EventView::DrawersNamed { ids } => given_ids(first) == Some(ids),
            _ => true,
        } by {
            assert(second[i] == before[i]);
        }
        lemma_cut_source(first, before);
        assert(second[second.len() - 1] == second.last());
    }
    if cut_chunks(second) is Some && cut_texts(second)->0.len() == 0 && given_ids(first) is Some {
        assert(file_ingest::named_chunks(cut_texts(first)->0, given_ids(first)->0) =~= seq![]);
        assert(cut_chunks(second)->0 =~= seq![]);
    }
}

/// In a second run every drawer is found.
proof fn lemma_all_found(
    job: JobView,
    events: Seq<EventView>,
    stats: StatsView,
    store: Set<Seq<char>>,
    second: Seq<EventView>,
)
    requires
        !job.dry_run,
        last_step(job, events) == Some(StepView::Finish { stats }),
        vector_per_text(job, events),
        answered_from(events, store),
        same_source(events, second),
        answered_from(second, store_after(job, events, store)),
        cut_chunks(second) is Some,
        lookup_answers(second).len() <= cut_chunks(second)->0.len(),
    ensures
        looked_up(cut_chunks(second)->0, lookup_answers(second)).accepted.len() == 0,
        looked_up(cut_chunks(second)->0, lookup_answers(second)).skipped == lookup_answers(
            second,
        ).len(),
{
    let chunks = cut_chunks(second)->0;
    let answers = lookup_answers(second);
    lemma_cut_source(events, second);
    assert forall|i: int| 0 <= i < answers.len() implies #[trigger] answers[i] by {
        lemma_all_chunks_stored(job, events, stats, store, i);
        assert(answers[i] <==> store_after(job, events, store).contains(chunks[i].drawer_id));
    }
    lemma_all_stored(
        file_ingest::fresh_batch(Format::PlainText, seq![], chunks, None),
        answers,
    );
}

/// Once a run got a vector for each text and is done, a second run of the same
/// source stores nothing: it asks for no embedding and no insert, and when it is
/// done it reports no chunk stored and all of them skipped, which are as many as
/// the first run reported as stored or skipped.
pub proof fn second_ingest_stores_nothing(
    job: JobView,
    events: Seq<EventView>,
    stats: StatsView,
    store: Set<Seq<char>>,
    again: JobView,
    second: Seq<EventView>,
)
    requires
        !job.dry_run,
        last_step(job, events) == Some(StepView::Finish { stats }),
        vector_per_text(job, events),
        answered_from(events, store),
        same_source(events, second),
        answered_from(second, store_after(job, events, store)),
    ensures
        last_step(again, second) matches Some(StepView::Continue { action, .. }) ==> {
            &&& !(action is Embed)
            &&& !(action is Stamp)
            &&& !(action is InsertDrawer)
            &&& !(action is InsertVector)
        },
        last_step(again, second) matches Some(StepView::Finish { stats: report }) ==> {
            &&& report.files == 1
            &&& report.chunks == 0
            &&& report.skipped == stats.chunks + stats.skipped
        },
        stored_ids(again, second).len() == 0,
    decreases second.len(),
{
    if second.len() > 0 {
        let before = second.drop_last();
        lemma_source_before(job, events, store, second);
        second_ingest_stores_nothing(job, events, stats, store, again, before);
        lemma_cut_source(events, second);
        lemma_trace(again, second);
        reachable_states_are_valid(again, before);
        reachable_states_are_valid(again, second);
        finished_ingest_stored_what_it_reports(job, events, stats);
        if let Some(state) = reach(again, second) {
            if let Some(batch) = batch_in(state.phase) {
                lemma_all_found(job, events, stats, store, second);
            }
        }
        if let Some(StepView::Finish { stats: report }) = last_step(again, second) {
            finished_ingest_stored_what_it_reports(again, second, report);
            if cut_chunks(second) is Some {
                lemma_all_found(job, events, stats, store, second);
            }
        }
    }
}

proof fn lemma_source_before(
    job: JobView,
    events: Seq<EventView>,
    store: Set<Seq<char>>,
    second: Seq<EventView>,
)
    requires
        second.len() > 0,
        same_source(events, second),
        answered_from(second, store_after(job, events, store)),
    ensures
        same_source(events, second.drop_last()),
        answered_from(second.drop_last(), store_after(job, events, store)),
{
    let before = second.drop_last();
    assert forall|i: int| 0 <= i < before.len() implies match #[trigger] before[i] {
        EventView::FileRead { bytes } => read_bytes(events) == Some(bytes),
        EventView::Chunked { texts } => cut_texts(events) == Some(texts),
        EventView::DrawersNamed { ids } => given_ids(events) == Some(ids),
        _ => true,
    } by {
        assert(second[i] == before[i]);
    }
    lemma_cut_source(events, before);
    lemma_cut_source(events, second);
    if let Some(chunks) = cut_chunks(before) {
        assert forall|i: int|
            0 <= i < lookup_answers(before).len() && i < chunks.len() implies (
        #[trigger] lookup_answers(before)[i] <==> store_after(job, events, store).contains(
            chunks[i].drawer_id,
        )) by {
            assert(lookup_answers(second)[i] == lookup_answers(before)[i]);
        }
    }
}

/// A second run of the same source is done once it looked its chunks up.
pub proof fn second_ingest_ends_after_its_lookups(
    job: JobView,
    events: Seq<EventView>,
    stats: StatsView,
    store: Set<Seq<char>>,
    again: JobView,
    second: Seq<EventView>,
    batch: BatchView,
)
    requires
        !job.dry_run,
        last_step(job, events) == Some(StepView::Finish { stats }),
        vector_per_text(job, events),
        answered_from(events, store),
        reach(again, second) == Some(
            StateView { job: again, phase: PhaseView::Checking { batch } },
        ),
        is_fresh(batch),
        cut_chunks(events) == Some(batch.chunks),
    ensures
        ({
            let answers = answers_of(batch, store_after(job, events, store));
            last_step(again, second + answer_events(answers)) == Some(
                StepView::Finish {
                    stats: StatsView {
                        files: 1,
                        chunks: 0,
                        skipped: stats.chunks + stats.skipped,
                        lock_wait_ms: batch.lock_wait_ms,
                    },
                },
            )
        }),
{
    let answers = answers_of(batch, store_after(job, events, store));
    finished_ingest_stored_what_it_reports(job, events, stats);
    reachable_states_are_valid(again, second);
    assert forall|i: int| 0 <= i < answers.len() implies #[trigger] answers[i] by {
        lemma_all_chunks_stored(job, events, stats, store, i);
    }
    lemma_all_stored(batch, answers);
    lemma_answered(batch, answers);
    lemma_answered_keeps_wait(batch, answers);
    answers_decide_the_course(again, second, batch, answers);
}

/// The lock that is asked for is that of the source, and the wait for it is
/// limited to five seconds.
pub proof fn wait_for_the_lock_is_limited(job: JobView, events: Seq<EventView>)
    ensures
        last_step(job, events) matches Some(StepView::Continue { action, .. }) ==> (
        action matches ActionView::AcquireLock { home, source_file, timeout_secs } ==> {
            &&& home == job.home
            &&& source_file == job.source_file
            &&& timeout_secs == LOCK_TIMEOUT_SECS == 5
        }),
{
    if events.len() > 0 {
        reachable_states_are_valid(job, events.drop_last());
    }
}

/// How often the ingest asked for an embedding.
pub open spec fn embed_asks(job: JobView, events: Seq<EventView>) -> nat
    decreases events.len(),
{
    if events.len() == 0 {
        0
    } else {
        let before = embed_asks(job, events.drop_last());
        match last_step(job, events) {
            Some(StepView::Continue { action: ActionView::Embed { .. }, .. }) => before + 1,
            _ => before,
        }
    }
}

/// The drawers that were stored for an ingest, by their ids.
pub open spec fn kept_ids(job: JobView, events: Seq<EventView>) -> Seq<Seq<char>>
    decreases events.len(),
{
    if events.len() == 0 {
        seq![]
    } else {
        let before = kept_ids(job, events.drop_last());
        match (reach(job, events.drop_last()), events.last()) {
            (
                Some(StateView { phase: PhaseView::InsertingDrawer { batch, written, .. }, .. }),
                EventView::DrawerInserted,
            ) => before.push(batch.id_at(batch.accepted[written as int])),
            _ => before,
        }
    }
}

/// The vectors that an ingest asked to store: each with the id of its drawer and
/// its position among those that the embedder returned.
pub open spec fn stored_vectors(job: JobView, events: Seq<EventView>) -> Seq<(Seq<char>, nat)>
    decreases events.len(),
{
    if events.len() == 0 {
        seq![]
    } else {
        let before = stored_vectors(job, events.drop_last());
        match last_step(job, events) {
            Some(
                StepView::Continue { action: ActionView::InsertVector { drawer_id, slot }, .. },
            ) => before.push((drawer_id, slot)),
            _ => before,
        }
    }
}

/// The ingest has asked for its embedding.
spec fn has_embedded(phase: PhaseView) -> bool {
    ||| phase is Embedding
    ||| phase is Stamping
    ||| phase is InsertingDrawer
    ||| phase is InsertingVector
}

proof fn lemma_embed_asks(job: JobView, events: Seq<EventView>)
    ensures
        embed_asks(job, events) <= 1,
        reach(job, events) matches Some(state) ==> embed_asks(job, events) == if has_embedded(
            state.phase,
        ) {
            1nat
        } else {
            0nat
        },
    decreases events.len(),
{
    if events.len() > 0 {
        lemma_embed_asks(job, events.drop_last());
    }
}

/// The drawers that were stored for an ingest in this phase.
spec fn kept_so_far(phase: PhaseView) -> Seq<Seq<char>> {
    match phase {
        PhaseView::Stamping { batch, written, .. } => first_ids(batch, written),
        PhaseView::InsertingDrawer { batch, written, .. } => first_ids(batch, written),
        PhaseView::InsertingVector { batch, written, .. } => first_ids(batch, written + 1),
        _ => seq![],
    }
}

proof fn lemma_kept_ids(job: JobView, events: Seq<EventView>)
    ensures
        reach(job, events) matches Some(state) ==> kept_ids(job, events) == kept_so_far(
            state.phase,
        ),
    decreases events.len(),
{
    if events.len() > 0 {
        let before = events.drop_last();
        reachable_states_are_valid(job, before);
        lemma_kept_ids(job, before);
        if let Some(state) = reach(job, before) {
            match state.phase {
                PhaseView::Embedding { batch } => {
                    assert(first_ids(batch, 0) =~= seq![]);
                },
                PhaseView::InsertingDrawer { batch, vectors, written } => {
                    assert(first_ids(batch, written + 1) =~= first_ids(batch, written).push(
                        batch.id_at(batch.accepted[written as int]),
                    ));
                },
                _ => {},
            }
        }
    }
}

/// For each drawer that was stored, and for no other, an ingest asks for the
/// vector to be stored, in the same order, and at the same position among the
/// vectors. The drawers of an ingest that is done were all stored.
pub proof fn stored_drawers_get_their_vectors(job: JobView, events: Seq<EventView>)
    ensures
        stored_vectors(job, events) == Seq::new(
            kept_ids(job, events).len(),
            |k: int| (kept_ids(job, events)[k], k as nat),
        ),
        last_step(job, events) is Some && last_step(job, events)->0 is Finish ==> kept_ids(
            job,
            events,
        ) == stored_ids(job, events),
    decreases events.len(),
{
    if events.len() > 0 {
        let before = events.drop_last();
        stored_drawers_get_their_vectors(job, before);
        reachable_states_are_valid(job, before);
        lemma_kept_ids(job, before);
        lemma_stored_ids(job, before);
        assert(stored_vectors(job, events) =~= Seq::new(
            kept_ids(job, events).len(),
            |k: int| (kept_ids(job, events)[k], k as nat),
        ));
    }
}

/// An ingest asks for at most one embedding. One that fails stored no drawer and
/// no vector, unless storing one was what failed: then all drawers before it
/// were stored.
pub proof fn failures_before_storing_store_nothing(job: JobView, events: Seq<EventView>)
    ensures
        embed_asks(job, events) <= 1,
        last_step(job, events) matches Some(StepView::Fail { error }) ==> match error {
            IngestErrorView::InsertDrawer { drawer_id } => stored_ids(job, events) == kept_ids(
                job,
                events,
            ).push(drawer_id),
            IngestErrorView::InsertVector { drawer_id } => {
                &&& stored_ids(job, events) == kept_ids(job, events)
                &&& kept_ids(job, events).len() > 0
                &&& kept_ids(job, events).last() == drawer_id
            },
            _ => {
                &&& stored_ids(job, events).len() == 0
                &&& kept_ids(job, events).len() == 0
                &&& stored_vectors(job, events).len() == 0
            },
        },
        last_step(job, events) matches Some(StepView::Endless) ==> stored_ids(job, events).len()
            == 0,
{
    lemma_embed_asks(job, events);
    if events.len() > 0 {
        let before = events.drop_last();
        reachable_states_are_valid(job, before);
        lemma_kept_ids(job, before);
        lemma_stored_ids(job, before);
        stored_drawers_get_their_vectors(job, events);
        if let Some(state) = reach(job, before) {
            if let PhaseView::InsertingDrawer { batch, vectors, written } = state.phase {
                assert(first_ids(batch, written + 1) =~= first_ids(batch, written).push(
                    batch.id_at(batch.accepted[written as int]),
                ));
            }
        }
    }
}

/// An ingest that cannot take the lock fails for that reason, before it stored
/// anything, asked for an embedding or looked anything up.
pub proof fn without_the_lock_nothing_is_stored(job: JobView, events: Seq<EventView>)
    requires
        reach(job, events) matches Some(state) && state.phase is Locking,
    ensures
        last_step(job, events.push(EventView::Failed)) == Some(
            StepView::Fail { error: IngestErrorView::Lock },
        ),
        stored_ids(job, events.push(EventView::Failed)).len() == 0,
        lookup_answers(events.push(EventView::Failed)).len() == 0,
        embed_asks(job, events.push(EventView::Failed)) == 0,
{
    let all = events.push(EventView::Failed);
    assert(all.drop_last() =~= events);
    lemma_trace(job, events);
    lemma_stored_ids(job, events);
    lemma_embed_asks(job, events);
}

} // verus!
