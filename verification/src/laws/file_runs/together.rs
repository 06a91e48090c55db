//! What holds of two ingests of the same source that run at the same time.

use crate::file_ingest::{BatchView, EventView, JobView, PhaseView, StateView, StepView};
use crate::ingest::StatsView;
use crate::laws::file_runs;
use vstd::prelude::*;

verus! {

/// An event of one of two ingests.
pub struct Turn {
    /// The event is one of the second ingest.
    pub second: bool,
    pub event: EventView,
}

/// The events of one of the ingests, in order.
pub open spec fn events_of(turns: Seq<Turn>, second: bool) -> Seq<EventView>
    decreases turns.len(),
{
    if turns.len() == 0 {
        seq![]
    } else {
        let before = events_of(turns.drop_last(), second);
        if turns.last().second == second {
            before.push(turns.last().event)
        } else {
            before
        }
    }
}

/// The ingest has taken the lock of its source, and is still on its way.
pub open spec fn holds_lock(job: JobView, events: Seq<EventView>) -> bool {
    file_runs::lock_was_taken(events) && file_runs::reach(job, events) is Some
}

/// Both ingests ask for the same lock.
pub open spec fn share_lock(a: JobView, b: JobView) -> bool {
    a.home == b.home && a.source_file == b.source_file
}

/// No lock is taken by one ingest while the other one holds it.
pub open spec fn lock_excludes(a: JobView, b: JobView, turns: Seq<Turn>) -> bool
    decreases turns.len(),
{
    turns.len() > 0 ==> {
        let before = turns.drop_last();
        &&& lock_excludes(a, b, before)
        &&& share_lock(a, b) && turns.last().event is LockAcquired ==> if turns.last().second {
            !holds_lock(a, events_of(before, false))
        } else {
            !holds_lock(b, events_of(before, true))
        }
    }
}

/// The drawers in the store after these events: those that it held before, and
/// those that were stored for either ingest.
pub open spec fn store_at(a: JobView, b: JobView, store: Set<Seq<char>>, turns: Seq<Turn>) -> Set<
    Seq<char>,
> {
    store.union(file_runs::kept_ids(a, events_of(turns, false)).to_set()).union(
        file_runs::kept_ids(b, events_of(turns, true)).to_set(),
    )
}

/// The answer to looking a drawer up is whether the store holds it.
pub open spec fn answers_truly(
    job: JobView,
    events: Seq<EventView>,
    event: EventView,
    store: Set<Seq<char>>,
) -> bool {
    match (file_runs::reach(job, events), event) {
        (
            Some(StateView { phase: PhaseView::Checking { batch }, .. }),
            EventView::DrawerChecked { found },
        ) => found <==> store.contains(batch.id_at(batch.checked)),
        _ => true,
    }
}

/// Every drawer was looked up in the store as it was at that time.
pub open spec fn lookups_are_true(
    a: JobView,
    b: JobView,
    store: Set<Seq<char>>,
    turns: Seq<Turn>,
) -> bool
    decreases turns.len(),
{
    turns.len() > 0 ==> {
        let before = turns.drop_last();
        let second = turns.last().second;
        let job = if second {
            b
        } else {
            a
        };
        &&& lookups_are_true(a, b, store, before)
        &&& answers_truly(
            job,
            events_of(before, second),
            turns.last().event,
            store_at(a, b, store, before),
        )
    }
}

/// No id of one list is in the other, nor in the store.
spec fn are_apart(ids: Seq<Seq<char>>, others: Seq<Seq<char>>, store: Set<Seq<char>>) -> bool {
    forall|k: int|
        0 <= k < ids.len() ==> !others.contains(#[trigger] ids[k]) && !store.contains(ids[k])
}

/// The ids of all accepted chunks.
spec fn accepted_ids(batch: BatchView) -> Seq<Seq<char>> {
    file_runs::first_ids(batch, batch.accepted.len())
}

/// What the ingest that holds the lock is to store is not stored.
spec fn stores_apart(
    job: JobView,
    events: Seq<EventView>,
    others: Seq<Seq<char>>,
    store: Set<Seq<char>>,
) -> bool {
    file_runs::reach(job, events) matches Some(state) ==> (file_runs::batch_in(
        state.phase,
    ) matches Some(batch) ==> are_apart(accepted_ids(batch), others, store))
}

/// One ingest goes on while the other one waits.
proof fn lemma_turn(
    job: JobView,
    before: Seq<EventView>,
    event: EventView,
    others: Seq<Seq<char>>,
    store: Set<Seq<char>>,
    held: Set<Seq<char>>,
)
    requires
        !job.dry_run,
        stores_apart(job, before, others, store),
        are_apart(file_runs::kept_ids(job, before), others, store),
        answers_truly(job, before, event, held),
        store.subset_of(held),
        others.to_set().subset_of(held),
    ensures
        stores_apart(job, before.push(event), others, store),
        are_apart(file_runs::kept_ids(job, before.push(event)), others, store),
{
    let after = before.push(event);
    assert(after.drop_last() =~= before);
    file_runs::reachable_states_are_valid(job, before);
    if let Some(state) = file_runs::reach(job, before) {
        match (state.phase, event) {
            (PhaseView::Locking { batch }, EventView::LockAcquired { wait_ms }) => {
                assert(accepted_ids(
                    BatchView { lock_wait_ms: Some(wait_ms as u64), ..batch },
                ) =~= seq![]);
            },
            (PhaseView::Checking { batch }, EventView::DrawerChecked { found }) => {
                let next = batch.with_answer(found);
                let ids = accepted_ids(next);
                assert forall|k: int| 0 <= k < ids.len() implies !others.contains(
                    #[trigger] ids[k],
                ) && !store.contains(ids[k]) by {
                    if k < batch.accepted.len() {
                        assert(ids[k] == accepted_ids(batch)[k]);
                    } else {
                        let id = batch.id_at(batch.checked);
                        assert(ids[k] == id);
                        assert(!held.contains(id));
                        if others.contains(id) {
                            assert(others.to_set().contains(id));
                        }
                    }
                }
            },
            (PhaseView::InsertingDrawer { batch, vectors, written }, EventView::DrawerInserted) => {
                let ids = file_runs::kept_ids(job, after);
                let earlier = file_runs::kept_ids(job, before);
                assert forall|k: int| 0 <= k < ids.len() implies !others.contains(
                    #[trigger] ids[k],
                ) && !store.contains(ids[k]) by {
                    if k < earlier.len() {
                        assert(ids[k] == earlier[k]);
                    } else {
                        assert(ids[k] == accepted_ids(batch)[written as int]);
                    }
                }
            },
            _ => {},
        }
    }
}

/// Of the two ingests, only one at a time has chunks looked up or stored, and
/// what it is to store the other one did not store.
proof fn lemma_apart(a: JobView, b: JobView, store: Set<Seq<char>>, turns: Seq<Turn>)
    requires
        !a.dry_run,
        !b.dry_run,
        share_lock(a, b),
        lock_excludes(a, b, turns),
        lookups_are_true(a, b, store, turns),
    ensures
        ({
            let of_a = events_of(turns, false);
            let of_b = events_of(turns, true);
            let ids_a = file_runs::kept_ids(a, of_a);
            let ids_b = file_runs::kept_ids(b, of_b);
            &&& !(holds_lock(a, of_a) && holds_lock(b, of_b))
            &&& stores_apart(a, of_a, ids_b, store)
            &&& stores_apart(b, of_b, ids_a, store)
            &&& are_apart(ids_a, ids_b, store)
            &&& are_apart(ids_b, ids_a, store)
        }),
    decreases turns.len(),
{
    if turns.len() > 0 {
        let before = turns.drop_last();
        lemma_apart(a, b, store, before);
        let held = store_at(a, b, store, before);
        let of_a = events_of(before, false);
        let of_b = events_of(before, true);
        let event = turns.last().event;
        if turns.last().second {
            lemma_turn(b, of_b, event, file_runs::kept_ids(a, of_a), store, held);
            lemma_one_holds(b, of_b, event, a, of_a);
            lemma_apart_both_ways(
                file_runs::kept_ids(b, of_b.push(event)),
                file_runs::kept_ids(a, of_a),
                store,
            );
        } else {
            lemma_turn(a, of_a, event, file_runs::kept_ids(b, of_b), store, held);
            lemma_one_holds(a, of_a, event, b, of_b);
            lemma_apart_both_ways(
                file_runs::kept_ids(a, of_a.push(event)),
                file_runs::kept_ids(b, of_b),
                store,
            );
        }
    }
}

/// While the other ingest holds the lock, this one stores nothing.
proof fn lemma_one_holds(
    job: JobView,
    before: Seq<EventView>,
    event: EventView,
    other: JobView,
    of_other: Seq<EventView>,
)
    requires
        !job.dry_run,
        !other.dry_run,
        !(holds_lock(job, before) && holds_lock(other, of_other)),
        event is LockAcquired ==> !holds_lock(other, of_other),
    ensures
        !(holds_lock(job, before.push(event)) && holds_lock(other, of_other)),
        file_runs::reach(other, of_other) matches Some(state) && file_runs::batch_in(
            state.phase,
        ) is Some ==> file_runs::kept_ids(job, before.push(event)) == file_runs::kept_ids(
            job,
            before,
        ),
{
    let after = before.push(event);
    assert(after.drop_last() =~= before);
    file_runs::lemma_lock_taken(job, before);
    file_runs::lemma_lock_taken(other, of_other);
    file_runs::lemma_lock_taken_last(after);
}

proof fn lemma_apart_both_ways(
    ids: Seq<Seq<char>>,
    others: Seq<Seq<char>>,
    store: Set<Seq<char>>,
)
    requires
        are_apart(ids, others, store),
        forall|k: int| 0 <= k < others.len() ==> !store.contains(#[trigger] others[k]),
    ensures
        are_apart(others, ids, store),
{
    assert forall|k: int| 0 <= k < others.len() implies !ids.contains(#[trigger] others[k]) by {
        if ids.contains(others[k]) {
            let l = choose|l: int| 0 <= l < ids.len() && ids[l] == others[k];
            assert(others.contains(ids[l]));
        }
    }
}

proof fn lemma_kept_once(job: JobView, events: Seq<EventView>)
    ensures
        file_runs::kept_ids(job, events).no_duplicates(),
    decreases events.len(),
{
    if events.len() > 0 {
        let before = events.drop_last();
        lemma_kept_once(job, before);
        file_runs::reachable_states_are_valid(job, before);
        file_runs::lemma_kept_ids(job, before);
        if let Some(state) = file_runs::reach(job, before) {
            if let PhaseView::InsertingDrawer { batch, vectors, written } = state.phase {
                let ids = file_runs::kept_ids(job, events);
                assert forall|k: int, l: int|
                    0 <= k < ids.len() && 0 <= l < ids.len() && k != l implies ids[k] != ids[l] by {
                    let low = if k < l {
                        k
                    } else {
                        l
                    };
                    let high = if k < l {
                        l
                    } else {
                        k
                    };
                    if high <= written {
                        assert(batch.id_at(batch.accepted[low]) != batch.id_at(
                            batch.accepted[high],
                        ));
                    }
                }
            }
        }
    }
}

/// Of two ingests of the same source, whatever the order in which they go on,
/// none stores a drawer that the store held, or that was stored for either of
/// them: the lock keeps one from looking its drawers up before the other one is
/// done or has failed.
pub proof fn two_ingests_store_each_drawer_once(
    a: JobView,
    b: JobView,
    store: Set<Seq<char>>,
    turns: Seq<Turn>,
)
    requires
        !a.dry_run,
        !b.dry_run,
        share_lock(a, b),
        lock_excludes(a, b, turns),
        lookups_are_true(a, b, store, turns),
    ensures
        ({
            let ids = file_runs::kept_ids(a, events_of(turns, false)) + file_runs::kept_ids(
                b,
                events_of(turns, true),
            );
            &&& ids.no_duplicates()
            &&& forall|k: int| 0 <= k < ids.len() ==> !store.contains(#[trigger] ids[k])
        }),
{
    let of_a = file_runs::kept_ids(a, events_of(turns, false));
    let of_b = file_runs::kept_ids(b, events_of(turns, true));
    let ids = of_a + of_b;
    lemma_apart(a, b, store, turns);
    lemma_kept_once(a, events_of(turns, false));
    lemma_kept_once(b, events_of(turns, true));
    let n = of_a.len() as int;
    assert forall|k: int, l: int|
        0 <= k < ids.len() && 0 <= l < ids.len() && k != l implies ids[k] != ids[l] by {
        if k < n && l < n {
            assert(of_a[k] != of_a[l]);
        } else if k >= n && l >= n {
            assert(of_b[k - n] != of_b[l - n]);
        } else if k < n {
            assert(!of_b.contains(of_a[k]));
            assert(of_b.contains(of_b[l - n]));
        } else {
            assert(!of_a.contains(of_b[k - n]));
            assert(of_a.contains(of_a[l]));
        }
    }
    assert forall|k: int| 0 <= k < ids.len() implies !store.contains(#[trigger] ids[k]) by {
        if k < n {
            assert(ids[k] == of_a[k]);
        } else {
            assert(ids[k] == of_b[k - n]);
        }
    }
}

/// The first ingest took the lock before the second one did.
pub open spec fn first_locks_first(turns: Seq<Turn>) -> bool
    decreases turns.len(),
{
    turns.len() > 0 ==> {
        let before = turns.drop_last();
        &&& first_locks_first(before)
        &&& turns.last().second && turns.last().event is LockAcquired ==> file_runs::lock_was_taken(
            events_of(before, false),
        )
    }
}

proof fn lemma_unlocked_keeps_nothing(job: JobView, events: Seq<EventView>)
    requires
        !job.dry_run,
        !file_runs::lock_was_taken(events),
    ensures
        file_runs::kept_ids(job, events).len() == 0,
    decreases events.len(),
{
    if events.len() > 0 {
        let before = events.drop_last();
        file_runs::lemma_lock_taken_last(events);
        lemma_unlocked_keeps_nothing(job, before);
        file_runs::lemma_lock_taken(job, before);
    }
}

/// One more true answer.
proof fn lemma_answer(job: JobView, before: Seq<EventView>, event: EventView, store: Set<Seq<char>>)
    requires
        file_runs::is_run(job, before.push(event)),
        file_runs::answered_from(before, store),
        answers_truly(job, before, event, store),
    ensures
        file_runs::answered_from(before.push(event), store),
{
    let after = before.push(event);
    assert(after.drop_last() =~= before);
    file_runs::lemma_trace(job, before);
    file_runs::reachable_states_are_valid(job, before);
    let state = file_runs::reach(job, before)->0;
    if let Some(chunks) = file_runs::cut_chunks(after) {
        let answers = file_runs::lookup_answers(after);
        let earlier = file_runs::lookup_answers(before);
        assert forall|i: int| 0 <= i < answers.len() && i < chunks.len() implies (
        #[trigger] answers[i] <==> store.contains(chunks[i].drawer_id)) by {
            if i < earlier.len() {
                assert(answers[i] == earlier[i]);
                assert(file_runs::cut_chunks(before) == Some(chunks));
            }
        }
    }
}

/// These are the first of all events of a run.
spec fn is_part_of(part: Seq<EventView>, whole: Seq<EventView>) -> bool {
    part.len() <= whole.len() && part == whole.take(part.len() as int)
}

proof fn lemma_on_its_way(job: JobView, whole: Seq<EventView>, part: Seq<EventView>)
    requires
        file_runs::is_run(job, whole),
        is_part_of(part, whole),
        part.len() < whole.len(),
    ensures
        file_runs::reach(job, part) is Some,
        file_runs::is_run(job, part),
        part.len() > 0 ==> file_runs::is_run(job, part.drop_last()) && is_part_of(
            part.drop_last(),
            whole,
        ),
    decreases whole.len(),
{
    let before = whole.drop_last();
    assert(before =~= whole.take(before.len() as int));
    if part.len() < before.len() {
        assert(part =~= before.take(part.len() as int));
        lemma_on_its_way(job, before, part);
    } else {
        assert(part =~= before);
    }
    if part.len() > 0 {
        assert(part.drop_last() =~= whole.take(part.len() - 1));
    }
}

/// The first ingest looks its drawers up in the store as it was, and the second
/// one in the store as the first one leaves it.
proof fn lemma_lookups(
    a: JobView,
    b: JobView,
    store: Set<Seq<char>>,
    turns: Seq<Turn>,
    whole: Seq<EventView>,
)
    requires
        !a.dry_run,
        !b.dry_run,
        share_lock(a, b),
        lock_excludes(a, b, turns),
        lookups_are_true(a, b, store, turns),
        first_locks_first(turns),
        file_runs::last_step(a, whole) is Some,
        file_runs::last_step(a, whole)->0 is Finish,
        is_part_of(events_of(turns, false), whole),
        file_runs::is_run(b, events_of(turns, true)),
    ensures
        file_runs::answered_from(events_of(turns, false), store),
        file_runs::answered_from(
            events_of(turns, true),
            file_runs::store_after(a, whole, store),
        ),
        file_runs::lock_was_taken(events_of(turns, true)) ==> events_of(turns, false) == whole,
    decreases turns.len(),
{
    if turns.len() > 0 {
        let before = turns.drop_last();
        let of_a = events_of(before, false);
        let of_b = events_of(before, true);
        let event = turns.last().event;
        if turns.last().second {
            assert(events_of(turns, false) == of_a);
            assert(events_of(turns, true) == of_b.push(event));
            lemma_run_before(b, of_b, event);
            lemma_lookups(a, b, store, before, whole);
            assert(answers_truly(b, of_b, event, store_at(a, b, store, before)));
            lemma_second_turn(a, b, store, of_a, of_b, event, whole);
        } else {
            assert(events_of(turns, false) == of_a.push(event));
            assert(events_of(turns, true) == of_b);
            lemma_part_before(of_a, event, whole);
            lemma_lookups(a, b, store, before, whole);
            assert(answers_truly(a, of_a, event, store_at(a, b, store, before)));
            lemma_first_turn(a, b, store, of_a, of_b, event, whole);
        }
    }
}

proof fn lemma_run_before(job: JobView, before: Seq<EventView>, event: EventView)
    requires
        file_runs::is_run(job, before.push(event)),
    ensures
        file_runs::is_run(job, before),
        file_runs::reach(job, before) is Some,
{
    assert(before.push(event).drop_last() =~= before);
}

proof fn lemma_part_before(before: Seq<EventView>, event: EventView, whole: Seq<EventView>)
    requires
        is_part_of(before.push(event), whole),
    ensures
        is_part_of(before, whole),
        before.len() < whole.len(),
{
    assert(before =~= before.push(event).take(before.len() as int));
    assert(before =~= whole.take(before.len() as int));
}

proof fn lemma_first_turn(
    a: JobView,
    b: JobView,
    store: Set<Seq<char>>,
    of_a: Seq<EventView>,
    of_b: Seq<EventView>,
    event: EventView,
    whole: Seq<EventView>,
)
    requires
        !b.dry_run,
        file_runs::is_run(a, whole),
        is_part_of(of_a.push(event), whole),
        file_runs::answered_from(of_a, store),
        file_runs::lock_was_taken(of_b) ==> of_a == whole,
        answers_truly(
            a,
            of_a,
            event,
            store.union(file_runs::kept_ids(a, of_a).to_set()).union(
                file_runs::kept_ids(b, of_b).to_set(),
            ),
        ),
    ensures
        file_runs::answered_from(of_a.push(event), store),
        !file_runs::lock_was_taken(of_b),
{
    let after = of_a.push(event);
    let held = store.union(file_runs::kept_ids(a, of_a).to_set()).union(
        file_runs::kept_ids(b, of_b).to_set(),
    );
    lemma_part_before(of_a, event, whole);
    lemma_on_its_way(a, whole, of_a);
    assert(file_runs::is_run(a, after)) by {
        if after.len() < whole.len() {
            lemma_on_its_way(a, whole, after);
        } else {
            assert(after =~= whole);
        }
    }
    lemma_unlocked_keeps_nothing(b, of_b);
    assert(answers_truly(a, of_a, event, store)) by {
        file_runs::lemma_kept_ids(a, of_a);
        if let Some(StateView { phase: PhaseView::Checking { batch }, .. }) = file_runs::reach(
            a,
            of_a,
        ) {
            let id = batch.id_at(batch.checked);
            assert(held.contains(id) <==> store.contains(id));
        }
    }
    lemma_answer(a, of_a, event, store);
}

proof fn lemma_second_turn(
    a: JobView,
    b: JobView,
    store: Set<Seq<char>>,
    of_a: Seq<EventView>,
    of_b: Seq<EventView>,
    event: EventView,
    whole: Seq<EventView>,
)
    requires
        !a.dry_run,
        !b.dry_run,
        file_runs::last_step(a, whole) is Some,
        file_runs::last_step(a, whole)->0 is Finish,
        is_part_of(of_a, whole),
        file_runs::is_run(b, of_b.push(event)),
        file_runs::answered_from(of_b, file_runs::store_after(a, whole, store)),
        file_runs::lock_was_taken(of_b) ==> of_a == whole,
        event is LockAcquired ==> file_runs::lock_was_taken(of_a) && !holds_lock(a, of_a),
        answers_truly(
            b,
            of_b,
            event,
            store.union(file_runs::kept_ids(a, of_a).to_set()).union(
                file_runs::kept_ids(b, of_b).to_set(),
            ),
        ),
    ensures
        file_runs::answered_from(of_b.push(event), file_runs::store_after(a, whole, store)),
        file_runs::lock_was_taken(of_b.push(event)) ==> of_a == whole,
{
    let after = of_b.push(event);
    assert(after.drop_last() =~= of_b);
    file_runs::lemma_lock_taken_last(after);
    file_runs::lemma_lock_taken(b, of_b);
    if event is LockAcquired {
        if of_a.len() < whole.len() {
            lemma_on_its_way(a, whole, of_a);
        }
        assert(of_a =~= whole);
    }
    let left = file_runs::store_after(a, whole, store);
    assert(answers_truly(b, of_b, event, left)) by {
        file_runs::lemma_kept_ids(b, of_b);
        file_runs::stored_drawers_get_their_vectors(a, whole);
        if let Some(StateView { phase: PhaseView::Checking { batch }, .. }) = file_runs::reach(
            b,
            of_b,
        ) {
            let id = batch.id_at(batch.checked);
            let held = store.union(file_runs::kept_ids(a, of_a).to_set()).union(
                file_runs::kept_ids(b, of_b).to_set(),
            );
            assert(held.contains(id) <==> left.contains(id));
        }
    }
    lemma_answer(b, of_b, event, left);
}

/// Of two ingests of the same source, the one that takes the lock later stores
/// nothing, where the other one is done and got a vector for each text: it asks
/// for no embedding, and reports as skipped all that the first one reported as
/// stored or skipped. Both report their wait for the lock, where there are
/// chunks.
pub proof fn later_ingest_stores_nothing(
    a: JobView,
    b: JobView,
    store: Set<Seq<char>>,
    turns: Seq<Turn>,
    stats: StatsView,
)
    requires
        !a.dry_run,
        !b.dry_run,
        share_lock(a, b),
        lock_excludes(a, b, turns),
        lookups_are_true(a, b, store, turns),
        first_locks_first(turns),
        file_runs::last_step(a, events_of(turns, false)) == Some(StepView::Finish { stats }),
        file_runs::vector_per_text(a, events_of(turns, false)),
        file_runs::is_run(b, events_of(turns, true)),
        file_runs::same_source(events_of(turns, false), events_of(turns, true)),
    ensures
        file_runs::kept_ids(a, events_of(turns, false)).len() == stats.chunks,
        file_runs::stored_ids(b, events_of(turns, true)).len() == 0,
        file_runs::kept_ids(b, events_of(turns, true)).len() == 0,
        file_runs::embed_asks(b, events_of(turns, true)) == 0,
        file_runs::last_step(b, events_of(turns, true)) matches Some(
            StepView::Finish { stats: report },
        ) ==> {
            &&& report.files == 1
            &&& report.chunks == 0
            &&& report.skipped == stats.chunks + stats.skipped
            &&& stats.chunks + stats.skipped > 0 ==> stats.lock_wait_ms is Some
                && report.lock_wait_ms is Some
        },
{
    let of_a = events_of(turns, false);
    let of_b = events_of(turns, true);
    assert(of_a =~= of_a.take(of_a.len() as int));
    lemma_lookups(a, b, store, turns, of_a);
    file_runs::second_ingest_stores_nothing(a, of_a, stats, store, b, of_b);
    file_runs::finished_ingest_stored_what_it_reports(a, of_a, stats);
    file_runs::stored_drawers_get_their_vectors(a, of_a);
    lemma_nothing_asked(a, of_a, stats, store, b, of_b);
    lemma_waits(a, of_a);
    lemma_waits(b, of_b);
}

proof fn lemma_nothing_asked(
    job: JobView,
    events: Seq<EventView>,
    stats: StatsView,
    store: Set<Seq<char>>,
    again: JobView,
    second: Seq<EventView>,
)
    requires
        !job.dry_run,
        file_runs::last_step(job, events) == Some(StepView::Finish { stats }),
        file_runs::vector_per_text(job, events),
        file_runs::answered_from(events, store),
        file_runs::same_source(events, second),
        file_runs::answered_from(second, file_runs::store_after(job, events, store)),
    ensures
        file_runs::embed_asks(again, second) == 0,
        file_runs::kept_ids(again, second).len() == 0,
    decreases second.len(),
{
    if second.len() > 0 {
        let before = second.drop_last();
        file_runs::lemma_source_before(job, events, store, second);
        lemma_nothing_asked(job, events, stats, store, again, before);
        file_runs::second_ingest_stores_nothing(job, events, stats, store, again, second);
        file_runs::lemma_embed_asks(again, before);
    }
}

/// An ingest that is done and had chunks took the lock.
proof fn lemma_waits(job: JobView, events: Seq<EventView>)
    requires
        !job.dry_run,
    ensures
        file_runs::last_step(job, events) matches Some(StepView::Finish { stats }) ==> (stats.chunks
            + stats.skipped > 0 ==> stats.lock_wait_ms is Some),
{
    if events.len() > 0 {
        file_runs::reachable_states_are_valid(job, events.drop_last());
    }
}

} // verus!
