//! What one step of a walk does, in terms of what it was told and of what it does next.

use vstd::prelude::*;

use crate::dag::{by_id, graph_of, is_picture, DagNodeInput};
use crate::dag_laws::law_base_order;
use crate::decode::{badge_views, badges_of};
use crate::event::{operation_views, Attested, Event};
use crate::host::Resolved;
use crate::plan::plan;
use crate::plan_laws::lemma_plan;
use crate::text::texts;
use crate::walk::{
    answered, are_inputs, begun, counted, cut_short, ends, enqueued, enqueued_parents,
    fetched_count, gathered, goes_on, headed, is_history, is_input, is_parent, keys, listed,
    local_rec, noted, planned, stocked, well_formed, History, Phase, RecModel, Step, WalkModel,
};
use crate::walk_laws::{lemma_counted, lemma_push_has, queue_ok};

verus! {

// ---------------------------------------------------------------------------
// The start
// ---------------------------------------------------------------------------

/// A walk starts with the head, the values and the provenance that the application
/// resolved, and with nothing found.
pub proof fn law_a_walk_starts_with_what_was_resolved(resolved: Resolved)
    ensures
        match resolved.head {
            Some(head) => begun(resolved).head == Some(head@),
            None => begun(resolved).head is None,
        },
        begun(resolved).values == resolved.values,
        begun(resolved).wrote_current == resolved.wrote_current,
        begun(resolved).known.len() == 0,
        begun(resolved).seen.len() == 0,
        begun(resolved).frontier.len() == 0,
        begun(resolved).local == 0,
        begun(resolved).unresolved == 0,
{
}

/// What the application resolved goes through a walk unchanged. Only a walk without a
/// head takes one up, and only the one that was stored.
pub proof fn law_a_walk_keeps_what_was_resolved(
    w: WalkModel,
    events: Seq<Attested>,
    head: Option<Seq<Seq<u8>>>,
    reply: Result<Event, String>,
    read_back: Option<Vec<Attested>>,
)
    ensures
        forall|next: WalkModel|
            #![trigger next.values]
            next == stocked(w, events) || next == headed(w, head) || next == planned(w) || next
                == answered(w, reply) || next == cut_short(w) || next == noted(w, read_back)
                ==> next.values == w.values && next.wrote_current == w.wrote_current,
        forall|next: WalkModel|
            #![trigger next.head]
            next == stocked(w, events) || next == planned(w) || next == answered(w, reply) || next
                == cut_short(w) || next == noted(w, read_back) ==> next.head == w.head,
        w.head is Some ==> headed(w, head).head == w.head,
        w.head is None ==> headed(w, head).head == head,
        headed(w, head).known == w.known,
        headed(w, head).seen == w.seen,
        headed(w, head).frontier == w.frontier,
        headed(w, head).unresolved == w.unresolved,
        headed(w, head).local == w.local,
        headed(w, head).fetched_ids == w.fetched_ids,
{
}

// ---------------------------------------------------------------------------
// Stored events
// ---------------------------------------------------------------------------

proof fn lemma_gathered_listing(events: Seq<Attested>)
    ensures
        forall|i: int|
            0 <= i < events.len() ==> keys(gathered(events)).contains(
                (#[trigger] events[i]).payload.content_id(),
            ),
        forall|k: int|
            0 <= k < gathered(events).len() ==> from_last_listing(
                #[trigger] gathered(events)[k],
                events,
            ),
    decreases events.len(),
{
    if events.len() > 0 {
        let fewer = events.drop_last();
        let last = events.last();
        let before = gathered(fewer);
        let rec = local_rec(last);
        let all = gathered(events);
        lemma_gathered_listing(fewer);
        assert forall|i: int| 0 <= i < events.len() implies keys(all).contains(
            (#[trigger] events[i]).payload.content_id(),
        ) by {
            let id = events[i].payload.content_id();
            if i < fewer.len() {
                assert(fewer[i] == events[i]);
                let k = choose|k: int| 0 <= k < keys(before).len() && keys(before)[k] == id;
                assert(keys(all)[k] == id);
            } else if keys(before).contains(rec.key) {
                let k = choose|k: int|
                    0 <= k < keys(before).len() && keys(before)[k] == rec.key;
                assert(keys(all)[k] == id);
            } else {
                assert(keys(all)[before.len() as int] == id);
            }
        }
        assert forall|k: int| 0 <= k < all.len() implies from_last_listing(
            #[trigger] all[k],
            events,
        ) by {
            if all[k] == rec {
                assert(events[events.len() - 1] == last);
                assert(is_last_listing(all[k], events, events.len() - 1));
            } else {
                assert(all[k] == before[k]);
                let i = choose|i: int| is_last_listing(before[k], fewer, i);
                assert(events[i] == fewer[i]);
                assert(all[k].key != rec.key) by {
                    if all[k].key == rec.key {
                        assert(keys(before)[k] == rec.key);
                        assert(keys(before).contains(rec.key));
                    }
                }
                assert forall|j: int| i < j < events.len() implies (
                #[trigger] events[j]).payload.content_id() != all[k].key by {
                    if j < fewer.len() {
                        assert(fewer[j] == events[j]);
                    }
                }
                assert(is_last_listing(all[k], events, i));
            }
        }
    }
}

/// `rec` is the stored event at `i`, which is the last of its id.
pub open spec fn is_last_listing(rec: RecModel, events: Seq<Attested>, i: int) -> bool {
    &&& 0 <= i < events.len()
    &&& rec.key == events[i].payload.content_id()
    &&& rec.event == events[i].payload
    &&& rec.attestations == Some(events[i].attestations as nat)
    &&& !rec.fetched
    &&& forall|j: int|
        i < j < events.len() ==> (#[trigger] events[j]).payload.content_id() != rec.key
}

/// `rec` is a stored event, as it was listed last.
pub open spec fn from_last_listing(rec: RecModel, events: Seq<Attested>) -> bool {
    exists|i: int| is_last_listing(rec, events, i)
}

/// Every stored event is known, under its own id and with its attestations, as a stored
/// one, and nothing else is known then.
pub proof fn law_stored_events_are_known(w: WalkModel, events: Seq<Attested>)
    ensures
        ({
            let full = stocked(w, events);
            &&& forall|i: int|
                0 <= i < events.len() ==> keys(full.known).contains(
                    (#[trigger] events[i]).payload.content_id(),
                )
            &&& forall|k: int|
                0 <= k < full.known.len() ==> from_last_listing(#[trigger] full.known[k], events)
            &&& full.local == full.known.len()
            &&& full.seen == keys(full.known)
            &&& full.frontier.len() == 0
            &&& full.unresolved == 0
        }),
{
    lemma_gathered_listing(events);
}

// ---------------------------------------------------------------------------
// What is asked for
// ---------------------------------------------------------------------------

/// What queueing ids adds: to what was seen and to what is asked for the same, behind
/// what was there, each once, and no id that was seen before.
proof fn lemma_queued(queue: (Seq<Seq<u8>>, Seq<Seq<u8>>), ids: Seq<Seq<u8>>) -> (added: Seq<
    Seq<u8>,
>)
    ensures
        enqueued(queue, ids).0 == queue.0 + added,
        enqueued(queue, ids).1 == queue.1 + added,
        forall|x: Seq<u8>| #[trigger]
            added.contains(x) <==> ids.contains(x) && !queue.0.contains(x),
        added.no_duplicates(),
    decreases ids.len(),
{
    if ids.len() == 0 {
        assert(queue.0 + Seq::<Seq<u8>>::empty() =~= queue.0);
        assert(queue.1 + Seq::<Seq<u8>>::empty() =~= queue.1);
        Seq::empty()
    } else {
        let fewer = ids.drop_last();
        let last = ids.last();
        let before = lemma_queued(queue, fewer);
        assert(ids =~= fewer.push(last));
        lemma_push_has(fewer, last);
        lemma_push_has(before, last);
        let seen = queue.0 + before;
        assert(seen.contains(last) <==> queue.0.contains(last) || before.contains(last)) by {
            if queue.0.contains(last) {
                let k = choose|k: int| 0 <= k < queue.0.len() && queue.0[k] == last;
                assert(seen[k] == last);
            }
            if before.contains(last) {
                let k = choose|k: int| 0 <= k < before.len() && before[k] == last;
                assert(seen[queue.0.len() + k] == last);
            }
            if seen.contains(last) {
                let k = choose|k: int| 0 <= k < seen.len() && seen[k] == last;
                if k >= queue.0.len() {
                    assert(before[k - queue.0.len()] == last);
                } else {
                    assert(queue.0[k] == last);
                }
            }
        }
        if seen.contains(last) {
            before
        } else {
            assert((queue.0 + before).push(last) =~= queue.0 + before.push(last));
            assert((queue.1 + before).push(last) =~= queue.1 + before.push(last));
            before.push(last)
        }
    }
}

proof fn lemma_queued_parents(
    queue: (Seq<Seq<u8>>, Seq<Seq<u8>>),
    known: Seq<RecModel>,
) -> (added: Seq<Seq<u8>>)
    ensures
        enqueued_parents(queue, known).0 == queue.0 + added,
        enqueued_parents(queue, known).1 == queue.1 + added,
        forall|x: Seq<u8>| #[trigger]
            added.contains(x) <==> is_parent(known, x) && !queue.0.contains(x),
        added.no_duplicates(),
    decreases known.len(),
{
    if known.len() == 0 {
        assert(queue.0 + Seq::<Seq<u8>>::empty() =~= queue.0);
        assert(queue.1 + Seq::<Seq<u8>>::empty() =~= queue.1);
        Seq::empty()
    } else {
        let fewer = known.drop_last();
        let parents = known.last().event.parent@;
        let before = lemma_queued_parents(queue, fewer);
        let middle = enqueued_parents(queue, fewer);
        let more = lemma_queued(middle, parents);
        let added = before + more;
        assert((queue.0 + before) + more =~= queue.0 + added);
        assert((queue.1 + before) + more =~= queue.1 + added);
        crate::plan_laws::lemma_add_contains(before, more);
        crate::plan_laws::lemma_add_contains(queue.0, before);
        assert forall|x: Seq<u8>| is_parent(known, x) <==> is_parent(fewer, x) || parents.contains(
            x,
        ) by {
            if is_parent(known, x) {
                let k = choose|k: int|
                    0 <= k < known.len() && (#[trigger] known[k]).event.parent@.contains(x);
                if k < fewer.len() {
                    assert(fewer[k].event.parent@.contains(x));
                }
            }
            if is_parent(fewer, x) {
                let k = choose|k: int|
                    0 <= k < fewer.len() && (#[trigger] fewer[k]).event.parent@.contains(x);
                assert(known[k].event.parent@.contains(x));
            }
            if parents.contains(x) {
                assert(known[known.len() - 1].event.parent@.contains(x));
            }
        }
        assert(added.no_duplicates()) by {
            assert forall|i: int, j: int|
                0 <= i < added.len() && 0 <= j < added.len() && i != j implies added[i]
                != added[j] by {
                if i < before.len() && j >= before.len() {
                    assert(before.contains(before[i]));
                    assert(more.contains(more[j - before.len()]));
                    assert(middle.0.contains(before[i]));
                }
                if j < before.len() && i >= before.len() {
                    assert(before.contains(before[j]));
                    assert(more.contains(more[i - before.len()]));
                    assert(middle.0.contains(before[j]));
                }
                if i >= before.len() && j >= before.len() {
                    assert(more[i - before.len()] != more[j - before.len()]);
                }
            }
        }
        assert forall|x: Seq<u8>| #[trigger] added.contains(x) <==> is_parent(known, x)
            && !queue.0.contains(x) by {
            assert(before.contains(x) <==> is_parent(fewer, x) && !queue.0.contains(x));
            assert(more.contains(x) <==> parents.contains(x) && !middle.0.contains(x));
        }
        added
    }
}

/// The first requests: every parent of a known event and every tip of the head that the
/// walk has not come across, each once, behind what was asked for already, and nothing
/// else. Nothing but the requests changes.
pub proof fn law_what_is_missing_is_asked_for(w: WalkModel) -> (added: Seq<Seq<u8>>)
    ensures
        planned(w).seen == w.seen + added,
        planned(w).frontier == w.frontier + added,
        added.no_duplicates(),
        forall|x: Seq<u8>| #[trigger]
            added.contains(x) <==> !w.seen.contains(x) && (is_parent(w.known, x) || (w.head matches Some(
                head,
            ) && head.contains(x))),
        planned(w).known == w.known,
        planned(w).local == w.local,
        planned(w).fetched_ids == w.fetched_ids,
        planned(w).unresolved == w.unresolved,
{
    let queue = (w.seen, w.frontier);
    let before = lemma_queued_parents(queue, w.known);
    let middle = enqueued_parents(queue, w.known);
    match w.head {
        Some(head) => {
            let more = lemma_queued(middle, head);
            let added = before + more;
            assert((w.seen + before) + more =~= w.seen + added);
            assert((w.frontier + before) + more =~= w.frontier + added);
            crate::plan_laws::lemma_add_contains(before, more);
            crate::plan_laws::lemma_add_contains(w.seen, before);
            assert(added.no_duplicates()) by {
                assert forall|i: int, j: int|
                    0 <= i < added.len() && 0 <= j < added.len() && i != j implies added[i]
                    != added[j] by {
                    if i < before.len() && j >= before.len() {
                        assert(before.contains(before[i]));
                        assert(more.contains(more[j - before.len()]));
                        assert(middle.0.contains(before[i]));
                    }
                    if j < before.len() && i >= before.len() {
                        assert(before.contains(before[j]));
                        assert(more.contains(more[i - before.len()]));
                        assert(middle.0.contains(before[j]));
                    }
                    if i >= before.len() && j >= before.len() {
                        assert(more[i - before.len()] != more[j - before.len()]);
                    }
                }
            }
            added
        },
        None => before,
    }
}

/// An answer to a request: the event is known under the id that was asked for, as a
/// fetched one of which no attestations are known, its unseen parents are asked for
/// behind the others, and what was known stays. A refusal is counted, and changes
/// nothing else. Either way the request is off the list.
pub proof fn law_an_answer_is_taken_in(w: WalkModel, event: Event, complaint: String) -> (added: Seq<
    Seq<u8>,
>)
    requires
        w.frontier.len() > 0,
    ensures
        ({
            let next = answered(w, Ok(event));
            &&& next.known == w.known.push(
                RecModel { key: w.frontier[0], event, attestations: None, fetched: true },
            )
            &&& next.fetched_ids == w.fetched_ids.push(w.frontier[0])
            &&& next.seen == w.seen + added
            &&& next.frontier == w.frontier.skip(1) + added
            &&& added.no_duplicates()
            &&& forall|x: Seq<u8>| #[trigger]
                added.contains(x) <==> event.parent@.contains(x) && !w.seen.contains(x)
            &&& next.unresolved == w.unresolved
            &&& next.local == w.local
        }),
        ({
            let next = answered(w, Err(complaint));
            &&& next.known == w.known
            &&& next.fetched_ids == w.fetched_ids
            &&& next.seen == w.seen
            &&& next.frontier == w.frontier.skip(1)
            &&& next.unresolved == w.unresolved + 1
            &&& next.local == w.local
        }),
{
    assert(w.frontier.drop_first() =~= w.frontier.skip(1));
    lemma_queued((w.seen, w.frontier.drop_first()), event.parent@)
}

/// Giving up counts every request that is left, and changes nothing else.
pub proof fn law_giving_up_counts_what_is_left(w: WalkModel)
    ensures
        cut_short(w).unresolved == w.unresolved + w.frontier.len(),
        cut_short(w).frontier.len() == 0,
        cut_short(w).known == w.known,
        cut_short(w).seen == w.seen,
        cut_short(w).local == w.local,
        cut_short(w).fetched_ids == w.fetched_ids,
{
}

// ---------------------------------------------------------------------------
// The head
// ---------------------------------------------------------------------------

/// Where the application resolved no head and a stored one was read, that one is the
/// walk's head: the walk goes on from its tips, every one of which is known, still to be
/// fetched or could not be fetched, and it is the head that is shown in the end. With a
/// tip that is not known the walk does not stop there, unless as many events are known
/// as are ever fetched.
pub proof fn law_a_stored_head_is_walked_to(
    step: Step,
    w: WalkModel,
    head: Seq<Seq<u8>>,
    tip: Seq<u8>,
)
    requires
        well_formed(w),
        w.head is None,
        head.contains(tip),
        goes_on(step, planned(headed(w, Some(head))), true),
    ensures
        match step {
            Step::Fetch(walk, id) => walk@.head == Some(head) && walk@.seen.contains(tip) && (
            keys(walk@.known).contains(tip) || walk@.frontier.contains(tip) || w.seen.contains(tip)),
            Step::ReadBack(walk, ids) => walk@.head == Some(head) && walk@.seen.contains(tip),
            Step::Done(Phase::Ready(history)) => history.head@ == head,
            Step::Done(Phase::Failed(_)) => w.known.len() == 0 && w.seen.contains(tip),
            _ => false,
        },
        !w.seen.contains(tip) && w.known.len() < 500 ==> (step matches Step::Fetch(walk, id)
            && walk@.frontier.contains(tip)),
{
    let start = headed(w, Some(head));
    let queue = (start.seen, start.frontier);
    assert(queue_ok(queue));
    let added = law_what_is_missing_is_asked_for(start);
    let next = planned(start);
    assert(next.seen.contains(tip)) by {
        if w.seen.contains(tip) {
            let k = choose|k: int| 0 <= k < w.seen.len() && w.seen[k] == tip;
            assert(next.seen[k] == tip);
        } else {
            assert(added.contains(tip));
            let k = choose|k: int| 0 <= k < added.len() && added[k] == tip;
            assert(next.seen[w.seen.len() + k] == tip);
        }
    }
    if !w.seen.contains(tip) {
        assert(added.contains(tip));
        let k = choose|k: int| 0 <= k < added.len() && added[k] == tip;
        assert(next.frontier[w.frontier.len() + k] == tip);
        assert(next.frontier.contains(tip));
    }
    assert(next.head == Some(head));
}

/// A head that the application resolved is walked to and shown, whatever is stored.
pub proof fn law_a_resolved_head_is_walked_to(
    step: Step,
    w: WalkModel,
    head: Seq<Seq<u8>>,
    stored: Option<Seq<Seq<u8>>>,
    tip: Seq<u8>,
)
    requires
        well_formed(w),
        w.head == Some(head),
        head.contains(tip),
        goes_on(step, planned(headed(w, stored)), true) || goes_on(step, planned(w), true),
    ensures
        match step {
            Step::Fetch(walk, id) => walk@.head == Some(head) && walk@.seen.contains(tip),
            Step::ReadBack(walk, ids) => walk@.head == Some(head) && walk@.seen.contains(tip),
            Step::Done(Phase::Ready(history)) => history.head@ == head,
            Step::Done(Phase::Failed(_)) => w.known.len() == 0 && w.seen.contains(tip),
            _ => false,
        },
{
    assert(headed(w, stored) =~= w);
    let added = law_what_is_missing_is_asked_for(w);
    let next = planned(w);
    if w.seen.contains(tip) {
        let k = choose|k: int| 0 <= k < w.seen.len() && w.seen[k] == tip;
        assert(next.seen[k] == tip);
    } else {
        assert(added.contains(tip));
        let k = choose|k: int| 0 <= k < added.len() && added[k] == tip;
        assert(next.seen[w.seen.len() + k] == tip);
        assert(next.frontier[w.frontier.len() + k] == tip);
    }
}

// ---------------------------------------------------------------------------
// What comes next
// ---------------------------------------------------------------------------

/// While an event is missing and fewer than five hundred are known, the one that was
/// asked for first is fetched. With five hundred no more is fetched, and what is left
/// counts as unresolved. A walk that nobody listens to fetches nothing.
pub proof fn law_the_first_missing_event_is_fetched(step: Step, w: WalkModel)
    ensures
        w.frontier.len() > 0 && w.known.len() < 500 && goes_on(step, w, true) ==> (
        step matches Step::Fetch(walk, id) && walk@ == w && id@ == w.frontier[0]),
        w.known.len() >= 500 && goes_on(step, w, true) ==> (match step {
            Step::ReadBack(walk, ids) => walk@.frontier.len() == 0 && walk@.unresolved
                == w.unresolved + w.frontier.len(),
            Step::Done(Phase::Ready(history)) => history.unresolved == w.unresolved
                + w.frontier.len(),
            _ => false,
        }),
        w.frontier.len() > 0 && goes_on(step, w, false) ==> step is Stranded,
        goes_on(step, w, false) ==> step is Stranded || step is ReadBack,
        ends(step, w, false) ==> step is Stranded,
{
}

/// Once nothing is missing, the fetched events are read back, all of them and in the
/// order in which they came; a walk that fetched nothing shows what it has, or says that
/// it has nothing.
pub proof fn law_a_walk_winds_up(step: Step, w: WalkModel)
    requires
        w.frontier.len() == 0,
        goes_on(step, w, true),
    ensures
        w.fetched_ids.len() > 0 ==> (step matches Step::ReadBack(walk, ids) && walk@ == w
            && ids@.len() == w.fetched_ids.len() && forall|i: int|
            0 <= i < ids@.len() ==> (#[trigger] ids@[i])@ == w.fetched_ids[i]),
        w.fetched_ids.len() == 0 && w.known.len() > 0 ==> (step matches Step::Done(
            Phase::Ready(history),
        ) && is_history(history, w)),
        w.fetched_ids.len() == 0 && w.known.len() == 0 ==> step matches Step::Done(
            Phase::Failed(_),
        ),
{
    if let Step::ReadBack(walk, ids) = step {
        assert forall|i: int| 0 <= i < ids@.len() implies (#[trigger] ids@[i])@
            == crate::ids::id_views(ids@)[i] by {}
    }
}

// ---------------------------------------------------------------------------
// Attestations
// ---------------------------------------------------------------------------

/// The last of the events of that id.
pub open spec fn last_read_back(events: Seq<Attested>, id: Seq<u8>, i: int) -> bool {
    &&& 0 <= i < events.len()
    &&& events[i].payload.content_id() == id
    &&& forall|j: int| i < j < events.len() ==> (#[trigger] events[j]).payload.content_id() != id
}

/// An event that was read back gets the attestations that it was read back with, every
/// other one keeps what it had, and nothing else changes.
pub proof fn law_read_back_attestations_are_noted(
    known: Seq<RecModel>,
    events: Seq<Attested>,
    k: int,
)
    requires
        0 <= k < known.len(),
    ensures
        ({
            let rec = counted(known, events)[k];
            &&& counted(known, events).len() == known.len()
            &&& rec.key == known[k].key
            &&& rec.event == known[k].event
            &&& rec.fetched == known[k].fetched
            &&& forall|i: int| #[trigger]
                last_read_back(events, known[k].key, i) ==> rec.attestations == Some(
                    events[i].attestations as nat,
                )
            &&& (forall|i: int|
                0 <= i < events.len() ==> (#[trigger] events[i]).payload.content_id()
                    != known[k].key) ==> rec.attestations == known[k].attestations
        }),
    decreases events.len(),
{
    lemma_counted(known, events);
    if events.len() > 0 {
        let fewer = events.drop_last();
        law_read_back_attestations_are_noted(known, fewer, k);
        lemma_counted(known, fewer);
        let id = known[k].key;
        assert(events[events.len() - 1] == events.last());
        assert forall|i: int| #[trigger] last_read_back(events, id, i) implies counted(
            known,
            events,
        )[k].attestations == Some(events[i].attestations as nat) by {
            if i < fewer.len() {
                assert(events[events.len() - 1].payload.content_id() != id);
                assert(last_read_back(fewer, id, i)) by {
                    assert(fewer[i] == events[i]);
                    assert forall|j: int| i < j < fewer.len() implies (
                    #[trigger] fewer[j]).payload.content_id() != id by {
                        assert(fewer[j] == events[j]);
                    }
                }
            }
        }
        if forall|i: int|
            0 <= i < events.len() ==> (#[trigger] events[i]).payload.content_id() != id {
            assert forall|i: int| 0 <= i < fewer.len() implies (
            #[trigger] fewer[i]).payload.content_id() != id by {
                assert(fewer[i] == events[i]);
            }
        }
    }
}

/// What was read back changes attestations only; where nothing could be read back,
/// nothing changes.
pub proof fn law_reading_back_changes_attestations_only(
    w: WalkModel,
    read_back: Option<Vec<Attested>>,
)
    ensures
        noted(w, read_back).known == match read_back {
            Some(events) => counted(w.known, events@),
            None => w.known,
        },
        noted(w, read_back).seen == w.seen,
        noted(w, read_back).frontier == w.frontier,
        noted(w, read_back).unresolved == w.unresolved,
        noted(w, read_back).local == w.local,
        noted(w, read_back).fetched_ids == w.fetched_ids,
{
}

// ---------------------------------------------------------------------------
// What is shown
// ---------------------------------------------------------------------------

proof fn lemma_fetched_filter(known: Seq<RecModel>)
    ensures
        fetched_count(known) == known.filter(|rec: RecModel| rec.fetched).len(),
    decreases known.len(),
{
    reveal(Seq::filter);
    if known.len() > 0 {
        lemma_fetched_filter(known.drop_last());
    }
}

/// A history shows what the walk has gathered: the head that is known, or else the
/// events that no known event builds on; the values that the application gave; and how
/// many events are known, were stored, were fetched and could not be fetched.
pub proof fn law_a_history_shows_what_was_gathered(history: History, w: WalkModel)
    requires
        is_history(history, w),
    ensures
        w.head matches Some(head) ==> history.head@ == head,
        w.head is None ==> forall|id: Seq<u8>| #[trigger]
            history.head@.contains(id) <==> (exists|k: int|
                0 <= k < w.known.len() && (#[trigger] w.known[k]).key == id) && (forall|k: int|
                0 <= k < w.known.len() ==> !(#[trigger] w.known[k]).event.parent@.contains(id)),
        history.total == w.known.len(),
        history.local == w.local,
        history.fetched == w.known.filter(|rec: RecModel| rec.fetched).len(),
        history.unresolved == w.unresolved,
        history.current_state == w.values,
        history.dag.nodes@.len() + history.dag.omitted == w.known.len(),
{
    lemma_fetched_filter(w.known);
    if w.head is None {
        assert forall|id: Seq<u8>| #[trigger] history.head@.contains(id) <==> (exists|k: int|
            0 <= k < w.known.len() && (#[trigger] w.known[k]).key == id) && (forall|k: int|
            0 <= k < w.known.len() ==> !(#[trigger] w.known[k]).event.parent@.contains(id)) by {
            assert(history.head@.contains(id) <==> keys(w.known).contains(id) && !is_parent(
                w.known,
                id,
            ));
            if keys(w.known).contains(id) {
                let k = choose|k: int| 0 <= k < keys(w.known).len() && keys(w.known)[k] == id;
                assert(w.known[k].key == id);
            }
            if exists|k: int| 0 <= k < w.known.len() && (#[trigger] w.known[k]).key == id {
                let k = choose|k: int| 0 <= k < w.known.len() && (#[trigger] w.known[k]).key == id;
                assert(keys(w.known)[k] == id);
            }
        }
    }
    let inputs = choose|inputs: Seq<DagNodeInput>| #[trigger]
        are_inputs(inputs, w) && is_picture(history.dag, by_id(inputs), history.head@);
    law_base_order(inputs);
    lemma_plan(graph_of(by_id(inputs)));
}

/// `input` says of an event what is known of it.
pub open spec fn tells_of(
    input: DagNodeInput,
    rec: RecModel,
    w: WalkModel,
) -> bool {
    &&& input.id@ == rec.event.content_id()
    &&& input.parent@ == rec.event.parent@
    &&& input.fetched == rec.fetched
    &&& badge_views(input.badges@) == badges_of(operation_views(rec.event.operations@))
    &&& rec.attestations is None <==> input.attestations is None
    &&& rec.attestations matches Some(n) ==> input.attestations.unwrap() == n
    &&& texts(input.wrote_current@) == listed(w.wrote_current@, rec.event.content_id())
}

/// Every event of the picture is a known one, with its id, its parents, what it did, how
/// it was come by, its attestations, and the properties that the application lists for
/// it.
pub proof fn law_a_node_tells_of_a_known_event(history: History, w: WalkModel, a: int)
    requires
        is_history(history, w),
        0 <= a < history.dag.nodes@.len(),
    ensures
        exists|k: int|
            0 <= k < w.known.len() && tells_of(
                history.dag.nodes@[a].input,
                #[trigger] w.known[k],
                w,
            ),
{
    broadcast use vstd::seq_lib::group_to_multiset_ensures;

    let inputs = choose|inputs: Seq<DagNodeInput>| #[trigger]
        are_inputs(inputs, w) && is_picture(history.dag, by_id(inputs), history.head@);
    let nodes = by_id(inputs);
    law_base_order(inputs);
    let p = plan(graph_of(nodes));
    lemma_plan(graph_of(nodes));
    assert(0 <= p.drawn[a] < graph_of(nodes).size());
    let input = history.dag.nodes@[a].input;
    assert(input == nodes[p.drawn[a]]);
    assert(nodes.contains(input));
    assert(inputs.to_multiset().count(input) > 0);
    let k = choose|k: int| 0 <= k < inputs.len() && inputs[k] == input;
    assert(is_input(inputs[k], w.known[k], w.wrote_current@));
    assert(tells_of(input, w.known[k], w));
}

} // verus!
