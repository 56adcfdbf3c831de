//! What holds of every walk.

use vstd::prelude::*;

use crate::dag::{by_id, graph_of, is_picture, DagNodeInput};
use crate::dag_laws::law_base_order;
use crate::event::{Attested, Event};
use crate::host::{is_listed, listed_once, Resolved};
use crate::ids::EventId;
use crate::plan::{absent, dangling, lemma_index_of, Graph};
use crate::text::{lemma_word_step, texts};
use crate::walk::{
    answered, are_inputs, begun, counted, cut_short, enqueued, enqueued_parents, fetched_count, gathered,
    headed, is_head, is_history, is_parent, keys, listed, local_rec, noted, planned, put, stocked, well_formed,
    History, RecModel, WalkModel, FETCH_CAP,
};

verus! {

/// What was seen and what is to be fetched, as [`enqueued`] keeps them.
pub open spec fn queue_ok(queue: (Seq<Seq<u8>>, Seq<Seq<u8>>)) -> bool {
    &&& queue.0.no_duplicates()
    &&& queue.1.no_duplicates()
    &&& forall|id: Seq<u8>| #[trigger] queue.1.contains(id) ==> queue.0.contains(id)
}

/// `to` was reached from `from` by queueing ids that were not seen before.
pub open spec fn queue_grew(
    from: (Seq<Seq<u8>>, Seq<Seq<u8>>),
    to: (Seq<Seq<u8>>, Seq<Seq<u8>>),
) -> bool {
    &&& forall|id: Seq<u8>| #[trigger] from.0.contains(id) ==> to.0.contains(id)
    &&& forall|id: Seq<u8>| #[trigger]
        to.1.contains(id) <==> from.1.contains(id) || (to.0.contains(id) && !from.0.contains(id))
    &&& to.0.len() - from.0.len() == to.1.len() - from.1.len()
}

/// Queueing ids keeps the queue in order, and every one of them has then been seen.
pub proof fn lemma_enqueued(queue: (Seq<Seq<u8>>, Seq<Seq<u8>>), ids: Seq<Seq<u8>>)
    requires
        queue_ok(queue),
    ensures
        queue_ok(enqueued(queue, ids)),
        queue_grew(queue, enqueued(queue, ids)),
        forall|id: Seq<u8>| #[trigger] ids.contains(id) ==> enqueued(queue, ids).0.contains(id),
    decreases ids.len(),
{
    if ids.len() > 0 {
        let before = enqueued(queue, ids.drop_last());
        let after = enqueued(queue, ids);
        let last = ids.last();
        lemma_enqueued(queue, ids.drop_last());
        assert forall|id: Seq<u8>| #[trigger] ids.contains(id) implies after.0.contains(id) by {
            let k = choose|k: int| 0 <= k < ids.len() && ids[k] == id;
            if k < ids.len() - 1 {
                assert(ids.drop_last()[k] == id);
                assert(ids.drop_last().contains(id));
            }
            lemma_push_has(before.0, last);
        }
        if !before.0.contains(last) {
            lemma_push_has(before.0, last);
            lemma_push_has(before.1, last);
            assert(!before.1.contains(last));
        }
    }
}

/// What a list holds once one item was added.
pub proof fn lemma_push_has<A>(list: Seq<A>, item: A)
    ensures
        forall|x: A| #[trigger] list.push(item).contains(x) <==> list.contains(x) || x == item,
        list.no_duplicates() && !list.contains(item) ==> list.push(item).no_duplicates(),
{
    assert forall|x: A| #[trigger] list.push(item).contains(x) <==> list.contains(x) || x
        == item by {
        if list.contains(x) {
            let k = choose|k: int| 0 <= k < list.len() && list[k] == x;
            assert(list.push(item)[k] == x);
        }
        assert(list.push(item)[list.len() as int] == item);
    }
}

/// As [`lemma_enqueued`], for the parents of every known event.
pub proof fn lemma_enqueued_parents(queue: (Seq<Seq<u8>>, Seq<Seq<u8>>), known: Seq<RecModel>)
    requires
        queue_ok(queue),
    ensures
        queue_ok(enqueued_parents(queue, known)),
        queue_grew(queue, enqueued_parents(queue, known)),
        forall|id: Seq<u8>| #[trigger]
            is_parent(known, id) ==> enqueued_parents(queue, known).0.contains(id),
    decreases known.len(),
{
    if known.len() > 0 {
        let before = enqueued_parents(queue, known.drop_last());
        lemma_enqueued_parents(queue, known.drop_last());
        lemma_enqueued(before, known.last().event.parent@);
        assert forall|id: Seq<u8>| #[trigger] is_parent(known, id) implies enqueued_parents(
            queue,
            known,
        ).0.contains(id) by {
            let k = choose|k: int|
                0 <= k < known.len() && (#[trigger] known[k]).event.parent@.contains(id);
            if k < known.len() - 1 {
                assert(known.drop_last()[k].event.parent@.contains(id));
                assert(is_parent(known.drop_last(), id));
                assert(before.0.contains(id));
            }
        }
    }
}

/// Entering an event adds its id, unless it is there.
pub proof fn lemma_put(known: Seq<RecModel>, rec: RecModel)
    ensures
        keys(put(known, rec)) == if keys(known).contains(rec.key) {
            keys(known)
        } else {
            keys(known).push(rec.key)
        },
{
    assert(keys(put(known, rec)) =~= if keys(known).contains(rec.key) {
        keys(known)
    } else {
        keys(known).push(rec.key)
    });
}

/// The stored events are listed once each, and none of them is a fetched one.
pub proof fn lemma_gathered(events: Seq<Attested>)
    ensures
        keys(gathered(events)).no_duplicates(),
        forall|i: int|
            0 <= i < gathered(events).len() ==> !(#[trigger] gathered(events)[i]).fetched,
        gathered(events).len() <= events.len(),
    decreases events.len(),
{
    if events.len() > 0 {
        let before = gathered(events.drop_last());
        lemma_gathered(events.drop_last());
        lemma_put(before, local_rec(events.last()));
        lemma_push_has(keys(before), local_rec(events.last()).key);
    }
}

/// Counting attestations changes nothing else of the known events.
pub proof fn lemma_counted(known: Seq<RecModel>, events: Seq<Attested>)
    ensures
        counted(known, events).len() == known.len(),
        keys(counted(known, events)) == keys(known),
        forall|i: int|
            0 <= i < known.len() ==> {
                let rec = #[trigger] counted(known, events)[i];
                rec.fetched == known[i].fetched && rec.event == known[i].event && rec.key
                    == known[i].key
            },
    decreases events.len(),
{
    if events.len() > 0 {
        lemma_counted(known, events.drop_last());
    }
    assert(keys(counted(known, events)) =~= keys(known));
}

/// Queueing what is missing keeps a walk in order.
pub proof fn lemma_planned(w: WalkModel)
    requires
        well_formed(w),
    ensures
        well_formed(planned(w)),
{
    let queue = (w.seen, w.frontier);
    assert(queue_ok(queue));
    let parents = enqueued_parents(queue, w.known);
    lemma_enqueued_parents(queue, w.known);
    match w.head {
        Some(head) => {
            lemma_enqueued(parents, head);
        },
        None => {},
    }
}

/// An answer keeps a walk in order.
pub proof fn lemma_answered(w: WalkModel, reply: Result<Event, String>)
    requires
        well_formed(w),
    ensures
        well_formed(answered(w, reply)),
{
    if w.frontier.len() > 0 {
        let id = w.frontier.first();
        let rest = w.frontier.drop_first();
        let after = answered(w, reply);
        assert(w.frontier[0] == id);
        assert(w.frontier.contains(id));
        assert forall|x: Seq<u8>| #[trigger] rest.contains(x) implies w.frontier.contains(x) && x
            != id by {
            let k = choose|k: int| 0 <= k < rest.len() && rest[k] == x;
            assert(w.frontier[k + 1] == x);
        }
        assert(rest.no_duplicates());
        match reply {
            Ok(event) => {
                lemma_enqueued((w.seen, rest), event.parent@);
                assert(keys(after.known) =~= keys(w.known).push(id));
                lemma_push_has(keys(w.known), id);
                assert(after.fetched_ids =~= keys(after.known).skip(w.local as int));
            },
            Err(_) => {},
        }
    }
}

/// Everything that happens to a walk keeps it in order.
pub proof fn law_walks_stay_well_formed(
    resolved: Resolved,
    w: WalkModel,
    events: Seq<Attested>,
    head: Option<Seq<Seq<u8>>>,
    reply: Result<Event, String>,
    read_back: Option<Vec<Attested>>,
)
    requires
        well_formed(w),
    ensures
        well_formed(begun(resolved)),
        well_formed(stocked(w, events)),
        well_formed(headed(w, head)),
        well_formed(planned(w)),
        well_formed(answered(w, reply)),
        well_formed(cut_short(w)),
        well_formed(noted(w, read_back)),
{
    let start = begun(resolved);
    assert(start.fetched_ids =~= keys(start.known).skip(0));
    lemma_gathered(events);
    let full = stocked(w, events);
    assert(full.fetched_ids =~= keys(full.known).skip(full.local as int));
    lemma_planned(w);
    lemma_answered(w, reply);
    if let Some(list) = read_back {
        lemma_counted(w.known, list@);
    }
}

// ---------------------------------------------------------------------------
// Nothing is asked for twice
// ---------------------------------------------------------------------------

/// The walk has come across `id` and will not ask for it.
pub open spec fn settled(w: WalkModel, id: Seq<u8>) -> bool {
    w.seen.contains(id) && !w.frontier.contains(id)
}

/// Once the request for an event is answered, whatever the answer, the walk never
/// asks for that event again.
pub proof fn law_no_event_is_asked_for_twice(
    w: WalkModel,
    reply: Result<Event, String>,
    read_back: Option<Vec<Attested>>,
    id: Seq<u8>,
)
    requires
        well_formed(w),
        w.frontier.len() > 0,
    ensures
        settled(answered(w, reply), w.frontier.first()),
        settled(w, id) ==> settled(answered(w, reply), id),
        settled(w, id) ==> settled(planned(w), id),
        settled(w, id) ==> settled(cut_short(w), id),
        settled(w, id) ==> settled(noted(w, read_back), id),
{
    let first = w.frontier.first();
    let rest = w.frontier.drop_first();
    assert(w.frontier[0] == first);
    assert(w.frontier.contains(first));
    assert forall|x: Seq<u8>| #[trigger] rest.contains(x) implies w.frontier.contains(x) && x
        != first by {
        let k = choose|k: int| 0 <= k < rest.len() && rest[k] == x;
        assert(w.frontier[k + 1] == x);
    }
    assert(queue_ok((w.seen, rest)));
    if let Ok(event) = reply {
        lemma_enqueued((w.seen, rest), event.parent@);
    }
    let parents = enqueued_parents((w.seen, w.frontier), w.known);
    lemma_enqueued_parents((w.seen, w.frontier), w.known);
    if let Some(head) = w.head {
        lemma_enqueued(parents, head);
    }
}

// ---------------------------------------------------------------------------
// The walk ends
// ---------------------------------------------------------------------------

/// Every answer brings the walk closer to its end: one more event is known, of
/// which there can be no more than the cap, or one request less is left.
pub proof fn law_the_walk_ends(w: WalkModel, reply: Result<Event, String>)
    requires
        w.frontier.len() > 0,
        w.known.len() < FETCH_CAP,
    ensures
        ({
            let after = answered(w, reply);
            ||| after.known.len() == w.known.len() + 1
            ||| after.known.len() == w.known.len() && after.frontier.len() < w.frontier.len()
        }),
        answered(w, reply).known.len() <= FETCH_CAP,
{
}

// ---------------------------------------------------------------------------
// The counts
// ---------------------------------------------------------------------------

/// Every event shown was either stored or fetched.
pub proof fn law_the_counts_add_up(history: History, w: WalkModel)
    requires
        well_formed(w),
        is_history(history, w),
    ensures
        history.total == history.local + history.fetched,
{
    lemma_fetched_count(w.known, w.local);
}

/// The fetched events are those behind the stored ones.
pub proof fn lemma_fetched_count(known: Seq<RecModel>, local: nat)
    requires
        local <= known.len(),
        forall|i: int| 0 <= i < known.len() ==> (#[trigger] known[i]).fetched == (i >= local),
    ensures
        fetched_count(known) == known.len() - local,
    decreases known.len(),
{
    if known.len() > 0 {
        let before = known.drop_last();
        if local < known.len() {
            lemma_fetched_count(before, local);
        } else {
            lemma_none_fetched(known);
        }
    }
}

proof fn lemma_none_fetched(known: Seq<RecModel>)
    requires
        forall|i: int| 0 <= i < known.len() ==> !(#[trigger] known[i]).fetched,
    ensures
        fetched_count(known) == 0,
    decreases known.len(),
{
    if known.len() > 0 {
        lemma_none_fetched(known.drop_last());
    }
}

// ---------------------------------------------------------------------------
// Nothing is missing
// ---------------------------------------------------------------------------

/// The walk has come across every parent of a known event, and all of the head.
pub open spec fn explored(w: WalkModel) -> bool {
    &&& forall|id: Seq<u8>| #[trigger] is_parent(w.known, id) ==> w.seen.contains(id)
    &&& match w.head {
        Some(head) => forall|id: Seq<u8>| #[trigger] head.contains(id) ==> w.seen.contains(id),
        None => true,
    }
}

/// From its first request on, a walk looks for every parent of what it knows.
pub proof fn law_every_parent_is_looked_for(
    w: WalkModel,
    reply: Result<Event, String>,
    read_back: Option<Vec<Attested>>,
)
    requires
        well_formed(w),
    ensures
        explored(planned(w)),
        explored(w) ==> explored(answered(w, reply)),
        explored(w) ==> explored(cut_short(w)),
        explored(w) ==> explored(noted(w, read_back)),
{
    let queue = (w.seen, w.frontier);
    let parents = enqueued_parents(queue, w.known);
    lemma_enqueued_parents(queue, w.known);
    if let Some(head) = w.head {
        lemma_enqueued(parents, head);
    }
    if explored(w) {
        if w.frontier.len() > 0 {
            let rest = w.frontier.drop_first();
            assert forall|x: Seq<u8>| #[trigger] rest.contains(x) implies w.frontier.contains(x) by {
                let k = choose|k: int| 0 <= k < rest.len() && rest[k] == x;
                assert(w.frontier[k + 1] == x);
            }
            assert(queue_ok((w.seen, rest)));
            if let Ok(event) = reply {
                let after = answered(w, reply);
                lemma_enqueued((w.seen, rest), event.parent@);
                assert forall|id: Seq<u8>| #[trigger]
                    is_parent(after.known, id) implies after.seen.contains(id) by {
                    let k = choose|k: int|
                        0 <= k < after.known.len() && (
                        #[trigger] after.known[k]).event.parent@.contains(id);
                    if k < w.known.len() {
                        assert(w.known[k].event.parent@.contains(id));
                        assert(is_parent(w.known, id));
                    }
                }
            }
        }
        if let Some(list) = read_back {
            lemma_counted(w.known, list@);
            let after = noted(w, read_back);
            assert forall|id: Seq<u8>| #[trigger] is_parent(after.known, id) implies w.seen.contains(
                id,
            ) by {
                let k = choose|k: int|
                    0 <= k < after.known.len() && (#[trigger] after.known[k]).event.parent@.contains(
                        id,
                    );
                assert(w.known[k].event.parent@.contains(id));
                assert(is_parent(w.known, id));
            }
        }
    }
}

/// A history with nothing unresolved is complete: every parent of a known event is
/// known, and so is all of the head.
pub proof fn law_nothing_is_missing(w: WalkModel, id: Seq<u8>)
    requires
        well_formed(w),
        explored(w),
        w.frontier.len() == 0,
        w.unresolved == 0,
    ensures
        is_parent(w.known, id) ==> keys(w.known).contains(id),
        match w.head {
            Some(head) => head.contains(id) ==> keys(w.known).contains(id),
            None => true,
        },
{
    if w.seen.contains(id) {
        lemma_all_known(keys(w.known), w.seen, id);
    }
}

/// Two lists of the same length without repetitions, one within the other, hold
/// the same.
proof fn lemma_all_known(part: Seq<Seq<u8>>, whole: Seq<Seq<u8>>, id: Seq<u8>)
    requires
        part.no_duplicates(),
        whole.no_duplicates(),
        part.len() == whole.len(),
        forall|x: Seq<u8>| #[trigger] part.contains(x) ==> whole.contains(x),
        whole.contains(id),
    ensures
        part.contains(id),
{
    part.unique_seq_to_set();
    whole.unique_seq_to_set();
    assert(part.to_set().subset_of(whole.to_set()));
    vstd::set_lib::lemma_subset_equality(part.to_set(), whole.to_set());
    assert(part.to_set().contains(id));
}

/// Every event was found under the id that its content gives it.
pub open spec fn honest(known: Seq<RecModel>) -> bool {
    forall|i: int|
        0 <= i < known.len() ==> (#[trigger] known[i]).key == known[i].event.content_id()
}

/// A history with nothing unresolved has no gaps in its picture either, provided
/// that the host gave out the events that it was asked for.
pub proof fn law_a_complete_history_has_no_gaps(history: History, w: WalkModel)
    requires
        well_formed(w),
        explored(w),
        w.frontier.len() == 0,
        w.unresolved == 0,
        honest(w.known),
        is_history(history, w),
    ensures
        history.dag.dangling == 0,
{
    broadcast use vstd::seq_lib::group_to_multiset_ensures;

    let inputs = choose|inputs: Seq<DagNodeInput>| #[trigger]
        are_inputs(inputs, w) && is_picture(history.dag, by_id(inputs), history.head@);
    let nodes = by_id(inputs);
    let g = graph_of(nodes);
    law_base_order(inputs);
    assert forall|i: int, id: Seq<u8>|
        0 <= i < g.size() && #[trigger] g.parents[i].contains(id) implies g.ids.contains(id) by {
        assert(nodes.contains(nodes[i]));
        assert(inputs.to_multiset().count(nodes[i]) > 0);
        let j = choose|j: int| 0 <= j < inputs.len() && inputs[j] == nodes[i];
        assert(w.known[j].event.parent@.contains(id));
        assert(is_parent(w.known, id));
        law_nothing_is_missing(w, id);
        let k = choose|k: int| 0 <= k < w.known.len() && keys(w.known)[k] == id;
        assert(w.known[k].key == w.known[k].event.content_id());
        assert(inputs[k].id@ == id);
        assert(inputs.contains(inputs[k]));
        assert(nodes.to_multiset().count(inputs[k]) > 0);
        let m = choose|m: int| 0 <= m < nodes.len() && nodes[m] == inputs[k];
        assert(g.ids[m] == id);
    }
    lemma_no_gaps(g, g.size());
    lemma_word_step(0);
}

proof fn lemma_no_gaps(g: Graph, n: nat)
    requires
        n <= g.size(),
        g.parents.len() == g.ids.len(),
        forall|i: int, id: Seq<u8>|
            0 <= i < g.size() && #[trigger] g.parents[i].contains(id) ==> g.ids.contains(id),
    ensures
        dangling(g, n) == 0,
    decreases n,
{
    if n > 0 {
        lemma_no_gaps(g, (n - 1) as nat);
        lemma_none_absent(g, g.parents[n - 1]);
    }
}

proof fn lemma_none_absent(g: Graph, parents: Seq<Seq<u8>>)
    requires
        forall|id: Seq<u8>| #[trigger] parents.contains(id) ==> g.ids.contains(id),
    ensures
        absent(g, parents) == 0,
    decreases parents.len(),
{
    if parents.len() > 0 {
        let before = parents.drop_last();
        assert forall|id: Seq<u8>| #[trigger] before.contains(id) implies g.ids.contains(id) by {
            let k = choose|k: int| 0 <= k < before.len() && before[k] == id;
            assert(parents[k] == id);
            assert(parents.contains(id));
        }
        lemma_none_absent(g, before);
        assert(parents[parents.len() - 1] == parents.last());
        assert(parents.contains(parents.last()));
        lemma_index_of(g.ids, parents.last());
    }
}

// ---------------------------------------------------------------------------
// The head
// ---------------------------------------------------------------------------

/// Every known event comes after its parents.
pub open spec fn ranked(known: Seq<RecModel>, rank: spec_fn(Seq<u8>) -> nat) -> bool {
    forall|i: int, parent: Seq<u8>|
        0 <= i < known.len() && #[trigger] known[i].event.parent@.contains(parent) ==> rank(parent)
            < rank(known[i].key)
}

/// A history without cycles has a head to show, even where none is known.
pub proof fn law_a_history_without_cycles_has_a_tip(
    head: Seq<Seq<u8>>,
    w: WalkModel,
    rank: spec_fn(Seq<u8>) -> nat,
)
    requires
        w.head is None,
        w.known.len() > 0,
        ranked(w.known, rank),
        is_head(head, w),
    ensures
        head.len() > 0,
{
    let top = lemma_top(w.known, rank, w.known.len());
    let id = w.known[top].key;
    if is_parent(w.known, id) {
        let i = choose|i: int|
            0 <= i < w.known.len() && (#[trigger] w.known[i]).event.parent@.contains(id);
        assert(rank(id) < rank(w.known[i].key));
    }
    assert(keys(w.known)[top] == id);
    assert(keys(w.known).contains(id));
    assert(head.contains(id));
}

/// One of the first `n` events has the highest rank among them.
proof fn lemma_top(known: Seq<RecModel>, rank: spec_fn(Seq<u8>) -> nat, n: nat) -> (top: int)
    requires
        0 < n <= known.len(),
    ensures
        0 <= top < n,
        forall|i: int| 0 <= i < n ==> rank((#[trigger] known[i]).key) <= rank(known[top].key),
    decreases n,
{
    if n == 1 {
        0
    } else {
        let before = lemma_top(known, rank, (n - 1) as nat);
        if rank(known[before].key) < rank(known[n - 1].key) {
            n - 1
        } else {
            before
        }
    }
}

// ---------------------------------------------------------------------------
// What the application says
// ---------------------------------------------------------------------------

/// An event is shown with the properties that the application lists for it, each
/// event being listed once; one that it does not list, with none.
pub proof fn law_listed_properties_are_shown(map: Seq<(EventId, Vec<String>)>, id: Seq<u8>)
    requires
        listed_once(map),
    ensures
        forall|i: int|
            0 <= i < map.len() && (#[trigger] map[i]).0@ == id ==> listed(map, id) == texts(
                map[i].1@,
            ),
        !is_listed(map, id) ==> listed(map, id).len() == 0,
    decreases map.len(),
{
    if map.len() > 0 {
        let rest = map.drop_first();
        assert forall|i: int, j: int| 0 <= i < j < rest.len() implies (#[trigger] rest[i]).0@ != (
        #[trigger] rest[j]).0@ by {
            assert(rest[i] == map[i + 1] && rest[j] == map[j + 1]);
        }
        law_listed_properties_are_shown(rest, id);
        assert forall|i: int| 0 <= i < map.len() && (#[trigger] map[i]).0@ == id implies listed(
            map,
            id,
        ) == texts(map[i].1@) by {
            if i > 0 {
                assert(rest[i - 1] == map[i]);
                assert(map[0].0@ != map[i].0@);
            }
        }
        if !is_listed(map, id) {
            assert(map[0].0@ != id);
            if is_listed(rest, id) {
                let k = choose|k: int| 0 <= k < rest.len() && (#[trigger] rest[k]).0@ == id;
                assert(map[k + 1].0@ == id);
            }
        }
    }
}

/// What the application says of an entity's values has no part in its history: an
/// entity of which it says nothing gets the same one.
pub proof fn law_values_have_no_part_in_the_history(
    w: WalkModel,
    values: Vec<(String, String)>,
    events: Seq<Attested>,
    head: Option<Seq<Seq<u8>>>,
    reply: Result<Event, String>,
    read_back: Option<Vec<Attested>>,
)
    ensures
        ({
            let other = WalkModel { values, ..w };
            &&& stocked(other, events) == (WalkModel { values, ..stocked(w, events) })
            &&& headed(other, head) == (WalkModel { values, ..headed(w, head) })
            &&& planned(other) == (WalkModel { values, ..planned(w) })
            &&& answered(other, reply) == (WalkModel { values, ..answered(w, reply) })
            &&& cut_short(other) == (WalkModel { values, ..cut_short(w) })
            &&& noted(other, read_back) == (WalkModel { values, ..noted(w, read_back) })
        }),
{
}

} // verus!
