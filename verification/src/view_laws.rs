//! What the models of values say of the values, field by field and item by item.

use vstd::prelude::*;

use crate::bus::{
    feed_event_views, line_views, query_views, row_views, shows, FeedEntry, FeedEvent, QueryEntry,
    QueryModel, QuerySnapshot,
};
use crate::dag::{by_id, graph_of, placed, DagNodeInput};
use crate::decode::{badge_views, OpBadge};
use crate::event::{event_hash, operation_views, Event, Operations};
use crate::host::{slices, writer_views};
use crate::ids::{
    ascending, first_difference, id_views, lemma_precedes_asymmetric, precedes, Clock, EventId,
};
use crate::inspector::{next_generation, DrawerModel};
use crate::launcher::reported;
use crate::system_panel::{chip_views, Chip};
use crate::text::{is_trimmed, is_trimmed_to, texts, white_space};
use crate::walk::{ends, fails, head_view, Phase, Step, WalkModel};

verus! {

// ---------------------------------------------------------------------------
// Lists
// ---------------------------------------------------------------------------

/// What a list of texts, ids or labels says, it says item by item.
pub proof fn law_lists_are_seen_item_by_item(
    strings: Seq<String>,
    parts: Seq<&str>,
    ids: Seq<EventId>,
    writers: Seq<Option<EventId>>,
    chips: Seq<Chip>,
    lines: Seq<(u64, String)>,
    i: int,
)
    ensures
        texts(strings).len() == strings.len(),
        0 <= i < strings.len() ==> texts(strings)[i] == strings[i]@,
        slices(parts).len() == parts.len(),
        0 <= i < parts.len() ==> slices(parts)[i] == parts[i]@,
        id_views(ids).len() == ids.len(),
        0 <= i < ids.len() ==> id_views(ids)[i] == ids[i].bytes@,
        writer_views(writers).len() == writers.len(),
        0 <= i < writers.len() ==> match writers[i] {
            Some(id) => writer_views(writers)[i] == Some(id.bytes@),
            None => writer_views(writers)[i] is None,
        },
        chip_views(chips).len() == chips.len(),
        0 <= i < chips.len() ==> chip_views(chips)[i] == (chips[i].text@, chips[i].ok),
        line_views(lines).len() == lines.len(),
        0 <= i < lines.len() ==> line_views(lines)[i].0 == lines[i].0 && line_views(lines)[i].1
            == lines[i].1@,
{
}

/// What an event did is seen operation by operation and byte by byte, and its id is the
/// hash of its entity, of all of its operations and of all that it builds on.
pub proof fn law_an_event_is_seen_whole(event: Event, list: Seq<Operations>, i: int, j: int)
    ensures
        operation_views(list).len() == list.len(),
        0 <= i < list.len() ==> operation_views(list)[i].0 == list[i].backend@
            && operation_views(list)[i].1.len() == list[i].diffs@.len(),
        0 <= i < list.len() && 0 <= j < list[i].diffs@.len() ==> operation_views(list)[i].1[j]
            == list[i].diffs@[j]@,
        event.content_id() == event_hash(
            event.entity_id.bytes@,
            operation_views(event.operations@),
            event.parent@,
        ),
{
}

/// What a badge, a feed event and a feed row say is what they hold.
pub proof fn law_rows_are_seen_whole(
    badges: Seq<OpBadge>,
    events: Seq<FeedEvent>,
    rows: Seq<FeedEntry>,
    i: int,
)
    ensures
        badge_views(badges).len() == badges.len(),
        0 <= i < badges.len() ==> {
            let badge = badge_views(badges)[i];
            &&& badge.backend == badges[i].backend@
            &&& badge.summary == badges[i].summary@
            &&& badge.op_count == badges[i].op_count
            &&& badge.bytes == badges[i].bytes
        },
        feed_event_views(events).len() == events.len(),
        0 <= i < events.len() ==> {
            let event = feed_event_views(events)[i];
            &&& event.id == events[i].id.bytes@
            &&& event.parent == events[i].parent@
            &&& event.badges == badge_views(events[i].badges@)
        },
        row_views(rows).len() == rows.len(),
        0 <= i < rows.len() ==> {
            let row = row_views(rows)[i];
            &&& row.seq == rows[i].seq
            &&& row.at_ms == rows[i].at_ms
            &&& row.query_label == rows[i].query_label@
            &&& row.collection == rows[i].collection.name@
            &&& row.kind == rows[i].kind@
            &&& row.count == rows[i].count
            &&& row.head_short == rows[i].head_short@
            &&& row.events == feed_event_views(rows[i].events@)
            &&& match rows[i].entity_id {
                Some(id) => row.entity_id == Some(id.bytes@),
                None => row.entity_id is None,
            }
        },
{
}

/// What the registry knows of a query is what the query holds, and a snapshot shows all
/// of it but the tap.
pub proof fn law_queries_are_shown_whole(
    entries: Seq<QueryEntry>,
    snapshot: QuerySnapshot,
    query: QueryModel,
    i: int,
)
    ensures
        query_views(entries).len() == entries.len(),
        0 <= i < entries.len() ==> {
            let seen = query_views(entries)[i];
            &&& seen.id == entries[i].id@
            &&& seen.label == entries[i].label@
            &&& seen.query_id == entries[i].query_id@
            &&& seen.collection == entries[i].collection.name@
            &&& seen.changes_seen == entries[i].changes_seen
            &&& seen.tapped == entries[i].tapped
        },
        shows(snapshot, query) ==> {
            &&& snapshot.id@ == query.id
            &&& snapshot.label@ == query.label
            &&& snapshot.query_id@ == query.query_id
            &&& snapshot.collection.name@ == query.collection
            &&& snapshot.changes_seen == query.changes_seen
        },
{
}

/// A head, a connection state or nothing at all is passed on as it is.
pub proof fn law_what_may_be_missing_is_passed_on(head: Clock, line: &str)
    ensures
        head_view(Some(head)) == Some(head@),
        head_view(None) is None,
        reported(Some(line)) == Some(line@),
        reported(None) is None,
{
}

/// The history that a list of events describes names every event and all of its
/// parents.
pub proof fn law_a_history_names_every_event(nodes: Seq<DagNodeInput>, i: int)
    ensures
        graph_of(nodes).ids.len() == nodes.len(),
        graph_of(nodes).parents.len() == nodes.len(),
        0 <= i < nodes.len() ==> graph_of(nodes).ids[i] == nodes[i].id.bytes@
            && graph_of(nodes).parents[i] == nodes[i].parent@,
{
}

// ---------------------------------------------------------------------------
// Order
// ---------------------------------------------------------------------------

/// Ids are ordered by their first byte that differs, the smaller one first; what follows
/// it does not matter.
pub proof fn law_the_smaller_byte_comes_first(
    start: Seq<u8>,
    small: u8,
    large: u8,
    a: Seq<u8>,
    b: Seq<u8>,
)
    requires
        small < large,
    ensures
        precedes(start.push(small) + a, start.push(large) + b),
        !precedes(start.push(large) + b, start.push(small) + a),
        !precedes(start, start),
{
    let x = start.push(small) + a;
    let y = start.push(large) + b;
    let k = start.len() as int;
    assert(x[k] == small && y[k] == large);
    assert forall|j: int| 0 <= j < k implies x[j] == y[j] by {
        assert(x[j] == start[j] && y[j] == start[j]);
    }
    assert(first_difference(x, y, k));
    lemma_precedes_asymmetric(x, y);
    lemma_precedes_asymmetric(start, start);
}

/// The ids of a clock are in that order, and none is there twice.
pub proof fn law_a_clock_is_in_order(ids: Seq<Seq<u8>>, i: int, j: int)
    requires
        ascending(ids),
        0 <= i < j < ids.len(),
    ensures
        precedes(ids[i], ids[j]),
        ids[i] != ids[j],
{
    lemma_precedes_asymmetric(ids[i], ids[j]);
}

proof fn lemma_placed_filter(nodes: Seq<DagNodeInput>, x: DagNodeInput, id: Seq<u8>)
    ensures
        placed(nodes, x).filter(|n: DagNodeInput| n.id@ == id) == (if x.id@ == id {
            seq![x]
        } else {
            Seq::<DagNodeInput>::empty()
        }) + nodes.filter(|n: DagNodeInput| n.id@ == id),
    decreases nodes.len(),
{
    let same = |n: DagNodeInput| n.id@ == id;
    if nodes.len() > 0 && precedes(nodes.first().id@, x.id@) {
        let first = nodes.first();
        let rest = nodes.drop_first();
        lemma_placed_filter(rest, x, id);
        lemma_precedes_asymmetric(first.id@, x.id@);
        assert(nodes =~= seq![first] + rest);
        rest.lemma_filter_prepend(first, same);
        placed(rest, x).lemma_filter_prepend(first, same);
        assert(placed(nodes, x).filter(same) =~= (if x.id@ == id {
            seq![x]
        } else {
            Seq::<DagNodeInput>::empty()
        }) + nodes.filter(same));
    } else {
        nodes.lemma_filter_prepend(x, same);
    }
}

/// Events of the same id keep the order in which they were listed.
pub proof fn law_base_order_is_stable(inputs: Seq<DagNodeInput>, id: Seq<u8>)
    ensures
        by_id(inputs).filter(|n: DagNodeInput| n.id@ == id) == inputs.filter(
            |n: DagNodeInput| n.id@ == id,
        ),
    decreases inputs.len(),
{
    let same = |n: DagNodeInput| n.id@ == id;
    if inputs.len() == 0 {
        assert(by_id(inputs) =~= inputs);
    } else {
        let rest = inputs.drop_first();
        law_base_order_is_stable(rest, id);
        lemma_placed_filter(by_id(rest), inputs.first(), id);
        assert(inputs =~= seq![inputs.first()] + rest);
        rest.lemma_filter_prepend(inputs.first(), same);
    }
}

// ---------------------------------------------------------------------------
// Steps
// ---------------------------------------------------------------------------

/// A failure is shown in its own words, and a walk that found nothing says so.
pub proof fn law_a_failure_is_said(step: Step, w: WalkModel, words: Seq<char>)
    ensures
        fails(step, words) <==> (step matches Step::Done(Phase::Failed(text)) && text@ == words),
        ends(step, w, true) && w.known.len() == 0 ==> (step matches Step::Done(
            Phase::Failed(text),
        ) && text@
            == "No events found for this entity (nothing stored locally and no peer had it)."@),
        ends(step, w, true) && w.known.len() > 0 ==> step matches Step::Done(Phase::Ready(_)),
{
}

/// Taking the next generation moves it on by one and changes nothing that is shown.
pub proof fn law_the_next_generation_is_one_further(drawer: DrawerModel)
    requires
        drawer.generation < u64::MAX,
    ensures
        next_generation(drawer).generation == drawer.generation + 1,
        next_generation(drawer).phase == drawer.phase,
        next_generation(drawer).selected == drawer.selected,
        next_generation(drawer).last_seen == drawer.last_seen,
{
    crate::text::lemma_word64_plus((drawer.generation + 1) as nat, 0);
}

// ---------------------------------------------------------------------------
// White space
// ---------------------------------------------------------------------------

/// White space around a text goes, and only that: what is left is the text, from its
/// first character that is none to its last.
pub proof fn law_white_space_around_a_text_goes(
    before: Seq<char>,
    text: Seq<char>,
    after: Seq<char>,
    middle: Seq<char>,
)
    requires
        forall|i: int| 0 <= i < before.len() ==> white_space(#[trigger] before[i]),
        forall|i: int| 0 <= i < after.len() ==> white_space(#[trigger] after[i]),
        text.len() > 0 ==> !white_space(text[0]) && !white_space(text.last()),
        is_trimmed(before + text + after, middle),
    ensures
        middle == text,
{
    let all = before + text + after;
    let from = before.len() as int;
    let to = from + text.len();
    assert(all.subrange(from, to) =~= text);
    assert forall|i: int| 0 <= i < from implies white_space(#[trigger] all[i]) by {
        assert(all[i] == before[i]);
    }
    assert forall|i: int| to <= i < all.len() implies white_space(#[trigger] all[i]) by {
        assert(all[i] == after[i - to]);
    }
    assert(is_trimmed_to(all, text, from, to));
    crate::text::law_trimming_is_unambiguous(all, middle, text);
}

} // verus!
