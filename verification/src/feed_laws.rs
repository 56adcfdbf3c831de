//! What the bus shows of what happens to it, in terms of what happened.

use vstd::prelude::*;

use crate::bus::{
    are_tap_actions, change_row, change_rows, cleared, connected, fed, fresh_bus, initial_count,
    logging, registered, rows_of, seen, silent, switched, unregistered, without, Action, BusModel,
    FeedEventModel, Item, ItemChange, QueryModel, RowModel,
};
use crate::decode::badges_of;
use crate::event::{operation_views, Attested};
use crate::ids::clock_short;
use crate::text::{lemma_word64_plus, word64};

verus! {

// ---------------------------------------------------------------------------
// Rows
// ---------------------------------------------------------------------------

/// `shown` lists the events one by one, in order: the id that the content gives each of
/// them, what it builds on, and what each backend did in it.
pub open spec fn lists_events(shown: Seq<FeedEventModel>, events: Seq<Attested>) -> bool {
    &&& shown.len() == events.len()
    &&& forall|j: int|
        0 <= j < events.len() ==> (#[trigger] shown[j]).id == events[j].payload.content_id()
            && shown[j].parent == events[j].payload.parent@ && shown[j].badges == badges_of(
            operation_views(events[j].payload.operations@),
        )
}

/// `row` is about one item, whose head it names, and lists the events.
pub open spec fn is_about(row: RowModel, item: Item, events: Seq<Attested>) -> bool {
    &&& row.entity_id == Some(item.id@)
    &&& row.head_short == clock_short(item.head@)
    &&& row.count == 1
    &&& lists_events(row.events, events)
}

/// `row` tells of a change that belongs to no initial load.
pub open spec fn tells(row: RowModel, change: ItemChange) -> bool {
    match change {
        ItemChange::Initial { item } => false,
        ItemChange::Add { item, events } => row.kind == seq!['a', 'd', 'd'] && is_about(
            row,
            item,
            events@,
        ),
        ItemChange::Update { item, events } => row.kind == seq!['u', 'p', 'd', 'a', 't', 'e']
            && is_about(row, item, events@),
        ItemChange::Remove { item, events } => row.kind == seq!['r', 'e', 'm', 'o', 'v', 'e']
            && is_about(row, item, events@),
    }
}

/// `row` was made for that query, at that time.
pub open spec fn is_for(row: RowModel, label: Seq<char>, collection: Seq<char>, now: nat) -> bool {
    row.query_label == label && row.collection == collection && row.at_ms == now
}

proof fn lemma_change_row(
    change: ItemChange,
    label: Seq<char>,
    collection: Seq<char>,
    now: nat,
    seq: nat,
)
    requires
        !(change is Initial),
    ensures
        tells(change_row(change, label, collection, now, seq), change),
        is_for(change_row(change, label, collection, now, seq), label, collection, now),
        change_row(change, label, collection, now, seq).seq == word64(seq),
{
    reveal_strlit("add");
    reveal_strlit("update");
    reveal_strlit("remove");
    assert("add"@ =~= seq!['a', 'd', 'd']);
    assert("update"@ =~= seq!['u', 'p', 'd', 'a', 't', 'e']);
    assert("remove"@ =~= seq!['r', 'e', 'm', 'o', 'v', 'e']);
}

proof fn lemma_change_rows_tell(
    changes: Seq<ItemChange>,
    label: Seq<char>,
    collection: Seq<char>,
    now: nat,
    seq: nat,
) -> (places: Seq<int>)
    ensures
        places.len() == change_rows(changes, label, collection, now, seq).len(),
        forall|r: int|
            0 <= r < places.len() ==> 0 <= #[trigger] places[r] < changes.len() && tells(
                change_rows(changes, label, collection, now, seq)[r],
                changes[places[r]],
            ) && is_for(
                change_rows(changes, label, collection, now, seq)[r],
                label,
                collection,
                now,
            ) && change_rows(changes, label, collection, now, seq)[r].seq == word64(
                seq + r as nat,
            ),
        forall|r: int, s: int| 0 <= r < s < places.len() ==> places[r] < places[s],
        forall|i: int|
            0 <= i < changes.len() && !(#[trigger] changes[i] is Initial) ==> places.contains(i),
        initial_count(changes) == changes.filter(|change: ItemChange| change is Initial).len(),
    decreases changes.len(),
{
    reveal(Seq::filter);
    if changes.len() == 0 {
        Seq::empty()
    } else {
        let fewer = changes.drop_last();
        let last = changes.last();
        let before = lemma_change_rows_tell(fewer, label, collection, now, seq);
        let shorter = change_rows(fewer, label, collection, now, seq);
        let rows = change_rows(changes, label, collection, now, seq);
        if last is Initial {
            assert forall|i: int|
                0 <= i < changes.len() && !(#[trigger] changes[i] is Initial) implies before.contains(
                i,
            ) by {
                assert(fewer[i] == changes[i]);
            }
            assert forall|r: int| 0 <= r < before.len() implies 0 <= #[trigger] before[r]
                < changes.len() && tells(rows[r], changes[before[r]]) && is_for(
                rows[r],
                label,
                collection,
                now,
            ) && rows[r].seq == word64(seq + r as nat) by {
                assert(fewer[before[r]] == changes[before[r]]);
            }
            before
        } else {
            let places = before.push(changes.len() - 1);
            lemma_change_row(last, label, collection, now, seq + shorter.len());
            assert forall|r: int| 0 <= r < places.len() implies 0 <= #[trigger] places[r]
                < changes.len() && tells(rows[r], changes[places[r]]) && is_for(
                rows[r],
                label,
                collection,
                now,
            ) && rows[r].seq == word64(seq + r as nat) by {
                if r < before.len() {
                    assert(before[r] == places[r]);
                    assert(rows[r] == shorter[r]);
                    assert(fewer[before[r]] == changes[places[r]]);
                }
            }
            assert forall|i: int|
                0 <= i < changes.len() && !(#[trigger] changes[i] is Initial) implies places.contains(
                i,
            ) by {
                if i < fewer.len() {
                    assert(fewer[i] == changes[i]);
                    let r = choose|r: int| 0 <= r < before.len() && before[r] == i;
                    assert(places[r] == i);
                } else {
                    assert(places[before.len() as int] == i);
                }
            }
            places
        }
    }
}

/// The feed tells of every change: each one that belongs to no initial load has a row of
/// its own, in order, that says what kind of change it is, which item it is about, where
/// its head is, and lists every one of its events with its id, what it builds on and
/// what was done in it. An initial load has one last row together, that says how many
/// items there are. The rows bear the query's name and the time, and rising numbers.
pub proof fn law_rows_tell_of_the_changes(
    changes: Seq<ItemChange>,
    label: Seq<char>,
    collection: Seq<char>,
    now: nat,
    seq: nat,
) -> (places: Seq<int>)
    ensures
        ({
            let rows = rows_of(changes, label, collection, now, seq);
            let initial = changes.filter(|change: ItemChange| change is Initial).len();
            &&& rows.len() == places.len() + if initial > 0 {
                1nat
            } else {
                0nat
            }
            &&& forall|r: int|
                0 <= r < places.len() ==> 0 <= #[trigger] places[r] < changes.len() && tells(
                    rows[r],
                    changes[places[r]],
                )
            &&& forall|r: int, s: int| 0 <= r < s < places.len() ==> places[r] < places[s]
            &&& forall|i: int|
                0 <= i < changes.len() && !(#[trigger] changes[i] is Initial) ==> places.contains(i)
            &&& forall|r: int|
                0 <= r < rows.len() ==> is_for(#[trigger] rows[r], label, collection, now)
                    && rows[r].seq == word64(seq + r as nat)
            &&& initial > 0 ==> {
                let row = rows.last();
                &&& row.kind == seq!['i', 'n', 'i', 't', 'i', 'a', 'l']
                &&& row.count == initial
                &&& row.entity_id is None
                &&& row.events.len() == 0
                &&& row.head_short.len() == 0
            }
        }),
{
    reveal_strlit("initial");
    assert("initial"@ =~= seq!['i', 'n', 'i', 't', 'i', 'a', 'l']);
    let places = lemma_change_rows_tell(changes, label, collection, now, seq);
    let some = change_rows(changes, label, collection, now, seq);
    let rows = rows_of(changes, label, collection, now, seq);
    assert forall|r: int| 0 <= r < rows.len() implies is_for(
        #[trigger] rows[r],
        label,
        collection,
        now,
    ) && rows[r].seq == word64(seq + r as nat) by {
        if r < some.len() {
            assert(rows[r] == some[r]);
            assert(0 <= places[r] < changes.len());
        }
    }
    assert forall|r: int| 0 <= r < places.len() implies 0 <= #[trigger] places[r] < changes.len()
        && tells(rows[r], changes[places[r]]) by {
        assert(rows[r] == some[r]);
    }
    places
}

/// New rows come to the front of the feed, the last of a changeset first, and of all of
/// them the first hundred stay. Nothing else on the bus changes.
pub proof fn law_the_feed_takes_the_rows(
    bus: BusModel,
    label: Seq<char>,
    collection: Seq<char>,
    changes: Seq<ItemChange>,
    now: nat,
)
    requires
        bus.feed.len() <= 100,
    ensures
        ({
            let rows = rows_of(changes, label, collection, now, bus.next_seq);
            let after = fed(bus, label, collection, changes, now);
            let all = rows.len() + bus.feed.len();
            &&& after.feed.len() == if all <= 100 {
                all as int
            } else {
                100
            }
            &&& forall|i: int|
                0 <= i < after.feed.len() ==> #[trigger] after.feed[i] == if i < rows.len() {
                    rows[rows.len() - 1 - i]
                } else {
                    bus.feed[i - rows.len()]
                }
            &&& after.next_seq == if rows.len() == 0 {
                bus.next_seq
            } else {
                word64(bus.next_seq + rows.len())
            }
            &&& after.entries == bus.entries
            &&& after.entries_rev == bus.entries_rev
            &&& after.next_id == bus.next_id
            &&& after.tapping == bus.tapping
            &&& after.conn_log == bus.conn_log
            &&& after.conn_state == bus.conn_state
            &&& after.conn_live == bus.conn_live
        }),
{
}

// ---------------------------------------------------------------------------
// Queries
// ---------------------------------------------------------------------------

/// Everything on the bus but the queries is as it was.
pub open spec fn only_queries_changed(before: BusModel, after: BusModel) -> bool {
    &&& after.feed == before.feed
    &&& after.next_seq == before.next_seq
    &&& after.conn_log == before.conn_log
    &&& after.conn_state == before.conn_state
    &&& after.conn_live == before.conn_live
}

/// A registered query comes last, with the name, the id and the collection that it was
/// given, nothing seen, and tapped if the others are. The others stay as they are, and
/// the revision goes up by one.
pub proof fn law_a_registered_query_comes_last(
    bus: BusModel,
    label: Seq<char>,
    query_id: Seq<char>,
    collection: Seq<char>,
)
    ensures
        ({
            let after = registered(bus, label, query_id, collection);
            let query = after.entries.last();
            &&& after.entries.len() == bus.entries.len() + 1
            &&& forall|i: int|
                0 <= i < bus.entries.len() ==> #[trigger] after.entries[i] == bus.entries[i]
            &&& query.id == bus.next_id
            &&& query.label == label
            &&& query.query_id == query_id
            &&& query.collection == collection
            &&& query.changes_seen == 0
            &&& query.tapped == bus.tapping
            &&& after.tapping == bus.tapping
            &&& bus.entries_rev < u64::MAX ==> after.entries_rev == bus.entries_rev + 1
            &&& only_queries_changed(bus, after)
        }),
{
    lemma_word64_plus((bus.entries_rev + 1) as nat, 0);
}

/// Removing a query leaves the others as they are and in order, and the revision goes up
/// by one, whether or not there was such a query.
pub proof fn law_a_removed_query_is_gone(bus: BusModel, id: nat)
    ensures
        ({
            let after = unregistered(bus, id);
            &&& after.entries == bus.entries.filter(|query: QueryModel| query.id != id)
            &&& after.tapping == bus.tapping
            &&& after.next_id == bus.next_id
            &&& bus.entries_rev < u64::MAX ==> after.entries_rev == bus.entries_rev + 1
            &&& only_queries_changed(bus, after)
        }),
{
    lemma_without_filter(bus.entries, id);
    lemma_word64_plus((bus.entries_rev + 1) as nat, 0);
}

proof fn lemma_without_filter(entries: Seq<QueryModel>, id: nat)
    ensures
        without(entries, id) == entries.filter(|query: QueryModel| query.id != id),
    decreases entries.len(),
{
    let keep = |query: QueryModel| query.id != id;
    if entries.len() == 0 {
        reveal(Seq::filter);
        assert(entries.filter(keep) =~= Seq::<QueryModel>::empty());
    } else {
        let rest = entries.drop_first();
        lemma_without_filter(rest, id);
        assert(entries =~= seq![entries.first()] + rest);
        rest.lemma_filter_prepend(entries.first(), keep);
        assert(seq![entries.first()] + without(rest, id) =~= without(rest, id).insert(
            0,
            entries.first(),
        ));
        assert(rest.insert(0, entries.first()) =~= entries);
    }
}

/// The switch taps every query or none, and changes nothing else of them; what has to be
/// done is one tap in or out for each, in order, and nothing where the switch stands
/// that way.
pub proof fn law_the_switch_taps_every_query(bus: BusModel, on: bool, actions: Seq<Action>)
    requires
        are_tap_actions(actions, bus, on),
        forall|i: int| 0 <= i < bus.entries.len() ==> (#[trigger] bus.entries[i]).tapped == bus.tapping,
    ensures
        ({
            let after = switched(bus, on);
            &&& after.tapping == on
            &&& after.entries.len() == bus.entries.len()
            &&& forall|i: int|
                0 <= i < bus.entries.len() ==> {
                    let query = #[trigger] after.entries[i];
                    &&& query.tapped == on
                    &&& query.id == bus.entries[i].id
                    &&& query.label == bus.entries[i].label
                    &&& query.query_id == bus.entries[i].query_id
                    &&& query.collection == bus.entries[i].collection
                    &&& query.changes_seen == bus.entries[i].changes_seen
                }
            &&& after.entries_rev == bus.entries_rev
            &&& after.next_id == bus.next_id
            &&& only_queries_changed(bus, after)
        }),
        bus.tapping == on ==> actions.len() == 0,
        bus.tapping != on ==> actions.len() == bus.entries.len() && forall|i: int|
            0 <= i < actions.len() ==> match #[trigger] actions[i] {
                Action::InstallTap(id) => on && id@ == bus.entries[i].id,
                Action::DropTap(id) => !on && id@ == bus.entries[i].id,
                _ => false,
            },
{
}

/// A changeset counts for the query whose tap saw it, and for no other.
pub proof fn law_a_changeset_counts_for_its_query(bus: BusModel, id: nat, i: int)
    requires
        0 <= i < bus.entries.len(),
    ensures
        ({
            let after = seen(bus, id);
            let query = after.entries[i];
            &&& after.entries.len() == bus.entries.len()
            &&& bus.entries[i].id != id ==> query == bus.entries[i]
            &&& bus.entries[i].id == id && bus.entries[i].changes_seen < u64::MAX
                ==> query.changes_seen == bus.entries[i].changes_seen + 1
            &&& query.id == bus.entries[i].id
            &&& query.label == bus.entries[i].label
            &&& query.query_id == bus.entries[i].query_id
            &&& query.collection == bus.entries[i].collection
            &&& query.tapped == bus.entries[i].tapped
            &&& after.tapping == bus.tapping
            &&& after.entries_rev == bus.entries_rev
            &&& after.next_id == bus.next_id
            &&& only_queries_changed(bus, after)
        }),
{
    lemma_word64_plus((bus.entries[i].changes_seen + 1) as nat, 0);
}

// ---------------------------------------------------------------------------
// Connection
// ---------------------------------------------------------------------------

/// Everything on the bus but the connection is as it was.
pub open spec fn only_connection_changed(before: BusModel, after: BusModel) -> bool {
    &&& after.entries == before.entries
    &&& after.entries_rev == before.entries_rev
    &&& after.next_id == before.next_id
    &&& after.tapping == before.tapping
    &&& after.feed == before.feed
    &&& after.next_seq == before.next_seq
}

/// A reported state is the latest one, and stands first in the log, with its time where
/// it is new; the older lines follow as they were, and of all of them the first
/// twenty-four stay.
pub proof fn law_a_reported_state_is_logged(bus: BusModel, line: Seq<char>, now: nat)
    requires
        bus.conn_log.len() <= 24,
    ensures
        ({
            let after = connected(bus, line, now);
            let known = bus.conn_log.len() > 0 && bus.conn_log[0].1 == line;
            &&& after.conn_state == line
            &&& after.conn_live == bus.conn_live
            &&& known ==> after.conn_log == bus.conn_log
            &&& !known ==> {
                &&& after.conn_log.len() == if bus.conn_log.len() < 24 {
                    bus.conn_log.len() + 1
                } else {
                    24
                }
                &&& after.conn_log[0] == (now, line)
                &&& forall|i: int|
                    1 <= i < after.conn_log.len() ==> #[trigger] after.conn_log[i]
                        == bus.conn_log[i - 1]
            }
            &&& only_connection_changed(bus, after)
        }),
{
}

/// The log starts with the state that is then reported, unless it runs already or
/// nothing is reported; it stops without losing a line; and clearing empties the feed
/// and the log and nothing else.
pub proof fn law_the_log_starts_and_stops(bus: BusModel, current: Option<Seq<char>>, now: nat)
    ensures
        current is None || bus.conn_live ==> logging(bus, current, now) == bus,
        current is Some && !bus.conn_live ==> {
            let after = logging(bus, current, now);
            &&& after.conn_live
            &&& after.conn_state == current.unwrap()
            &&& after.conn_log == connected(bus, current.unwrap(), now).conn_log
            &&& only_connection_changed(bus, after)
        },
        !silent(bus).conn_live,
        silent(bus).conn_log == bus.conn_log,
        silent(bus).conn_state == bus.conn_state,
        only_connection_changed(bus, silent(bus)),
        cleared(bus).feed.len() == 0,
        cleared(bus).conn_log.len() == 0,
        cleared(bus).entries == bus.entries,
        cleared(bus).entries_rev == bus.entries_rev,
        cleared(bus).tapping == bus.tapping,
        cleared(bus).conn_state == bus.conn_state,
        cleared(bus).conn_live == bus.conn_live,
        cleared(bus).next_id == bus.next_id,
        cleared(bus).next_seq == bus.next_seq,
        fresh_bus().entries.len() == 0,
        fresh_bus().feed.len() == 0,
        fresh_bus().conn_log.len() == 0,
        fresh_bus().conn_state.len() == 0,
        !fresh_bus().tapping,
        !fresh_bus().conn_live,
{
}

} // verus!
