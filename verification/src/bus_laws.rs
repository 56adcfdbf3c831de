//! What holds of the bus whatever is done with it.

use vstd::prelude::*;

use crate::bus::{
    are_tap_actions, change_rows, cleared, connected, consistent, fed, fresh_bus, initial_count,
    lemma_no_repeats, lemma_without, logging, registered, rows_of, seen, silent, switched,
    unregistered, without, Action, BusModel, ItemChange, QueryModel, RowModel, FEED_CAP,
};
use crate::text::{lemma_word64_plus, word64};

verus! {

/// The ids of the registered queries were all given out before, and each once.
pub open spec fn ids_given_out(bus: BusModel) -> bool {
    &&& forall|i: int| 0 <= i < bus.entries.len() ==> (#[trigger] bus.entries[i]).id < bus.next_id
    &&& forall|i: int, j: int|
        0 <= i < j < bus.entries.len() ==> (#[trigger] bus.entries[i]).id != (
        #[trigger] bus.entries[j]).id
}

/// The rows were numbered in the order in which they came, the newest first.
pub open spec fn newest_first(bus: BusModel) -> bool {
    &&& forall|i: int| 0 <= i < bus.feed.len() ==> (#[trigger] bus.feed[i]).seq < bus.next_seq
    &&& forall|i: int, j: int|
        0 <= i < j < bus.feed.len() ==> (#[trigger] bus.feed[i]).seq > (#[trigger] bus.feed[j]).seq
}

/// A new bus is consistent, and every operation keeps it so.
pub proof fn law_the_bus_stays_consistent(
    bus: BusModel,
    label: Seq<char>,
    query_id: Seq<char>,
    collection: Seq<char>,
    id: nat,
    on: bool,
    changes: Seq<ItemChange>,
    line: Seq<char>,
    now: nat,
)
    requires
        consistent(bus),
    ensures
        consistent(fresh_bus()),
        consistent(registered(bus, label, query_id, collection)),
        consistent(unregistered(bus, id)),
        consistent(switched(bus, on)),
        consistent(fed(bus, label, collection, changes, now)),
        consistent(seen(bus, id)),
        consistent(connected(bus, line, now)),
        consistent(logging(bus, Some(line), now)),
        consistent(logging(bus, None, now)),
        consistent(silent(bus)),
        consistent(cleared(bus)),
{
    let fewer = without(bus.entries, id);
    assert forall|i: int| 0 <= i < fewer.len() implies (#[trigger] fewer[i]).tapped == bus.tapping by {
        lemma_without(bus.entries, id);
        let k = choose|k: int| 0 <= k < bus.entries.len() && bus.entries[k] == fewer[i];
        assert(bus.entries[k].tapped == bus.tapping);
    }
    if bus.conn_log.len() == 0 || bus.conn_log[0].1 != line {
        lemma_no_repeats(bus.conn_log, line, now);
    }
}

/// Removing an id that nothing has changes nothing.
proof fn lemma_without_none(entries: Seq<QueryModel>, id: nat)
    requires
        forall|i: int| 0 <= i < entries.len() ==> (#[trigger] entries[i]).id != id,
    ensures
        without(entries, id) == entries,
    decreases entries.len(),
{
    if entries.len() > 0 {
        let rest = entries.drop_first();
        assert forall|i: int| 0 <= i < rest.len() implies (#[trigger] rest[i]).id != id by {
            assert(rest[i] == entries[i + 1]);
        }
        lemma_without_none(rest, id);
        assert(without(entries, id) =~= entries);
    }
}

/// Removal goes through the list from front to back.
proof fn lemma_without_push(entries: Seq<QueryModel>, last: QueryModel, id: nat)
    ensures
        without(entries.push(last), id) == if last.id == id {
            without(entries, id)
        } else {
            without(entries, id).push(last)
        },
    decreases entries.len(),
{
    let longer = entries.push(last);
    if entries.len() > 0 {
        lemma_without_push(entries.drop_first(), last, id);
        assert(longer.drop_first() =~= entries.drop_first().push(last));
        assert(longer.first() == entries.first());
        if entries.first().id != id && last.id != id {
            assert(without(longer, id) =~= without(entries, id).push(last));
        }
    } else {
        assert(longer.drop_first() =~= Seq::<QueryModel>::empty());
        assert(without(longer.drop_first(), id) == Seq::<QueryModel>::empty());
        assert(longer.first() == last);
        if last.id != id {
            assert(without(longer, id) =~= without(entries, id).push(last));
        }
    }
}

/// A registration whose id no other query has is undone by removing it: the
/// registry holds what it held before.
pub proof fn law_unregister_undoes_register(
    bus: BusModel,
    label: Seq<char>,
    query_id: Seq<char>,
    collection: Seq<char>,
)
    requires
        ids_given_out(bus),
    ensures
        unregistered(registered(bus, label, query_id, collection), bus.next_id).entries
            == bus.entries,
{
    let after = registered(bus, label, query_id, collection);
    lemma_without_push(bus.entries, after.entries.last(), bus.next_id);
    assert(after.entries =~= bus.entries.push(after.entries.last()));
    lemma_without_none(bus.entries, bus.next_id);
}

/// After its removal a query is gone, and every other one is still there.
pub proof fn law_unregister_removes_one_query(bus: BusModel, id: nat, query: QueryModel)
    ensures
        unregistered(bus, id).entries.contains(query) <==> bus.entries.contains(query) && query.id
            != id,
    decreases bus.entries.len(),
{
    let entries = bus.entries;
    let fewer = without(entries, id);
    lemma_without(entries, id);
    if entries.len() > 0 {
        let rest = BusModel { entries: entries.drop_first(), ..bus };
        law_unregister_removes_one_query(rest, id, query);
        if entries.contains(query) && query.id != id {
            let k = choose|k: int| 0 <= k < entries.len() && entries[k] == query;
            if k > 0 {
                assert(rest.entries[k - 1] == query);
                let less = without(rest.entries, id);
                let m = choose|m: int| 0 <= m < less.len() && less[m] == query;
                if entries.first().id == id {
                    assert(fewer[m] == query);
                } else {
                    assert(fewer[m + 1] == query);
                }
            } else {
                assert(fewer[0] == query);
            }
        }
    }
}

/// No two registered queries share an id: a registration gets one that was never
/// given out, until the counter is used up.
pub proof fn law_registrations_are_distinct(
    bus: BusModel,
    label: Seq<char>,
    query_id: Seq<char>,
    collection: Seq<char>,
    id: nat,
    on: bool,
)
    requires
        ids_given_out(bus),
    ensures
        ids_given_out(fresh_bus()),
        bus.next_id < u64::MAX ==> ids_given_out(registered(bus, label, query_id, collection)),
        ids_given_out(unregistered(bus, id)),
        ids_given_out(switched(bus, on)),
{
    lemma_without_distinct(bus, id);
    let after = switched(bus, on);
    assert forall|i: int| 0 <= i < after.entries.len() implies (#[trigger] after.entries[i]).id
        < after.next_id by {
        assert(after.entries[i].id == bus.entries[i].id);
    }
    assert forall|i: int, j: int| 0 <= i < j < after.entries.len() implies (
    #[trigger] after.entries[i]).id != (#[trigger] after.entries[j]).id by {
        assert(after.entries[i].id == bus.entries[i].id);
        assert(after.entries[j].id == bus.entries[j].id);
    }
}

proof fn lemma_without_distinct(bus: BusModel, id: nat)
    requires
        ids_given_out(bus),
    ensures
        ids_given_out(unregistered(bus, id)),
    decreases bus.entries.len(),
{
    let entries = bus.entries;
    if entries.len() > 0 {
        let rest = BusModel { entries: entries.drop_first(), ..bus };
        assert forall|i: int| 0 <= i < rest.entries.len() implies (#[trigger] rest.entries[i]).id
            < rest.next_id by {
            assert(rest.entries[i] == entries[i + 1]);
        }
        assert forall|i: int, j: int| 0 <= i < j < rest.entries.len() implies (
        #[trigger] rest.entries[i]).id != (#[trigger] rest.entries[j]).id by {
            assert(rest.entries[i] == entries[i + 1]);
            assert(rest.entries[j] == entries[j + 1]);
        }
        lemma_without_distinct(rest, id);
        let less = without(rest.entries, id);
        let fewer = without(entries, id);
        let small = unregistered(rest, id);
        lemma_without(rest.entries, id);
        if entries.first().id == id {
            assert(fewer == less);
            assert(unregistered(bus, id).entries == small.entries);
        } else {
            assert forall|i: int| 0 <= i < fewer.len() implies (#[trigger] fewer[i]).id
                < bus.next_id by {
                if i > 0 {
                    assert(fewer[i] == small.entries[i - 1]);
                } else {
                    assert(fewer[0] == entries[0]);
                }
            }
            assert forall|i: int, j: int| 0 <= i < j < fewer.len() implies (#[trigger] fewer[i]).id
                != (#[trigger] fewer[j]).id by {
                assert(fewer[j] == small.entries[j - 1]);
                if i > 0 {
                    assert(fewer[i] == small.entries[i - 1]);
                } else {
                    let k = choose|k: int|
                        0 <= k < rest.entries.len() && rest.entries[k] == less[j - 1];
                    assert(entries[k + 1] == fewer[j]);
                    assert(fewer[0] == entries[0]);
                }
            }
        }
    }
}

/// Setting the tap switch a second time changes nothing and leaves nothing to do.
pub proof fn law_setting_the_switch_twice_is_harmless(bus: BusModel, on: bool, actions: Seq<Action>)
    requires
        are_tap_actions(actions, switched(bus, on), on),
    ensures
        switched(switched(bus, on), on) == switched(bus, on),
        actions == Seq::<Action>::empty(),
{
    assert(actions =~= Seq::<Action>::empty());
}

/// Switching the taps off and on again gives back the registry as it was.
pub proof fn law_switching_off_and_on_again(bus: BusModel)
    requires
        consistent(bus),
        bus.tapping,
    ensures
        switched(switched(bus, false), true) == bus,
{
    let after = switched(switched(bus, false), true);
    assert forall|i: int| 0 <= i < bus.entries.len() implies after.entries[i] == bus.entries[i] by {
        assert(bus.entries[i].tapped);
    }
    assert(after.entries =~= bus.entries);
}

/// How many changes the rows stand for.
pub open spec fn covered_changes(rows: Seq<RowModel>) -> nat
    decreases rows.len(),
{
    if rows.len() == 0 {
        0
    } else {
        covered_changes(rows.drop_last()) + rows.last().count
    }
}

/// The rows of a changeset stand for each of its changes once: none is lost, and
/// only an initial load is coalesced.
pub proof fn law_every_change_is_reported(
    changes: Seq<ItemChange>,
    label: Seq<char>,
    collection: Seq<char>,
    now: nat,
    seq: nat,
)
    ensures
        covered_changes(rows_of(changes, label, collection, now, seq)) == changes.len(),
        forall|i: int|
            0 <= i < rows_of(changes, label, collection, now, seq).len() ==> ((
            #[trigger] rows_of(changes, label, collection, now, seq)[i]).entity_id is None <==> i
                == change_rows(changes, label, collection, now, seq).len()),
{
    lemma_change_rows(changes, label, collection, now, seq);
    let rows = change_rows(changes, label, collection, now, seq);
    let all = rows_of(changes, label, collection, now, seq);
    if initial_count(changes) > 0 {
        assert(all.drop_last() =~= rows);
    }
}

proof fn lemma_change_rows(
    changes: Seq<ItemChange>,
    label: Seq<char>,
    collection: Seq<char>,
    now: nat,
    seq: nat,
)
    ensures
        change_rows(changes, label, collection, now, seq).len() + initial_count(changes)
            == changes.len(),
        covered_changes(change_rows(changes, label, collection, now, seq)) == change_rows(
            changes,
            label,
            collection,
            now,
            seq,
        ).len(),
        forall|i: int|
            0 <= i < change_rows(changes, label, collection, now, seq).len() ==> {
                let row = #[trigger] change_rows(changes, label, collection, now, seq)[i];
                row.seq == word64(seq + i as nat) && row.entity_id is Some
            },
    decreases changes.len(),
{
    if changes.len() > 0 {
        lemma_change_rows(changes.drop_last(), label, collection, now, seq);
        let before = change_rows(changes.drop_last(), label, collection, now, seq);
        let rows = change_rows(changes, label, collection, now, seq);
        if !(changes.last() is Initial) {
            assert(rows.drop_last() =~= before);
        }
    }
}

/// The feed lists the newest row first: the rows are numbered in the order in
/// which they come, until the counter is used up.
pub proof fn law_the_feed_is_newest_first(
    bus: BusModel,
    label: Seq<char>,
    collection: Seq<char>,
    changes: Seq<ItemChange>,
    now: nat,
)
    requires
        newest_first(bus),
        bus.next_seq + changes.len() <= u64::MAX,
    ensures
        newest_first(fresh_bus()),
        newest_first(fed(bus, label, collection, changes, now)),
        newest_first(cleared(bus)),
{
    let rows = rows_of(changes, label, collection, now, bus.next_seq);
    let after = fed(bus, label, collection, changes, now);
    lemma_change_rows(changes, label, collection, now, bus.next_seq);
    assert forall|i: int| 0 <= i < rows.len() implies (#[trigger] rows[i]).seq == bus.next_seq
        + i by {
        lemma_word64_plus((bus.next_seq + i) as nat, 0);
    }
    lemma_word64_plus((bus.next_seq + rows.len()) as nat, 0);
    if rows.len() > 0 {
        let n = rows.len() as int;
        assert forall|i: int| 0 <= i < after.feed.len() implies #[trigger] after.feed[i] == if i
            < n {
            rows[n - 1 - i]
        } else {
            bus.feed[i - n]
        } by {}
    }
}

/// The newest changes are what the feed shows: older rows leave only when the feed
/// is full, and in the order in which they came.
pub proof fn law_old_rows_leave_last(
    bus: BusModel,
    label: Seq<char>,
    collection: Seq<char>,
    changes: Seq<ItemChange>,
    now: nat,
)
    ensures
        ({
            let rows = rows_of(changes, label, collection, now, bus.next_seq);
            let feed = fed(bus, label, collection, changes, now).feed;
            &&& rows.len() + bus.feed.len() <= FEED_CAP ==> feed == rows.reverse() + bus.feed
            &&& forall|i: int|
                0 <= i < rows.len() && i < feed.len() ==> #[trigger] feed[i] == rows[rows.len() - 1
                    - i]
            &&& forall|i: int|
                0 <= i && rows.len() + i < feed.len() ==> #[trigger] bus.feed[i] == feed[rows.len()
                    + i]
        }),
{
    let rows = rows_of(changes, label, collection, now, bus.next_seq);
    let feed = fed(bus, label, collection, changes, now).feed;
    assert(rows.len() == 0 ==> rows.reverse() + bus.feed =~= bus.feed);
}

/// The id of a registration never comes again, whatever becomes of the query, until
/// the counter is used up: a registration gets the id that is next and moves on to a
/// higher one, and nothing else moves it.
pub proof fn law_ids_only_grow(
    bus: BusModel,
    label: Seq<char>,
    query_id: Seq<char>,
    collection: Seq<char>,
    id: nat,
    on: bool,
    changes: Seq<ItemChange>,
    current: Option<Seq<char>>,
    line: Seq<char>,
    now: nat,
)
    requires
        bus.next_id < u64::MAX,
    ensures
        registered(bus, label, query_id, collection).entries.last().id == bus.next_id,
        registered(bus, label, query_id, collection).next_id == bus.next_id + 1,
        unregistered(bus, id).next_id == bus.next_id,
        switched(bus, on).next_id == bus.next_id,
        fed(bus, label, collection, changes, now).next_id == bus.next_id,
        seen(bus, id).next_id == bus.next_id,
        connected(bus, line, now).next_id == bus.next_id,
        logging(bus, current, now).next_id == bus.next_id,
        silent(bus).next_id == bus.next_id,
        cleared(bus).next_id == bus.next_id,
{
    lemma_word64_plus((bus.next_id + 1) as nat, 0);
}

/// The number of a row never comes again, though the row be dropped or cleared, until
/// the counter is used up: the rows of a changeset get the numbers that are next, and
/// nothing leads back below them.
pub proof fn law_row_numbers_only_grow(
    bus: BusModel,
    label: Seq<char>,
    query_id: Seq<char>,
    collection: Seq<char>,
    id: nat,
    on: bool,
    changes: Seq<ItemChange>,
    current: Option<Seq<char>>,
    line: Seq<char>,
    now: nat,
)
    requires
        bus.next_seq + changes.len() <= u64::MAX,
    ensures
        ({
            let rows = rows_of(changes, label, collection, now, bus.next_seq);
            &&& rows.len() <= changes.len()
            &&& forall|i: int|
                0 <= i < rows.len() ==> (#[trigger] rows[i]).seq == bus.next_seq + i
            &&& fed(bus, label, collection, changes, now).next_seq == bus.next_seq + rows.len()
        }),
        registered(bus, label, query_id, collection).next_seq == bus.next_seq,
        unregistered(bus, id).next_seq == bus.next_seq,
        switched(bus, on).next_seq == bus.next_seq,
        seen(bus, id).next_seq == bus.next_seq,
        connected(bus, line, now).next_seq == bus.next_seq,
        logging(bus, current, now).next_seq == bus.next_seq,
        silent(bus).next_seq == bus.next_seq,
        cleared(bus).next_seq == bus.next_seq,
{
    let rows = rows_of(changes, label, collection, now, bus.next_seq);
    lemma_change_rows(changes, label, collection, now, bus.next_seq);
    assert forall|i: int| 0 <= i < rows.len() implies (#[trigger] rows[i]).seq == bus.next_seq
        + i by {
        lemma_word64_plus((bus.next_seq + i) as nat, 0);
    }
    lemma_word64_plus((bus.next_seq + rows.len()) as nat, 0);
}

/// Starting the connection log a second time changes nothing.
pub proof fn law_starting_the_log_twice_is_harmless(
    bus: BusModel,
    first: Seq<char>,
    second: Option<Seq<char>>,
    then: nat,
    now: nat,
)
    ensures
        logging(logging(bus, Some(first), then), second, now) == logging(bus, Some(first), then),
{
}

/// Reporting a state twice in a row logs it once.
pub proof fn law_repeated_states_are_collapsed(
    bus: BusModel,
    line: Seq<char>,
    then: nat,
    now: nat,
)
    ensures
        connected(connected(bus, line, then), line, now) == connected(bus, line, then),
{
    let once = connected(bus, line, then);
    assert(once.conn_log.len() > 0 && once.conn_log[0].1 == line);
}

// ---------------------------------------------------------------------------
// Whatever happens
// ---------------------------------------------------------------------------

/// One thing that happens to a bus.
pub enum Happening {
    Register { label: Seq<char>, query_id: Seq<char>, collection: Seq<char> },
    Unregister { id: nat },
    Switch { on: bool },
    /// A tap saw a changeset of the query.
    See { id: nat },
    /// The changeset goes into the feed.
    Feed { label: Seq<char>, collection: Seq<char>, changes: Seq<ItemChange>, now: nat },
    Connect { line: Seq<char>, now: nat },
    StartLog { current: Option<Seq<char>>, now: nat },
    StopLog,
    Clear,
}

/// The bus after one thing more has happened.
pub open spec fn moved_on(bus: BusModel, happening: Happening) -> BusModel {
    match happening {
        Happening::Register { label, query_id, collection } => registered(
            bus,
            label,
            query_id,
            collection,
        ),
        Happening::Unregister { id } => unregistered(bus, id),
        Happening::Switch { on } => switched(bus, on),
        Happening::See { id } => seen(bus, id),
        Happening::Feed { label, collection, changes, now } => fed(
            bus,
            label,
            collection,
            changes,
            now,
        ),
        Happening::Connect { line, now } => connected(bus, line, now),
        Happening::StartLog { current, now } => logging(bus, current, now),
        Happening::StopLog => silent(bus),
        Happening::Clear => cleared(bus),
    }
}

/// The bus to which all of this has happened since it was new, in this order.
pub open spec fn after(happenings: Seq<Happening>) -> BusModel
    decreases happenings.len(),
{
    if happenings.len() == 0 {
        fresh_bus()
    } else {
        moved_on(after(happenings.drop_last()), happenings.last())
    }
}

/// The bus before the happening at `i`.
pub open spec fn before(happenings: Seq<Happening>, i: int) -> BusModel {
    after(happenings.take(i))
}

/// The rows that the happening at `i` puts into the feed.
pub open spec fn rows_put(happenings: Seq<Happening>, i: int) -> Seq<RowModel> {
    match happenings[i] {
        Happening::Feed { label, collection, changes, now } => rows_of(
            changes,
            label,
            collection,
            now,
            before(happenings, i).next_seq,
        ),
        _ => Seq::empty(),
    }
}

/// How many registrations there were.
pub open spec fn registrations(happenings: Seq<Happening>) -> nat
    decreases happenings.len(),
{
    if happenings.len() == 0 {
        0
    } else {
        registrations(happenings.drop_last()) + if happenings.last() is Register {
            1nat
        } else {
            0nat
        }
    }
}

/// How many changes were reported.
pub open spec fn changes_fed(happenings: Seq<Happening>) -> nat
    decreases happenings.len(),
{
    if happenings.len() == 0 {
        0
    } else {
        changes_fed(happenings.drop_last()) + match happenings.last() {
            Happening::Feed { changes, .. } => changes.len(),
            _ => 0nat,
        }
    }
}

/// Less happened before than in all.
proof fn lemma_counts_grow(happenings: Seq<Happening>, i: int)
    requires
        0 <= i <= happenings.len(),
    ensures
        registrations(happenings.take(i)) <= registrations(happenings),
        changes_fed(happenings.take(i)) <= changes_fed(happenings),
    decreases happenings.len(),
{
    if i == happenings.len() {
        assert(happenings.take(i) =~= happenings);
    } else {
        lemma_counts_grow(happenings.drop_last(), i);
        assert(happenings.drop_last().take(i) =~= happenings.take(i));
    }
}

/// Whatever happens to a bus, in whatever order: a query is tapped exactly while the
/// tap switch is on, the feed and the log keep to their bounds, and the log starts
/// with the latest state and never lists a state twice in a row.
pub proof fn law_every_bus_is_consistent(happenings: Seq<Happening>)
    ensures
        consistent(after(happenings)),
    decreases happenings.len(),
{
    if happenings.len() > 0 {
        let bus = after(happenings.drop_last());
        law_every_bus_is_consistent(happenings.drop_last());
        let none = Seq::<char>::empty();
        match happenings.last() {
            Happening::Register { label, query_id, collection } => {
                law_the_bus_stays_consistent(
                    bus,
                    label,
                    query_id,
                    collection,
                    0,
                    true,
                    Seq::empty(),
                    none,
                    0,
                );
            },
            Happening::Unregister { id } => {
                law_the_bus_stays_consistent(bus, none, none, none, id, true, Seq::empty(), none, 0);
            },
            Happening::Switch { on } => {
                law_the_bus_stays_consistent(bus, none, none, none, 0, on, Seq::empty(), none, 0);
            },
            Happening::See { id } => {
                law_the_bus_stays_consistent(bus, none, none, none, id, true, Seq::empty(), none, 0);
            },
            Happening::Feed { label, collection, changes, now } => {
                law_the_bus_stays_consistent(
                    bus,
                    label,
                    none,
                    collection,
                    0,
                    true,
                    changes,
                    none,
                    now,
                );
            },
            Happening::Connect { line, now } => {
                law_the_bus_stays_consistent(
                    bus,
                    none,
                    none,
                    none,
                    0,
                    true,
                    Seq::empty(),
                    line,
                    now,
                );
            },
            Happening::StartLog { current, now } => {
                let line = match current {
                    Some(line) => line,
                    None => none,
                };
                law_the_bus_stays_consistent(
                    bus,
                    none,
                    none,
                    none,
                    0,
                    true,
                    Seq::empty(),
                    line,
                    now,
                );
            },
            Happening::StopLog => {},
            Happening::Clear => {},
        }
    }
}

/// The registered ids are distinct, and there is one id more to come for each
/// registration that was.
proof fn lemma_ids_after(happenings: Seq<Happening>)
    requires
        registrations(happenings) < u64::MAX,
    ensures
        after(happenings).next_id == registrations(happenings) + 1,
        ids_given_out(after(happenings)),
    decreases happenings.len(),
{
    if happenings.len() > 0 {
        let bus = after(happenings.drop_last());
        lemma_ids_after(happenings.drop_last());
        let none = Seq::<char>::empty();
        match happenings.last() {
            Happening::Register { label, query_id, collection } => {
                law_registrations_are_distinct(bus, label, query_id, collection, 0, true);
                lemma_word64_plus((bus.next_id + 1) as nat, 0);
            },
            Happening::Unregister { id } => {
                law_registrations_are_distinct(bus, none, none, none, id, true);
            },
            Happening::Switch { on } => {
                law_registrations_are_distinct(bus, none, none, none, 0, on);
            },
            Happening::See { id } => {
                let now = seen(bus, id);
                assert forall|i: int| 0 <= i < now.entries.len() implies (
                #[trigger] now.entries[i]).id < now.next_id by {
                    assert(now.entries[i].id == bus.entries[i].id);
                }
                assert forall|i: int, j: int| 0 <= i < j < now.entries.len() implies (
                #[trigger] now.entries[i]).id != (#[trigger] now.entries[j]).id by {
                    assert(now.entries[i].id == bus.entries[i].id);
                    assert(now.entries[j].id == bus.entries[j].id);
                }
            },
            _ => {},
        }
    }
}

/// An id is given out once: whatever happens to a bus, no two registrations get the
/// same one, also where the query of the first was removed long ago, and no two
/// queries in the registry share one. That holds until the counter is used up.
pub proof fn law_an_id_is_given_out_once(happenings: Seq<Happening>, i: int, j: int)
    requires
        registrations(happenings) < u64::MAX,
        0 <= i < j < happenings.len(),
        happenings[i] is Register,
        happenings[j] is Register,
    ensures
        before(happenings, i + 1).entries.last().id == before(happenings, i).next_id,
        before(happenings, j + 1).entries.last().id == before(happenings, j).next_id,
        before(happenings, i).next_id < before(happenings, j).next_id,
        ids_given_out(after(happenings)),
{
    lemma_counts_grow(happenings, i);
    lemma_counts_grow(happenings, j);
    lemma_counts_grow(happenings.take(j), i + 1);
    assert(happenings.take(j).take(i + 1) =~= happenings.take(i + 1));
    assert(happenings.take(i + 1).drop_last() =~= happenings.take(i));
    assert(happenings.take(j + 1).drop_last() =~= happenings.take(j));
    lemma_ids_after(happenings.take(i));
    lemma_ids_after(happenings.take(j));
    lemma_ids_after(happenings);
}

/// Whatever happened to a bus before, removing a query right after it was registered
/// leaves the registry as it was.
pub proof fn law_unregister_undoes_any_register(
    happenings: Seq<Happening>,
    label: Seq<char>,
    query_id: Seq<char>,
    collection: Seq<char>,
)
    requires
        registrations(happenings) < u64::MAX,
    ensures
        ({
            let bus = after(happenings);
            unregistered(registered(bus, label, query_id, collection), bus.next_id).entries
                == bus.entries
        }),
{
    lemma_ids_after(happenings);
    law_unregister_undoes_register(after(happenings), label, query_id, collection);
}

/// The feed is newest first, and there was at most one row for each change.
proof fn lemma_feed_after(happenings: Seq<Happening>)
    requires
        changes_fed(happenings) <= u64::MAX,
    ensures
        after(happenings).next_seq <= changes_fed(happenings),
        newest_first(after(happenings)),
    decreases happenings.len(),
{
    if happenings.len() > 0 {
        let bus = after(happenings.drop_last());
        lemma_feed_after(happenings.drop_last());
        let none = Seq::<char>::empty();
        match happenings.last() {
            Happening::Feed { label, collection, changes, now } => {
                law_the_feed_is_newest_first(bus, label, collection, changes, now);
                law_row_numbers_only_grow(
                    bus,
                    label,
                    none,
                    collection,
                    0,
                    true,
                    changes,
                    None,
                    none,
                    now,
                );
            },
            _ => {},
        }
    }
}

/// Every row before `i` got a number below the next one.
proof fn lemma_numbers_below(happenings: Seq<Happening>, i: int, k: int)
    requires
        changes_fed(happenings) <= u64::MAX,
        0 <= i < happenings.len(),
        0 <= k < rows_put(happenings, i).len(),
    ensures
        before(happenings, i).next_seq <= rows_put(happenings, i)[k].seq < after(
            happenings,
        ).next_seq,
    decreases happenings.len(),
{
    let shorter = happenings.drop_last();
    let none = Seq::<char>::empty();
    lemma_counts_grow(happenings, happenings.len() - 1);
    assert(happenings.take(happenings.len() - 1) =~= shorter);
    lemma_feed_after(shorter);
    match happenings.last() {
        Happening::Feed { label, collection, changes, now } => {
            law_row_numbers_only_grow(
                after(shorter),
                label,
                none,
                collection,
                0,
                true,
                changes,
                None,
                none,
                now,
            );
        },
        _ => {},
    }
    if i < shorter.len() {
        assert(shorter.take(i) =~= happenings.take(i));
        lemma_numbers_below(shorter, i, k);
    } else {
        assert(happenings.take(i) =~= shorter);
    }
}

/// A row's number is given out once: whatever happens to a bus, the rows of a later
/// changeset get higher numbers than every row before them, also where those were
/// dropped or cleared, and the feed lists its rows by falling numbers. That holds
/// until the counter is used up.
pub proof fn law_a_row_number_is_given_out_once(
    happenings: Seq<Happening>,
    i: int,
    k: int,
    j: int,
    m: int,
)
    requires
        changes_fed(happenings) <= u64::MAX,
        0 <= i <= j < happenings.len(),
        0 <= k < rows_put(happenings, i).len(),
        0 <= m < rows_put(happenings, j).len(),
        i == j ==> k < m,
    ensures
        rows_put(happenings, i)[k].seq < rows_put(happenings, j)[m].seq,
        newest_first(after(happenings)),
        after(happenings).feed.len() <= FEED_CAP,
{
    lemma_feed_after(happenings);
    law_every_bus_is_consistent(happenings);
    lemma_counts_grow(happenings, j);
    lemma_counts_grow(happenings, j + 1);
    if i < j {
        assert(happenings.take(j).take(i) =~= happenings.take(i));
        lemma_numbers_below(happenings.take(j), i, k);
        lemma_numbers_below(happenings, j, m);
    } else {
        let none = Seq::<char>::empty();
        let bus = before(happenings, j);
        assert(happenings.take(j + 1).drop_last() =~= happenings.take(j));
        lemma_feed_after(happenings.take(j));
        match happenings[j] {
            Happening::Feed { label, collection, changes, now } => {
                law_row_numbers_only_grow(
                    bus,
                    label,
                    none,
                    collection,
                    0,
                    true,
                    changes,
                    None,
                    none,
                    now,
                );
            },
            _ => {},
        }
    }
}

} // verus!
