//! The x-ray bus: a registry of live queries, a bounded live event feed built
//! from their changesets, and a log of connection states.
//!
//! A registered query costs a changeset tap only while x-ray is on. The bus
//! decides when a tap is put in and taken out; whoever holds the queries carries
//! the decisions out.

use std::collections::VecDeque;

use vstd::prelude::*;

use crate::decode::{badge_views, badges_of, op_badges, BadgeModel, OpBadge};
use crate::event::{operation_views, Attested};
use crate::ids::{clock_short, Clock, CollectionId, EntityId, EventId};
use crate::text::{lemma_word64_plus, same_text, word64};

verus! {

// ---------------------------------------------------------------------------
// Types
// ---------------------------------------------------------------------------

/// Handle for removing a registry entry.
#[derive(Clone, Copy, PartialEq, Eq, Hash, Debug, Structural)]
pub struct RegistrationId(u64);

impl View for RegistrationId {
    type V = nat;

    closed spec fn view(&self) -> nat {
        self.0 as nat
    }
}

/// One registered query.
pub struct QueryEntry {
    pub id: RegistrationId,
    pub label: String,
    pub query_id: String,
    pub collection: CollectionId,
    /// Changesets seen by the tap since registration.
    pub changes_seen: u64,
    /// Whether the changeset tap is in place.
    pub tapped: bool,
}

/// What the panel shows of one registered query.
#[derive(Clone, Debug, PartialEq)]
pub struct QuerySnapshot {
    pub id: RegistrationId,
    pub label: String,
    pub query_id: String,
    pub collection: CollectionId,
    pub changes_seen: u64,
}

/// One event as it appeared in a changeset, summarized for the feed.
#[derive(Clone, Debug, PartialEq)]
pub struct FeedEvent {
    pub id: EventId,
    pub parent: Clock,
    /// One summary per backend.
    pub badges: Vec<OpBadge>,
}

/// One row of the live feed: a membership change from a registered query.
#[derive(Clone, Debug, PartialEq)]
pub struct FeedEntry {
    pub seq: u64,
    /// Milliseconds since the epoch.
    pub at_ms: u64,
    pub query_label: String,
    pub collection: CollectionId,
    /// `None` for coalesced initial-load batches.
    pub entity_id: Option<EntityId>,
    pub kind: &'static str,
    /// Number of items this row covers (more than one only for initial batches).
    pub count: usize,
    /// The entity's head clock after the change, in short.
    pub head_short: String,
    pub events: Vec<FeedEvent>,
}

/// An entity as a changeset reports it.
#[derive(Debug, PartialEq)]
pub struct Item {
    pub id: EntityId,
    /// The head clock after the change.
    pub head: Clock,
}

/// One change of a query's result.
#[derive(Debug, PartialEq)]
pub enum ItemChange {
    /// The item was there when the query was first loaded.
    Initial { item: Item },
    Add { item: Item, events: Vec<Attested> },
    Update { item: Item, events: Vec<Attested> },
    Remove { item: Item, events: Vec<Attested> },
}

/// How many rows the feed keeps.
pub const FEED_CAP: usize = 100;

/// How many lines the connection log keeps.
pub const CONN_LOG_CAP: usize = 24;

/// Something for the holder of the queries, the connection and the stored
/// settings to carry out.
#[derive(Clone, Copy, Debug, PartialEq, Eq, Structural)]
pub enum Action {
    /// Put the changeset tap of a registered query in place.
    InstallTap(RegistrationId),
    /// Take the changeset tap of a registered query away.
    DropTap(RegistrationId),
    /// Subscribe to the connection state.
    SubscribeConnection,
    /// Drop the subscription to the connection state.
    DropConnection,
    /// Remember that x-ray is on.
    StoreFlag,
    /// Forget that x-ray was on.
    RemoveFlag,
}

// ---------------------------------------------------------------------------
// Model
// ---------------------------------------------------------------------------

/// What the registry knows of a query.
#[verifier::ext_equal]
pub struct QueryModel {
    pub id: nat,
    pub label: Seq<char>,
    pub query_id: Seq<char>,
    pub collection: Seq<char>,
    pub changes_seen: nat,
    pub tapped: bool,
}

impl View for QueryEntry {
    type V = QueryModel;

    open spec fn view(&self) -> QueryModel {
        QueryModel {
            id: self.id@,
            label: self.label@,
            query_id: self.query_id@,
            collection: self.collection@,
            changes_seen: self.changes_seen as nat,
            tapped: self.tapped,
        }
    }
}

/// What a list of registered queries says.
pub open spec fn query_views(list: Seq<QueryEntry>) -> Seq<QueryModel> {
    Seq::new(list.len(), |i: int| list[i]@)
}

/// `snapshot` shows what `query` holds.
pub open spec fn shows(snapshot: QuerySnapshot, query: QueryModel) -> bool {
    &&& snapshot.id@ == query.id
    &&& snapshot.label@ == query.label
    &&& snapshot.query_id@ == query.query_id
    &&& snapshot.collection@ == query.collection
    &&& snapshot.changes_seen == query.changes_seen
}

/// What a feed event says.
#[verifier::ext_equal]
pub struct FeedEventModel {
    pub id: Seq<u8>,
    pub parent: Seq<Seq<u8>>,
    pub badges: Seq<BadgeModel>,
}

impl View for FeedEvent {
    type V = FeedEventModel;

    open spec fn view(&self) -> FeedEventModel {
        FeedEventModel { id: self.id@, parent: self.parent@, badges: badge_views(self.badges@) }
    }
}

/// What a list of feed events says.
pub open spec fn feed_event_views(list: Seq<FeedEvent>) -> Seq<FeedEventModel> {
    Seq::new(list.len(), |i: int| list[i]@)
}

/// What a feed row says.
#[verifier::ext_equal]
pub struct RowModel {
    pub seq: nat,
    pub at_ms: nat,
    pub query_label: Seq<char>,
    pub collection: Seq<char>,
    pub entity_id: Option<Seq<u8>>,
    pub kind: Seq<char>,
    pub count: nat,
    pub head_short: Seq<char>,
    pub events: Seq<FeedEventModel>,
}

impl View for FeedEntry {
    type V = RowModel;

    open spec fn view(&self) -> RowModel {
        RowModel {
            seq: self.seq as nat,
            at_ms: self.at_ms as nat,
            query_label: self.query_label@,
            collection: self.collection@,
            entity_id: match self.entity_id {
                Some(id) => Some(id@),
                None => None,
            },
            kind: self.kind@,
            count: self.count as nat,
            head_short: self.head_short@,
            events: feed_event_views(self.events@),
        }
    }
}

/// What a list of feed rows says.
pub open spec fn row_views(list: Seq<FeedEntry>) -> Seq<RowModel> {
    Seq::new(list.len(), |i: int| list[i]@)
}

/// What a list of log lines says: when, and which state.
pub open spec fn line_views(list: Seq<(u64, String)>) -> Seq<(nat, Seq<char>)> {
    Seq::new(list.len(), |i: int| (list[i].0 as nat, list[i].1@))
}

/// The bus, as its contracts speak of it.
#[verifier::ext_equal]
pub struct BusModel {
    /// Whether the taps of the registered queries are in place.
    pub tapping: bool,
    /// The registered queries, oldest first.
    pub entries: Seq<QueryModel>,
    /// Counts registrations and removals.
    pub entries_rev: nat,
    /// The id that the next registration gets.
    pub next_id: nat,
    /// The live feed, newest first.
    pub feed: Seq<RowModel>,
    /// The number that the next feed row gets.
    pub next_seq: nat,
    /// The connection states and when they came, newest first.
    pub conn_log: Seq<(nat, Seq<char>)>,
    /// The latest connection state, empty before the first one.
    pub conn_state: Seq<char>,
    /// Whether the connection state is subscribed to.
    pub conn_live: bool,
}

/// A bus on which nothing has happened yet.
pub open spec fn fresh_bus() -> BusModel {
    BusModel {
        tapping: false,
        entries: Seq::empty(),
        entries_rev: 0,
        next_id: 1,
        feed: Seq::empty(),
        next_seq: 0,
        conn_log: Seq::empty(),
        conn_state: Seq::empty(),
        conn_live: false,
    }
}

/// The bus after one more query was registered.
pub open spec fn registered(
    bus: BusModel,
    label: Seq<char>,
    query_id: Seq<char>,
    collection: Seq<char>,
) -> BusModel {
    BusModel {
        entries: bus.entries.push(
            QueryModel {
                id: bus.next_id,
                label,
                query_id,
                collection,
                changes_seen: 0,
                tapped: bus.tapping,
            },
        ),
        entries_rev: word64(bus.entries_rev + 1),
        next_id: word64(bus.next_id + 1),
        ..bus
    }
}

/// The queries but for those of that id.
pub open spec fn without(entries: Seq<QueryModel>, id: nat) -> Seq<QueryModel>
    decreases entries.len(),
{
    if entries.len() == 0 {
        Seq::empty()
    } else if entries.first().id == id {
        without(entries.drop_first(), id)
    } else {
        seq![entries.first()] + without(entries.drop_first(), id)
    }
}

/// The bus after a registration was removed.
pub open spec fn unregistered(bus: BusModel, id: nat) -> BusModel {
    BusModel {
        entries: without(bus.entries, id),
        entries_rev: word64(bus.entries_rev + 1),
        ..bus
    }
}

/// The bus after the tap switch was set.
pub open spec fn switched(bus: BusModel, on: bool) -> BusModel {
    if bus.tapping == on {
        bus
    } else {
        BusModel {
            tapping: on,
            entries: Seq::new(
                bus.entries.len(),
                |i: int| QueryModel { tapped: on, ..bus.entries[i] },
            ),
            ..bus
        }
    }
}

/// `action` puts the tap of the query `id` in place, or takes it away.
pub open spec fn is_tap_action(action: Action, id: nat, on: bool) -> bool {
    match action {
        Action::InstallTap(of) => on && of@ == id,
        Action::DropTap(of) => !on && of@ == id,
        _ => false,
    }
}

/// What has to be done as the tap switch is set: nothing where it stands that way
/// already, else one tap in or out for each registered query, oldest first.
pub open spec fn are_tap_actions(actions: Seq<Action>, bus: BusModel, on: bool) -> bool {
    if bus.tapping == on {
        actions.len() == 0
    } else {
        &&& actions.len() == bus.entries.len()
        &&& forall|i: int|
            0 <= i < actions.len() ==> is_tap_action(#[trigger] actions[i], bus.entries[i].id, on)
    }
}

/// The row of one change, with its events.
pub open spec fn change_row(
    change: ItemChange,
    label: Seq<char>,
    collection: Seq<char>,
    now: nat,
    seq: nat,
) -> RowModel {
    let (kind, item, events) = match change {
        ItemChange::Initial { item } => ("initial"@, item, Seq::<Attested>::empty()),
        ItemChange::Add { item, events } => ("add"@, item, events@),
        ItemChange::Update { item, events } => ("update"@, item, events@),
        ItemChange::Remove { item, events } => ("remove"@, item, events@),
    };
    RowModel {
        seq: word64(seq),
        at_ms: now,
        query_label: label,
        collection,
        entity_id: Some(item.id@),
        kind,
        count: 1,
        head_short: clock_short(item.head@),
        events: summaries(events),
    }
}

/// The row of a coalesced initial load.
pub open spec fn initial_row(
    count: nat,
    label: Seq<char>,
    collection: Seq<char>,
    now: nat,
    seq: nat,
) -> RowModel {
    RowModel {
        seq: word64(seq),
        at_ms: now,
        query_label: label,
        collection,
        entity_id: None,
        kind: "initial"@,
        count,
        head_short: Seq::empty(),
        events: Seq::empty(),
    }
}

/// What the feed says of one event.
pub open spec fn summary(attested: Attested) -> FeedEventModel {
    FeedEventModel {
        id: attested.payload.content_id(),
        parent: attested.payload.parent@,
        badges: badges_of(operation_views(attested.payload.operations@)),
    }
}

/// What the feed says of a list of events.
pub open spec fn summaries(events: Seq<Attested>) -> Seq<FeedEventModel> {
    Seq::new(events.len(), |i: int| summary(events[i]))
}

/// How many of the changes belong to an initial load.
pub open spec fn initial_count(changes: Seq<ItemChange>) -> nat
    decreases changes.len(),
{
    if changes.len() == 0 {
        0
    } else {
        initial_count(changes.drop_last()) + if changes.last() is Initial {
            1nat
        } else {
            0nat
        }
    }
}

/// One row for each change that belongs to no initial load, in order, numbered
/// from `seq` on.
pub open spec fn change_rows(
    changes: Seq<ItemChange>,
    label: Seq<char>,
    collection: Seq<char>,
    now: nat,
    seq: nat,
) -> Seq<RowModel>
    decreases changes.len(),
{
    if changes.len() == 0 {
        Seq::empty()
    } else {
        let rows = change_rows(changes.drop_last(), label, collection, now, seq);
        if changes.last() is Initial {
            rows
        } else {
            rows.push(change_row(changes.last(), label, collection, now, seq + rows.len()))
        }
    }
}

/// The rows of one changeset: a row for each change, with its events, and one
/// last row for all of the initial load.
pub open spec fn rows_of(
    changes: Seq<ItemChange>,
    label: Seq<char>,
    collection: Seq<char>,
    now: nat,
    seq: nat,
) -> Seq<RowModel> {
    let rows = change_rows(changes, label, collection, now, seq);
    let count = initial_count(changes);
    if count > 0 {
        rows.push(initial_row(count, label, collection, now, seq + rows.len()))
    } else {
        rows
    }
}

/// The first `cap` items.
pub open spec fn capped<A>(items: Seq<A>, cap: nat) -> Seq<A> {
    if items.len() <= cap {
        items
    } else {
        items.take(cap as int)
    }
}

/// The bus after a changeset of a query came in.
pub open spec fn fed(
    bus: BusModel,
    label: Seq<char>,
    collection: Seq<char>,
    changes: Seq<ItemChange>,
    now: nat,
) -> BusModel {
    let rows = rows_of(changes, label, collection, now, bus.next_seq);
    if rows.len() == 0 {
        bus
    } else {
        BusModel {
            feed: capped(rows.reverse() + bus.feed, FEED_CAP as nat),
            next_seq: word64(bus.next_seq + rows.len()),
            ..bus
        }
    }
}

/// The queries after one more changeset of the query `id` was seen.
pub open spec fn seen_by(entries: Seq<QueryModel>, id: nat) -> Seq<QueryModel> {
    Seq::new(
        entries.len(),
        |i: int|
            if entries[i].id == id {
                QueryModel { changes_seen: word64(entries[i].changes_seen + 1), ..entries[i] }
            } else {
                entries[i]
            },
    )
}

/// The bus after one more changeset of the query `id` was seen.
pub open spec fn seen(bus: BusModel, id: nat) -> BusModel {
    BusModel { entries: seen_by(bus.entries, id), ..bus }
}

/// The bus after a connection state was reported. A state that is already the
/// latest in the log is not logged again.
pub open spec fn connected(bus: BusModel, line: Seq<char>, now: nat) -> BusModel {
    BusModel {
        conn_state: line,
        conn_log: if bus.conn_log.len() > 0 && bus.conn_log[0].1 == line {
            bus.conn_log
        } else {
            capped(seq![(now, line)] + bus.conn_log, CONN_LOG_CAP as nat)
        },
        ..bus
    }
}

/// The bus after the connection log was started, with `current` the state that
/// the application reports, if it reports any.
pub open spec fn logging(bus: BusModel, current: Option<Seq<char>>, now: nat) -> BusModel {
    match current {
        Some(line) => if bus.conn_live {
            bus
        } else {
            BusModel { conn_live: true, ..connected(bus, line, now) }
        },
        None => bus,
    }
}

/// The bus without a subscription to the connection state.
pub open spec fn silent(bus: BusModel) -> BusModel {
    BusModel { conn_live: false, ..bus }
}

/// The bus without its observations.
pub open spec fn cleared(bus: BusModel) -> BusModel {
    BusModel { feed: Seq::empty(), conn_log: Seq::empty(), ..bus }
}

/// Every query is tapped while the switch is on, and none while it is off.
pub open spec fn all_tapped(entries: Seq<QueryModel>, on: bool) -> bool {
    forall|i: int| 0 <= i < entries.len() ==> (#[trigger] entries[i]).tapped == on
}

/// No two neighbouring lines name the same state.
pub open spec fn no_repeats(log: Seq<(nat, Seq<char>)>) -> bool {
    forall|i: int, j: int|
        0 <= i && j == i + 1 && j < log.len() ==> #[trigger] log[i].1 != #[trigger] log[j].1
}

/// What every bus keeps: a query is tapped exactly while the tap switch is on, the
/// feed and the log keep to their bounds, and the log starts with the latest state
/// and never lists a state twice in a row.
pub open spec fn consistent(bus: BusModel) -> bool {
    &&& all_tapped(bus.entries, bus.tapping)
    &&& bus.feed.len() <= FEED_CAP
    &&& bus.conn_log.len() <= CONN_LOG_CAP
    &&& no_repeats(bus.conn_log)
    &&& bus.conn_log.len() > 0 ==> bus.conn_log[0].1 == bus.conn_state
}

/// What is left was there before, and is of another id.
pub(crate) proof fn lemma_without(entries: Seq<QueryModel>, id: nat)
    ensures
        forall|i: int|
            0 <= i < without(entries, id).len() ==> (#[trigger] without(entries, id)[i]).id != id
                && entries.contains(without(entries, id)[i]),
    decreases entries.len(),
{
    if entries.len() > 0 {
        let rest = without(entries.drop_first(), id);
        lemma_without(entries.drop_first(), id);
        assert forall|i: int| 0 <= i < without(entries, id).len() implies (#[trigger] without(
            entries,
            id,
        )[i]).id != id && entries.contains(without(entries, id)[i]) by {
            let now = without(entries, id);
            if entries.first().id == id {
                assert(now[i] == rest[i]);
                let k = choose|k: int|
                    0 <= k < entries.drop_first().len() && entries.drop_first()[k] == rest[i];
                assert(entries[k + 1] == now[i]);
            } else if i == 0 {
                assert(entries[0] == now[0]);
            } else {
                assert(now[i] == rest[i - 1]);
                let k = choose|k: int|
                    0 <= k < entries.drop_first().len() && entries.drop_first()[k] == rest[i - 1];
                assert(entries[k + 1] == now[i]);
            }
        }
    }
}

/// Another state in front repeats nothing.
pub(crate) proof fn lemma_no_repeats(log: Seq<(nat, Seq<char>)>, line: Seq<char>, now: nat)
    requires
        no_repeats(log),
        log.len() > 0 ==> log[0].1 != line,
    ensures
        no_repeats(capped(seq![(now, line)] + log, CONN_LOG_CAP as nat)),
{
    let longer = capped(seq![(now, line)] + log, CONN_LOG_CAP as nat);
    assert forall|i: int, j: int| 0 <= i && j == i + 1 && j < longer.len() implies
        #[trigger] longer[i].1 != #[trigger] longer[j].1 by {
        if i == 0 {
            assert(longer[1] == log[0]);
        } else {
            assert(longer[i] == log[i - 1]);
            assert(longer[j] == log[j - 1]);
        }
    }
}

// ---------------------------------------------------------------------------
// The bus
// ---------------------------------------------------------------------------

/// The x-ray bus.
pub struct BusHandle {
    tapping: bool,
    entries: Vec<QueryEntry>,
    entries_rev: u64,
    next_id: u64,
    feed: VecDeque<FeedEntry>,
    next_seq: u64,
    conn_log: VecDeque<(u64, String)>,
    conn_state: String,
    conn_live: bool,
}

impl View for BusHandle {
    type V = BusModel;

    closed spec fn view(&self) -> BusModel {
        BusModel {
            tapping: self.tapping,
            entries: query_views(self.entries@),
            entries_rev: self.entries_rev as nat,
            next_id: self.next_id as nat,
            feed: row_views(self.feed@),
            next_seq: self.next_seq as nat,
            conn_log: line_views(self.conn_log@),
            conn_state: self.conn_state@,
            conn_live: self.conn_live,
        }
    }
}

impl BusHandle {
    /// Every bus is consistent, at all times.
    #[verifier::type_invariant]
    spec fn kept(self) -> bool {
        consistent(self@)
    }
}

/// A new bus: nothing registered, nothing seen.
pub fn bus() -> (bus: BusHandle)
    ensures
        bus@ == fresh_bus(),
{
    let bus = BusHandle {
        tapping: false,
        entries: Vec::new(),
        entries_rev: 0,
        next_id: 1,
        feed: VecDeque::new(),
        next_seq: 0,
        conn_log: VecDeque::new(),
        conn_state: String::new(),
        conn_live: false,
    };
    assert(bus@ =~= fresh_bus());
    bus
}

impl BusHandle {
    /// Register a live query under a human label. Also says whether its changeset
    /// tap has to be put in place now.
    ///
    /// The caller must `unregister`: nothing else ever removes the entry.
    pub fn register(&mut self, label: &str, query_id: &str, collection: &CollectionId) -> (registration: (
        RegistrationId,
        bool,
    ))
        ensures
            registration.0@ == old(self)@.next_id,
            registration.1 == old(self)@.tapping,
            final(self)@ == registered(old(self)@, label@, query_id@, collection@),
            consistent(final(self)@),
    {
        let ghost before = self@;
        let id = RegistrationId(self.next_id);
        let tap = self.tapping;
        proof {
            use_type_invariant(&*self);
            lemma_word64_plus(self.next_id as nat, 1);
            lemma_word64_plus(self.entries_rev as nat, 1);
        }
        self.next_id = self.next_id.wrapping_add(1);
        self.entries_rev = self.entries_rev.wrapping_add(1);
        let mut entries: Vec<QueryEntry> = Vec::new();
        std::mem::swap(&mut entries, &mut self.entries);
        let ghost list = entries@;
        entries.push(
            QueryEntry {
                id,
                label: label.to_owned(),
                query_id: query_id.to_owned(),
                collection: collection.clone(),
                changes_seen: 0,
                tapped: tap,
            },
        );
        assert(query_views(entries@) =~= query_views(list).push(entries@.last()@));
        self.entries = entries;
        assert(self@ =~= registered(before, label@, query_id@, collection@));
        (id, tap)
    }

    /// Drop a registry entry.
    pub fn unregister(&mut self, id: RegistrationId)
        ensures
            final(self)@ == unregistered(old(self)@, id@),
            consistent(final(self)@),
    {
        let ghost before = self@;
        proof {
            use_type_invariant(&*self);
            lemma_word64_plus(self.entries_rev as nat, 1);
        }
        self.entries_rev = self.entries_rev.wrapping_add(1);
        let mut entries: Vec<QueryEntry> = Vec::new();
        std::mem::swap(&mut entries, &mut self.entries);
        let ghost list = entries@;
        let mut i: usize = entries.len();
        assert(query_views(list).skip(i as int) =~= Seq::<QueryModel>::empty());
        while i > 0
            invariant
                i <= list.len(),
                i <= entries@.len(),
                entries@.take(i as int) =~= list.take(i as int),
                query_views(entries@.skip(i as int)) =~= without(
                    query_views(list).skip(i as int),
                    id@,
                ),
            decreases i,
        {
            i -= 1;
            let ghost now = entries@;
            let ghost rest = query_views(list).skip(i as int);
            proof {
                assert(rest.first() == list[i as int]@);
                assert(list.take(i + 1)[i as int] == list[i as int]);
                assert(now.take(i + 1)[i as int] == now[i as int]);
                assert(rest.drop_first() =~= query_views(list).skip(i + 1));
                assert(list.take(i as int) =~= list.take(i + 1).take(i as int));
                assert(now.take(i as int) =~= now.take(i + 1).take(i as int));
            }
            if entries[i].id == id {
                let _gone = entries.remove(i);
                assert(entries@.skip(i as int) =~= now.skip(i + 1));
                assert(entries@.take(i as int) =~= now.take(i as int));
            } else {
                assert(query_views(now.skip(i as int)) =~= seq![now[i as int]@] + query_views(
                    now.skip(i + 1),
                ));
            }
        }
        proof {
            assert(entries@.skip(0) =~= entries@);
            assert(query_views(list).skip(0) =~= query_views(list));
            lemma_without(before.entries, id@);
        }
        self.entries = entries;
        assert(self@ =~= unregistered(before, id@));
    }

    /// Set the tap switch. The result says which taps have to be put in place or
    /// taken away: none where the switch stands that way already, since a tap put
    /// in anew replays its query's initial load into the feed.
    pub fn set_tapping(&mut self, on: bool) -> (actions: Vec<Action>)
        ensures
            final(self)@ == switched(old(self)@, on),
            are_tap_actions(actions@, old(self)@, on),
            consistent(final(self)@),
    {
        let ghost before = self@;
        proof {
            use_type_invariant(&*self);
        }
        let mut actions: Vec<Action> = Vec::new();
        if self.tapping == on {
            return actions;
        }
        let mut entries: Vec<QueryEntry> = Vec::new();
        std::mem::swap(&mut entries, &mut self.entries);
        self.tapping = on;
        let ghost list = entries@;
        let mut i: usize = 0;
        while i < entries.len()
            invariant
                i <= entries.len(),
                entries.len() == list.len(),
                actions.len() == i,
                before.entries == query_views(list),
                forall|j: int|
                    0 <= j < i ==> is_tap_action(#[trigger] actions@[j], before.entries[j].id, on),
                forall|j: int|
                    0 <= j < i ==> (#[trigger] entries@[j])@ == (QueryModel {
                        tapped: on,
                        ..before.entries[j]
                    }),
                forall|j: int| i <= j < list.len() ==> entries@[j] == #[trigger] list[j],
            decreases entries.len() - i,
        {
            let id = entries[i].id;
            assert(entries@[i as int] == list[i as int]);
            actions.push(
                if on {
                    Action::InstallTap(id)
                } else {
                    Action::DropTap(id)
                },
            );
            let ghost now = entries@;
            entries[i].tapped = on;
            assert(entries@ =~= now.update(i as int, entries@[i as int]));
            assert(entries@[i as int]@ =~= (QueryModel { tapped: on, ..before.entries[i as int] }));
            i += 1;
        }
        self.entries = entries;
        assert(self@ =~= switched(before, on));
        actions
    }

    /// Whether the taps of the registered queries are in place.
    pub fn tapping(&self) -> (on: bool)
        ensures
            on == self@.tapping,
    {
        self.tapping
    }

    /// Revision counter of the entry list.
    pub fn entries_rev(&self) -> (rev: u64)
        ensures
            rev == self@.entries_rev,
    {
        self.entries_rev
    }

    /// What the registry holds, for rendering.
    pub fn snapshot(&self) -> (snapshots: Vec<QuerySnapshot>)
        ensures
            snapshots.len() == self@.entries.len(),
            forall|i: int|
                0 <= i < snapshots.len() ==> shows(#[trigger] snapshots@[i], self@.entries[i]),
            consistent(self@),
    {
        proof {
            use_type_invariant(self);
        }
        let mut snapshots: Vec<QuerySnapshot> = Vec::new();
        let mut i: usize = 0;
        while i < self.entries.len()
            invariant
                i <= self.entries.len(),
                snapshots.len() == i,
                forall|j: int|
                    0 <= j < i ==> shows(#[trigger] snapshots@[j], query_views(self.entries@)[j]),
            decreases self.entries.len() - i,
        {
            let entry = &self.entries[i];
            snapshots.push(
                QuerySnapshot {
                    id: entry.id,
                    label: entry.label.clone(),
                    query_id: entry.query_id.clone(),
                    collection: entry.collection.clone(),
                    changes_seen: entry.changes_seen,
                },
            );
            i += 1;
        }
        snapshots
    }

    /// The live feed, newest first.
    pub fn feed(&self) -> (feed: &VecDeque<FeedEntry>)
        ensures
            row_views(feed@) == self@.feed,
            consistent(self@),
    {
        proof {
            use_type_invariant(self);
        }
        &self.feed
    }

    /// The connection-state log, newest first.
    pub fn conn_log(&self) -> (log: &VecDeque<(u64, String)>)
        ensures
            line_views(log@) == self@.conn_log,
            consistent(self@),
    {
        proof {
            use_type_invariant(self);
        }
        &self.conn_log
    }

    /// The latest connection state, empty until one was reported.
    pub fn conn_state(&self) -> (state: &String)
        ensures
            state@ == self@.conn_state,
    {
        &self.conn_state
    }

    /// Whether the connection state is subscribed to.
    pub fn conn_live(&self) -> (live: bool)
        ensures
            live == self@.conn_live,
    {
        self.conn_live
    }

    /// Drop accumulated observations so that a re-enable starts fresh instead of
    /// replaying stale rows.
    pub fn clear_history(&mut self)
        ensures
            final(self)@ == cleared(old(self)@),
            consistent(final(self)@),
    {
        let ghost before = self@;
        proof {
            use_type_invariant(&*self);
        }
        self.feed = VecDeque::new();
        self.conn_log = VecDeque::new();
        assert(self@ =~= cleared(before));
    }

    /// A tap delivered a changeset: count it, and show it in the feed.
    pub fn on_changeset(
        &mut self,
        id: RegistrationId,
        label: &str,
        collection: &CollectionId,
        changes: &Vec<ItemChange>,
        now: u64,
    )
        ensures
            final(self)@ == fed(
                seen(old(self)@, id@),
                label@,
                collection@,
                changes@,
                now as nat,
            ),
            consistent(final(self)@),
    {
        let ghost before = self@;
        proof {
            use_type_invariant(&*self);
        }
        let mut entries: Vec<QueryEntry> = Vec::new();
        std::mem::swap(&mut entries, &mut self.entries);
        let ghost list = entries@;
        let mut i: usize = 0;
        while i < entries.len()
            invariant
                i <= entries.len(),
                entries.len() == list.len(),
                before.entries == query_views(list),
                forall|j: int|
                    0 <= j < i ==> (#[trigger] entries@[j])@ == seen_by(before.entries, id@)[j],
                forall|j: int| i <= j < list.len() ==> entries@[j] == #[trigger] list[j],
            decreases entries.len() - i,
        {
            assert(entries@[i as int] == list[i as int]);
            if entries[i].id == id {
                let ghost now_entries = entries@;
                let seen: u64 = entries[i].changes_seen;
                proof {
                    lemma_word64_plus(seen as nat, 1);
                }
                entries[i].changes_seen = seen.wrapping_add(1);
                assert(entries@ =~= now_entries.update(i as int, entries@[i as int]));
            } else {
                assert(entries@[i as int].id@ != id@);
            }
            assert(entries@[i as int]@ =~= seen_by(before.entries, id@)[i as int]);
            i += 1;
        }
        assert(query_views(entries@) =~= seen_by(before.entries, id@));
        self.entries = entries;
        assert(self@ =~= seen(before, id@));
        self.push_changeset(label, collection, changes, now);
    }

    /// Convert one changeset into feed rows. An add, update or remove gets a row of
    /// its own, with its events; the initial load is coalesced into a single row, so
    /// that opening a query does not flood the feed.
    pub fn push_changeset(
        &mut self,
        label: &str,
        collection: &CollectionId,
        changes: &Vec<ItemChange>,
        now: u64,
    )
        ensures
            final(self)@ == fed(old(self)@, label@, collection@, changes@, now as nat),
            consistent(final(self)@),
    {
        let ghost before = self@;
        proof {
            use_type_invariant(&*self);
        }
        let rows = make_rows(label, collection, changes, now, self.next_seq);
        if rows.len() == 0 {
            return;
        }
        let ghost all = row_views(rows@);
        proof {
            lemma_word64_plus(self.next_seq as nat, rows@.len());
        }
        self.next_seq = self.next_seq.wrapping_add(rows.len() as u64);
        let mut rows = rows;
        let mut pushed: VecDeque<FeedEntry> = VecDeque::new();
        std::mem::swap(&mut pushed, &mut self.feed);
        push_rows(&mut pushed, &mut rows);
        pushed.truncate(FEED_CAP);
        proof {
            assert(row_views(pushed@) =~= capped(all.reverse() + before.feed, FEED_CAP as nat));
        }
        self.feed = pushed;
        assert(self@ =~= fed(before, label@, collection@, changes@, now as nat));
    }

    /// Start recording connection states, `current` being the one that the
    /// application reports. Nothing happens where it reports none, or where the
    /// log runs already. The result says whether to subscribe.
    pub fn start_connection_log(&mut self, current: Option<&str>, now: u64) -> (subscribe: bool)
        ensures
            final(self)@ == logging(
                old(self)@,
                match current {
                    Some(line) => Some(line@),
                    None => None,
                },
                now as nat,
            ),
            subscribe == (current is Some && !old(self)@.conn_live),
            consistent(final(self)@),
    {
        let ghost before = self@;
        proof {
            use_type_invariant(&*self);
        }
        match current {
            Some(line) => {
                if self.conn_live {
                    return false;
                }
                self.push_conn(line, now);
                self.conn_live = true;
                assert(self@ =~= (BusModel { conn_live: true, ..connected(before, line@, now as nat) }));
                true
            },
            None => false,
        }
    }

    /// Stop recording connection states. The result says whether there is a
    /// subscription to drop.
    pub fn stop_connection_log(&mut self) -> (drop: bool)
        ensures
            final(self)@ == silent(old(self)@),
            drop == old(self)@.conn_live,
            consistent(final(self)@),
    {
        let ghost before = self@;
        proof {
            use_type_invariant(&*self);
        }
        let live = self.conn_live;
        self.conn_live = false;
        assert(self@ =~= silent(before));
        live
    }

    /// Record a connection state. Consecutive duplicates are collapsed.
    pub fn push_conn(&mut self, line: &str, now: u64)
        ensures
            final(self)@ == connected(old(self)@, line@, now as nat),
            consistent(final(self)@),
    {
        let ghost before = self@;
        proof {
            use_type_invariant(&*self);
        }
        if self.conn_log.len() > 0 && same_text(self.conn_log[0].1.as_str(), line) {
            self.conn_state = line.to_owned();
            assert(self@ =~= connected(before, line@, now as nat));
            return;
        }
        let mut log: VecDeque<(u64, String)> = VecDeque::new();
        std::mem::swap(&mut log, &mut self.conn_log);
        self.conn_state = line.to_owned();
        let ghost shorter = log@;
        log.push_front((now, line.to_owned()));
        let ghost longer = log@;
        log.truncate(CONN_LOG_CAP);
        proof {
            assert(line_views(longer) =~= seq![(now as nat, line@)] + line_views(shorter));
            assert(line_views(log@) =~= capped(line_views(longer), CONN_LOG_CAP as nat));
            lemma_no_repeats(before.conn_log, line@, now as nat);
        }
        self.conn_log = log;
        assert(self@ =~= connected(before, line@, now as nat));
    }
}

/// Move the rows to the front of the feed, the first one first.
fn push_rows(feed: &mut VecDeque<FeedEntry>, rows: &mut Vec<FeedEntry>)
    ensures
        row_views(final(feed)@) == row_views(old(rows)@).reverse() + row_views(old(feed)@),
{
    let ghost before = feed@;
    let ghost all = rows@;
    let mut waiting: Vec<FeedEntry> = Vec::new();
    while rows.len() > 0
        invariant
            rows@.len() + waiting@.len() == all.len(),
            rows@ =~= all.take(rows@.len() as int),
            waiting@ =~= all.skip(rows@.len() as int).reverse(),
        decreases rows.len(),
    {
        let ghost left = rows@;
        match rows.pop() {
            Some(row) => {
                assert(row == all[left.len() - 1]);
                waiting.push(row);
                assert(rows@ =~= all.take(rows@.len() as int));
                assert(waiting@ =~= all.skip(rows@.len() as int).reverse());
            },
            None => {},
        }
    }
    assert(waiting@ =~= all.reverse());
    while waiting.len() > 0
        invariant
            waiting@.len() <= all.len(),
            waiting@ =~= all.skip(all.len() - waiting@.len()).reverse(),
            feed@ =~= all.take(all.len() - waiting@.len()).reverse() + before,
        decreases waiting.len(),
    {
        let ghost done = all.len() - waiting@.len();
        let ghost left = waiting@;
        match waiting.pop() {
            Some(row) => {
                assert(row == all[done]) by {
                    assert(left[left.len() - 1] == all.skip(done).reverse()[left.len() - 1]);
                }
                feed.push_front(row);
                assert(all.take(done + 1).reverse() =~= seq![row] + all.take(done).reverse());
                assert(feed@ =~= all.take(done + 1).reverse() + before);
                assert(waiting@ =~= all.skip(done + 1).reverse());
            },
            None => {},
        }
    }
    assert(all.take(all.len() as int) =~= all);
    assert(row_views(feed@) =~= row_views(all).reverse() + row_views(before));
}

/// The rows of one changeset.
pub fn make_rows(
    label: &str,
    collection: &CollectionId,
    changes: &Vec<ItemChange>,
    now: u64,
    seq: u64,
) -> (rows: Vec<FeedEntry>)
    ensures
        row_views(rows@) == rows_of(changes@, label@, collection@, now as nat, seq as nat),
{
    let mut rows: Vec<FeedEntry> = Vec::new();
    let mut count: usize = 0;
    let mut i: usize = 0;
    proof {
        assert(changes@.take(0) =~= Seq::<ItemChange>::empty());
        assert(row_views(rows@) =~= Seq::<RowModel>::empty());
    }
    while i < changes.len()
        invariant
            i <= changes.len(),
            count == initial_count(changes@.take(i as int)),
            count <= i,
            rows.len() <= i,
            row_views(rows@) == change_rows(
                changes@.take(i as int),
                label@,
                collection@,
                now as nat,
                seq as nat,
            ),
        decreases changes.len() - i,
    {
        let ghost taken = changes@.take(i + 1);
        proof {
            assert(taken.drop_last() =~= changes@.take(i as int));
            assert(taken.last() == changes@[i as int]);
            lemma_word64_plus(seq as nat, rows@.len());
        }
        let number: u64 = seq.wrapping_add(rows.len() as u64);
        let ghost before = rows@;
        match &changes[i] {
            ItemChange::Initial { item: _ } => {
                count += 1;
            },
            ItemChange::Add { item, events } => {
                rows.push(make_row("add", item, events, label, collection, now, number));
                assert(row_views(rows@) =~= row_views(before).push(rows@.last()@));
            },
            ItemChange::Update { item, events } => {
                rows.push(make_row("update", item, events, label, collection, now, number));
                assert(row_views(rows@) =~= row_views(before).push(rows@.last()@));
            },
            ItemChange::Remove { item, events } => {
                rows.push(make_row("remove", item, events, label, collection, now, number));
                assert(row_views(rows@) =~= row_views(before).push(rows@.last()@));
            },
        }
        i += 1;
    }
    assert(changes@.take(i as int) =~= changes@);
    if count > 0 {
        proof {
            lemma_word64_plus(seq as nat, rows@.len());
        }
        let ghost before = rows@;
        let row = FeedEntry {
            seq: seq.wrapping_add(rows.len() as u64),
            at_ms: now,
            query_label: label.to_owned(),
            collection: collection.clone(),
            entity_id: None,
            kind: "initial",
            count,
            head_short: String::new(),
            events: Vec::new(),
        };
        assert(row@ =~= initial_row(
            count as nat,
            label@,
            collection@,
            now as nat,
            seq as nat + before.len(),
        ));
        rows.push(row);
        assert(row_views(rows@) =~= row_views(before).push(row@));
    }
    rows
}

fn make_row(
    kind: &'static str,
    item: &Item,
    events: &Vec<Attested>,
    label: &str,
    collection: &CollectionId,
    now: u64,
    seq: u64,
) -> (row: FeedEntry)
    ensures
        row@ == (RowModel {
            seq: seq as nat,
            at_ms: now as nat,
            query_label: label@,
            collection: collection@,
            entity_id: Some(item.id@),
            kind: kind@,
            count: 1,
            head_short: clock_short(item.head@),
            events: summaries(events@),
        }),
{
    let mut listed: Vec<FeedEvent> = Vec::new();
    let mut i: usize = 0;
    while i < events.len()
        invariant
            i <= events.len(),
            listed.len() == i,
            forall|j: int| 0 <= j < i ==> (#[trigger] listed@[j])@ == summary(events@[j]),
        decreases events.len() - i,
    {
        listed.push(summarize_event(&events[i]));
        i += 1;
    }
    assert(feed_event_views(listed@) =~= summaries(events@));
    FeedEntry {
        seq,
        at_ms: now,
        query_label: label.to_owned(),
        collection: collection.clone(),
        entity_id: Some(item.id),
        kind,
        count: 1,
        head_short: item.head.to_base64_short(),
        events: listed,
    }
}

/// Summarize one event for the feed.
pub fn summarize_event(attested: &Attested) -> (event: FeedEvent)
    ensures
        event@ == summary(*attested),
{
    let event = &attested.payload;
    FeedEvent { id: event.id(), parent: event.parent.clone(), badges: op_badges(event) }
}

} // verus!
