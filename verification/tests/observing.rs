use ankurah_xray::bus::{
    bus, make_rows, summarize_event, Action, BusHandle, Item, ItemChange, CONN_LOG_CAP, FEED_CAP,
};
use ankurah_xray::event::{Attested, Event, Operations};
use ankurah_xray::feed::{feed_row, feed_subtitle};
use ankurah_xray::ids::{Clock, CollectionId, EntityId, EventId};
use ankurah_xray::launcher::{
    initially_enabled, is_close_key, is_toggle_key, observe, start_observing, stop_observing,
};
use ankurah_xray::{state, InspectTarget};

fn entity(n: u8) -> EntityId {
    EntityId { bytes: [n; 16] }
}

fn head(n: u8) -> Clock {
    Clock::new(vec![EventId { bytes: [n; 32] }])
}

fn item(n: u8) -> Item {
    Item { id: entity(n), head: head(n) }
}

fn widget() -> CollectionId {
    CollectionId::named("widget")
}

fn attested(parent: Clock) -> Attested {
    Attested {
        payload: Event {
            collection: widget(),
            entity_id: entity(1),
            operations: vec![Operations { backend: "lww".to_string(), diffs: vec![vec![0; 5]] }],
            parent,
        },
        attestations: 2,
    }
}

fn push(bus: &mut BusHandle, changes: Vec<ItemChange>, now: u64) {
    bus.push_changeset("widgets", &widget(), &changes, now);
}

#[test]
fn a_changeset_becomes_feed_rows() {
    let mut bus = bus();
    push(
        &mut bus,
        vec![
            ItemChange::Initial { item: item(1) },
            ItemChange::Add { item: item(2), events: vec![attested(Clock::empty())] },
            ItemChange::Initial { item: item(3) },
            ItemChange::Update { item: item(4), events: vec![] },
            ItemChange::Remove { item: item(5), events: vec![] },
        ],
        1000,
    );
    let rows: Vec<(u64, &str, usize, Option<EntityId>)> =
        bus.feed().iter().map(|r| (r.seq, r.kind, r.count, r.entity_id)).collect();
    assert_eq!(
        rows,
        vec![
            (3, "initial", 2, None),
            (2, "remove", 1, Some(entity(5))),
            (1, "update", 1, Some(entity(4))),
            (0, "add", 1, Some(entity(2))),
        ],
    );
    assert!(bus.feed().iter().all(|r| r.at_ms == 1000 && r.query_label == "widgets"));
    assert_eq!(bus.feed()[3].head_short, head(2).to_base64_short());
    assert_eq!(bus.feed()[3].events, vec![summarize_event(&attested(Clock::empty()))]);
    assert_eq!((bus.feed()[0].head_short.as_str(), bus.feed()[0].events.len()), ("", 0));
}

#[test]
fn an_empty_changeset_leaves_no_row() {
    let mut bus = bus();
    push(&mut bus, vec![], 1);
    assert!(bus.feed().is_empty());
    assert_eq!(make_rows("widgets", &widget(), &vec![], 1, 7), vec![]);
}

#[test]
fn every_change_of_a_changeset_is_reported() {
    let changes = vec![
        ItemChange::Initial { item: item(1) },
        ItemChange::Initial { item: item(2) },
        ItemChange::Add { item: item(3), events: vec![] },
    ];
    let rows = make_rows("widgets", &widget(), &changes, 1, u64::MAX);
    assert_eq!(rows.iter().map(|r| r.count).sum::<usize>(), 3);
    assert_eq!(rows.iter().map(|r| r.seq).collect::<Vec<_>>(), vec![u64::MAX, 0]);
}

#[test]
fn the_feed_keeps_the_newest_rows() {
    let mut bus = bus();
    for n in 0..130u64 {
        push(&mut bus, vec![ItemChange::Add { item: item(1), events: vec![] }], n);
    }
    assert_eq!(bus.feed().len(), FEED_CAP);
    assert_eq!((bus.feed()[0].seq, bus.feed()[99].seq), (129, 30));
    for i in 1..FEED_CAP {
        assert!(bus.feed()[i - 1].seq > bus.feed()[i].seq);
    }
}

#[test]
fn an_event_is_summarized_with_its_id_parent_and_badges() {
    let event = attested(head(9));
    let summary = summarize_event(&event);
    assert_eq!(summary.id, event.payload.id());
    assert_eq!(summary.parent, head(9));
    assert_eq!(summary.badges.len(), 1);
    assert_eq!((summary.badges[0].summary.as_str(), summary.badges[0].bytes), ("5 B", 5));
}

#[test]
fn registration_and_removal() {
    let mut bus = bus();
    let (a, tap_a) = bus.register("rooms", "q1", &widget());
    let (b, tap_b) = bus.register("users", "q2", &widget());
    assert_ne!(a, b);
    assert!(!tap_a && !tap_b);
    assert_eq!(bus.entries_rev(), 2);
    let labels: Vec<String> = bus.snapshot().into_iter().map(|q| q.label).collect();
    assert_eq!(labels, vec!["rooms", "users"]);
    bus.unregister(a);
    assert_eq!(bus.entries_rev(), 3);
    let left = bus.snapshot();
    assert_eq!(left.len(), 1);
    assert_eq!((left[0].id, left[0].query_id.as_str()), (b, "q2"));
    assert_eq!(left[0].collection, widget());
    bus.unregister(a);
    assert_eq!(bus.snapshot().len(), 1);
    bus.unregister(b);
    assert!(bus.snapshot().is_empty());
    let (c, _) = bus.register("rooms", "q3", &widget());
    assert!(c != a && c != b);
}

#[test]
fn an_id_never_comes_again() {
    let mut bus = bus();
    let mut given = vec![];
    for round in 0..5 {
        let (first, _) = bus.register("widgets", "q1", &widget());
        let (second, _) = bus.register("widgets", "q1", &widget());
        bus.unregister(if round % 2 == 0 { first } else { second });
        given.push(first);
        given.push(second);
    }
    for i in 0..given.len() {
        for j in 0..i {
            assert_ne!(given[i], given[j]);
        }
    }
    assert_eq!(bus.snapshot().len(), 5);
}

#[test]
fn a_row_number_never_comes_again() {
    let mut bus = bus();
    let mut last = None;
    for round in 0..150 {
        push(&mut bus, vec![ItemChange::Add { item: item(2), events: vec![] }], round);
        let newest = bus.feed()[0].seq;
        assert!(last.is_none() || last < Some(newest));
        last = Some(newest);
        if round == 120 {
            bus.clear_history();
        }
    }
    assert_eq!(last, Some(149));
    assert_eq!(bus.feed().len(), 29);
}

#[test]
fn taps_follow_the_switch() {
    let mut bus = bus();
    let (a, _) = bus.register("rooms", "q1", &widget());
    assert_eq!(bus.set_tapping(true), vec![Action::InstallTap(a)]);
    assert!(bus.tapping());
    let (b, tap) = bus.register("users", "q2", &widget());
    assert!(tap);
    assert_eq!(bus.set_tapping(true), vec![]);
    assert_eq!(bus.set_tapping(false), vec![Action::DropTap(a), Action::DropTap(b)]);
    assert_eq!(bus.set_tapping(false), vec![]);
    assert_eq!(bus.set_tapping(true), vec![Action::InstallTap(a), Action::InstallTap(b)]);
}

#[test]
fn changesets_are_counted_per_query() {
    let mut bus = bus();
    let (a, _) = bus.register("rooms", "q1", &widget());
    let (b, _) = bus.register("users", "q2", &widget());
    let changes = vec![ItemChange::Add { item: item(1), events: vec![] }];
    bus.on_changeset(a, "rooms", &widget(), &changes, 5);
    bus.on_changeset(a, "rooms", &widget(), &vec![], 6);
    bus.on_changeset(b, "users", &widget(), &changes, 7);
    let seen: Vec<u64> = bus.snapshot().into_iter().map(|q| q.changes_seen).collect();
    assert_eq!(seen, vec![2, 1]);
    let labels: Vec<&str> = bus.feed().iter().map(|r| r.query_label.as_str()).collect();
    assert_eq!(labels, vec!["users", "rooms"]);
}

#[test]
fn the_connection_log_narrates_transitions() {
    let mut bus = bus();
    assert_eq!(bus.conn_state(), "");
    assert!(!bus.start_connection_log(None, 1));
    assert_eq!(bus.conn_state(), "");
    assert!(!bus.conn_live());
    assert!(bus.start_connection_log(Some("Connecting"), 2));
    assert!(bus.conn_live());
    assert!(!bus.start_connection_log(Some("Closed"), 3));
    assert_eq!(bus.conn_state(), "Connecting");
    bus.push_conn("Connecting", 4);
    bus.push_conn("Connected", 5);
    bus.push_conn("Connected", 6);
    bus.push_conn("Closed", 7);
    assert_eq!(bus.conn_state(), "Closed");
    let log: Vec<(u64, &str)> = bus.conn_log().iter().map(|(t, l)| (*t, l.as_str())).collect();
    assert_eq!(log, vec![(7, "Closed"), (5, "Connected"), (2, "Connecting")]);
    assert!(bus.stop_connection_log());
    assert!(!bus.stop_connection_log());
}

#[test]
fn the_connection_log_is_bounded() {
    let mut bus = bus();
    for n in 0..60u64 {
        bus.push_conn(if n % 2 == 0 { "Connected" } else { "Closed" }, n);
    }
    assert_eq!(bus.conn_log().len(), CONN_LOG_CAP);
    assert_eq!(bus.conn_log()[0], (59, "Closed".to_string()));
    assert_eq!(bus.conn_log()[23], (36, "Connected".to_string()));
}

#[test]
fn turning_off_forgets_everything() {
    let (mut bus, mut st) = (bus(), state());
    let (a, _) = bus.register("rooms", "q1", &widget());
    let on = st.set_enabled(&mut bus, true, Some("Connected"), 1);
    assert_eq!(on, vec![Action::InstallTap(a), Action::SubscribeConnection, Action::StoreFlag]);
    push(&mut bus, vec![ItemChange::Add { item: item(1), events: vec![] }], 2);
    st.inspect = Some(InspectTarget { collection: widget(), entity_id: entity(1) });
    let off = st.set_enabled(&mut bus, false, Some("Connected"), 3);
    assert_eq!(off, vec![Action::DropTap(a), Action::DropConnection, Action::RemoveFlag]);
    assert!(!st.enabled && st.inspect.is_none());
    assert!(bus.feed().is_empty() && bus.conn_log().is_empty());
    assert_eq!(bus.snapshot().len(), 1);
}

#[test]
fn turning_on_twice_does_not_tap_again() {
    let (mut bus, mut st) = (bus(), state());
    bus.register("rooms", "q1", &widget());
    st.set_enabled(&mut bus, true, Some("Connected"), 1);
    let again = st.set_enabled(&mut bus, true, Some("Connected"), 2);
    assert_eq!(again, vec![Action::StoreFlag]);
    assert_eq!(bus.conn_log().len(), 1);
}

#[test]
fn a_connection_reported_later_is_subscribed_to() {
    let (mut bus, mut st) = (bus(), state());
    let (a, _) = bus.register("rooms", "q1", &widget());
    assert_eq!(
        st.set_enabled(&mut bus, true, None, 1),
        vec![Action::InstallTap(a), Action::StoreFlag],
    );
    assert_eq!(
        st.set_enabled(&mut bus, true, Some("Connected"), 2),
        vec![Action::SubscribeConnection, Action::StoreFlag],
    );
    assert_eq!(
        st.set_enabled(&mut bus, true, Some("Closed"), 3),
        vec![Action::StoreFlag],
    );
    assert_eq!(bus.conn_log().len(), 1);
}

#[test]
fn toggling_twice_gives_the_switch_back() {
    let (mut bus, mut st) = (bus(), state());
    assert_eq!(st.toggle(&mut bus, None, 1), vec![Action::StoreFlag]);
    assert!(st.enabled && bus.tapping());
    assert_eq!(st.toggle(&mut bus, None, 2), vec![Action::RemoveFlag]);
    assert!(!st.enabled && !bus.tapping());
}

#[test]
fn toggling_twice_keeps_the_queries_and_forgets_the_rest() {
    let (mut bus, mut st) = (bus(), state());
    st.set_enabled(&mut bus, true, Some("Connected"), 1);
    let (id, tap) = bus.register("widgets", "q1", &widget());
    assert!(tap);
    bus.on_changeset(id, "widgets", &widget(), &vec![ItemChange::Add { item: item(2), events: vec![] }], 2);
    st.open_inspector(&mut bus, widget(), entity(2), Some("Connected"), 3);
    let before = bus.snapshot();
    assert_eq!(
        st.toggle(&mut bus, Some("Connected"), 4),
        vec![Action::DropTap(id), Action::DropConnection, Action::RemoveFlag],
    );
    assert_eq!(
        st.toggle(&mut bus, Some("Connected"), 5),
        vec![Action::InstallTap(id), Action::SubscribeConnection, Action::StoreFlag],
    );
    assert!(st.enabled && st.inspect.is_none() && bus.tapping());
    assert_eq!(bus.snapshot(), before);
    assert_eq!(bus.feed().len(), 0);
    assert_eq!(bus.conn_log().len(), 1);
}

#[test]
fn opening_the_inspector_turns_xray_on() {
    let (mut bus, mut st) = (bus(), state());
    let actions = st.open_inspector(&mut bus, widget(), entity(1), None, 1);
    assert_eq!(actions, vec![Action::StoreFlag]);
    assert!(st.enabled && bus.tapping());
    assert_eq!(
        st.inspect,
        Some(InspectTarget { collection: widget(), entity_id: entity(1) }),
    );
    assert_eq!(st.open_inspector(&mut bus, widget(), entity(2), None, 2), vec![]);
    assert_eq!(st.inspect.as_ref().map(|t| t.entity_id), Some(entity(2)));
    st.close_inspector();
    assert!(st.inspect.is_none() && st.enabled);
}

#[test]
fn a_remount_picks_observation_up_where_it_was() {
    let (mut bus, mut st) = (bus(), state());
    let (a, _) = bus.register("rooms", "q1", &widget());
    st.set_enabled(&mut bus, true, Some("Connected"), 1);
    push(&mut bus, vec![ItemChange::Add { item: item(1), events: vec![] }], 2);
    assert_eq!(stop_observing(&mut bus), vec![Action::DropTap(a), Action::DropConnection]);
    assert!(st.enabled);
    assert_eq!(
        start_observing(&mut bus, Some("Connected"), 3),
        vec![Action::InstallTap(a), Action::SubscribeConnection],
    );
    assert_eq!((bus.feed().len(), bus.conn_log().len()), (1, 1));
    assert_eq!(observe(&mut bus, true, Some("Connected"), 4), vec![]);
    assert_eq!(
        observe(&mut bus, false, Some("Connected"), 5),
        vec![Action::DropTap(a), Action::DropConnection],
    );
}

#[test]
fn the_stored_flag_or_the_address_turns_xray_on() {
    assert!(initially_enabled(Some("1"), None));
    assert!(initially_enabled(None, Some("1")));
    assert!(!initially_enabled(Some("0"), Some("true")));
    assert!(!initially_enabled(None, None));
    let (mut bus, mut st) = (bus(), state());
    assert_eq!(st.restore(&mut bus, None, Some("0"), None, 1), vec![]);
    assert!(!st.enabled);
    assert_eq!(st.restore(&mut bus, Some("1"), None, None, 2), vec![Action::StoreFlag]);
    assert!(st.enabled);
    assert_eq!(st.restore(&mut bus, Some("1"), None, None, 3), vec![]);
}

#[test]
fn keys_are_recognized() {
    assert!(is_toggle_key(true, false, "KeyX"));
    assert!(!is_toggle_key(true, true, "KeyX"));
    assert!(!is_toggle_key(false, false, "KeyX"));
    assert!(!is_toggle_key(true, false, "KeyY"));
    assert!(is_close_key("Escape", false));
    assert!(!is_close_key("Escape", true));
    assert!(!is_close_key("Enter", false));
}

#[test]
fn a_feed_row_reads_well() {
    let mut bus = bus();
    push(
        &mut bus,
        vec![
            ItemChange::Initial { item: item(1) },
            ItemChange::Update {
                item: item(2),
                events: vec![attested(Clock::empty()), attested(head(3))],
            },
        ],
        1,
    );
    let initial = feed_row(&bus.feed()[0]);
    assert_eq!(initial.summary, "widget · 1 item(s)");
    assert_eq!((initial.target.is_none(), initial.title), (true, "Initial query load"));
    assert_eq!((initial.kind, initial.kind_class.as_str()), ("initial", "xrayKind xrayKind-initial"));
    assert_eq!(initial.head, None);
    let update = feed_row(&bus.feed()[1]);
    assert_eq!(update.summary, format!("widget/{}", entity(2).to_base64_short()));
    assert_eq!(
        update.target,
        Some(InspectTarget { collection: widget(), entity_id: entity(2) }),
    );
    assert_eq!((update.title, update.query.as_str()), ("Open in inspector", "widgets"));
    assert_eq!(update.head, Some(head(2).to_base64_short()));
    assert_eq!(update.events[0].parent, "creation");
    assert_eq!(update.events[1].parent, format!("← {}", head(3).to_base64_short()));
    assert_eq!(update.events[0].ops, "lww 5 B · 5 B");
    assert_eq!(update.events[0].id, attested(Clock::empty()).payload.id().to_base64());
    assert_eq!(feed_subtitle(), "Changesets from registered queries · newest first · last 100");
}

#[test]
fn an_event_without_operations_says_so() {
    let mut event = attested(Clock::empty());
    event.payload.operations = vec![];
    let mut bus = bus();
    push(&mut bus, vec![ItemChange::Add { item: item(1), events: vec![event] }], 1);
    assert_eq!(feed_row(&bus.feed()[0]).events[0].ops, "no ops");
}
