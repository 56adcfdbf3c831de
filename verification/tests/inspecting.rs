use ankurah_xray::bus::{bus, Item, ItemChange};
use ankurah_xray::dag::{layout, DagNodeInput};
use ankurah_xray::decode::OpBadge;
use ankurah_xray::event::{Attested, Event, Operations};
use ankurah_xray::ids::{Clock, CollectionId, EntityId, EventId};
use ankurah_xray::inspector::{
    describe, is_concurrent, newest_about, provenance_text, read_keys, selected_detail, tip_texts,
    unresolved_text, Drawer, Generations,
};
use ankurah_xray::walk::{
    on_dumped, on_fetched, on_head, on_opened, on_read_back, on_resolved, History, Phase, Step,
    Walk, FETCH_CAP,
};
use ankurah_xray::Resolved;

fn event(n: u16, parents: Vec<EventId>) -> Event {
    Event {
        collection: CollectionId::named("widget"),
        entity_id: EntityId { bytes: [1; 16] },
        operations: vec![Operations {
            backend: "lww".to_string(),
            diffs: vec![vec![(n / 256) as u8, (n % 256) as u8]],
        }],
        parent: Clock::new(parents),
    }
}

fn stored(event: Event, attestations: usize) -> Attested {
    Attested { payload: event, attestations }
}

/// A chain of `n` events, oldest first.
fn chain(n: u16) -> Vec<Event> {
    let mut events: Vec<Event> = vec![];
    for i in 0..n {
        let parents = events.last().map(|e| vec![e.id()]).unwrap_or_default();
        events.push(event(i, parents));
    }
    events
}

fn opened(resolved: Resolved) -> Walk {
    match on_resolved(Ok(resolved), true) {
        Step::OpenCollection(walk) => match on_opened(walk, Ok(()), true) {
            Step::DumpLocal(walk) => walk,
            step => panic!("{step:?}"),
        },
        step => panic!("{step:?}"),
    }
}

fn with_head(head: Clock) -> Resolved {
    let mut resolved = Resolved::default();
    resolved.head = Some(head);
    resolved
}

fn ready(step: Step) -> History {
    match step {
        Step::Done(Phase::Ready(history)) => history,
        step => panic!("{step:?}"),
    }
}

fn failed(step: Step) -> String {
    match step {
        Step::Done(Phase::Failed(text)) => text,
        step => panic!("{step:?}"),
    }
}

#[test]
fn a_history_that_is_all_local_needs_no_request() {
    let events = chain(3);
    let head = Clock::new(vec![events[2].id()]);
    let mut resolved = with_head(head.clone());
    resolved.values = vec![("slot".to_string(), "A7".to_string())];
    resolved.wrote_current = vec![(events[1].id(), vec!["slot".to_string()])];
    let ids: Vec<EventId> = events.iter().map(|e| e.id()).collect();
    let dump = events.into_iter().map(|e| stored(e, 1)).collect();
    let history = ready(on_dumped(opened(resolved), Ok(dump), true));
    assert_eq!(
        (history.total, history.local, history.fetched, history.unresolved),
        (3, 3, 0, 0),
    );
    assert_eq!(history.head, head);
    assert_eq!(history.current_state, vec![("slot".to_string(), "A7".to_string())]);
    assert_eq!(history.dag.nodes.len(), 3);
    assert_eq!(history.dag.dangling, 0);
    let middle = &history.dag.nodes[1].input;
    assert_eq!((middle.id, middle.attestations), (ids[1], Some(1)));
    assert_eq!(middle.wrote_current, vec!["slot".to_string()]);
    assert_eq!(provenance_text(&history), "3 events · all local");
    assert_eq!(unresolved_text(&history), None);
    assert_eq!(tip_texts(&history), vec![ids[2].to_base64_short()]);
    assert!(!is_concurrent(&history));
}

#[test]
fn missing_ancestors_are_fetched_one_by_one() {
    let events = chain(3);
    let ids: Vec<EventId> = events.iter().map(|e| e.id()).collect();
    let mut events = events.into_iter();
    let (first, second, third) = match (events.next(), events.next(), events.next()) {
        (Some(a), Some(b), Some(c)) => (a, b, c),
        _ => unreachable!(),
    };
    let walk = opened(with_head(Clock::new(vec![ids[2]])));
    let step = on_dumped(walk, Ok(vec![stored(third, 4)]), true);
    let walk = match step {
        Step::Fetch(walk, id) => {
            assert_eq!(id, ids[1]);
            walk
        }
        step => panic!("{step:?}"),
    };
    let walk = match on_fetched(walk, Ok(second), true) {
        Step::Fetch(walk, id) => {
            assert_eq!(id, ids[0]);
            walk
        }
        step => panic!("{step:?}"),
    };
    let walk = match on_fetched(walk, Ok(first), true) {
        Step::ReadBack(walk, fetched) => {
            assert_eq!(fetched, vec![ids[1], ids[0]]);
            walk
        }
        step => panic!("{step:?}"),
    };
    let history = ready(on_read_back(walk, Some(vec![stored(event(0, vec![]), 2)]), true));
    assert_eq!(
        (history.total, history.local, history.fetched, history.unresolved),
        (3, 1, 2, 0),
    );
    assert_eq!(history.total, history.local + history.fetched);
    let found: Vec<(Option<usize>, bool)> =
        history.dag.nodes.iter().map(|v| (v.input.attestations, v.input.fetched)).collect();
    assert_eq!(found, vec![(Some(2), true), (None, true), (Some(4), false)]);
    assert_eq!(provenance_text(&history), "3 events · 1 local · 2 fetched from peer");
}

#[test]
fn an_unavailable_ancestor_is_reported() {
    let events = chain(2);
    let missing = events[0].id();
    let walk = opened(with_head(Clock::empty()));
    let dump = events.into_iter().skip(1).map(|e| stored(e, 0)).collect();
    let walk = match on_dumped(walk, Ok(dump), true) {
        Step::Fetch(walk, id) => {
            assert_eq!(id, missing);
            walk
        }
        step => panic!("{step:?}"),
    };
    let history = ready(on_fetched(walk, Err("offline".to_string()), true));
    assert_eq!((history.total, history.unresolved, history.dag.dangling), (1, 1, 1));
    assert_eq!(unresolved_text(&history), Some(" · 1 ancestor(s) unavailable".to_string()));
}

#[test]
fn a_parent_shared_by_two_events_is_asked_for_once() {
    let root = event(0, vec![]).id();
    let dump =
        vec![stored(event(1, vec![root]), 0), stored(event(2, vec![root]), 0)];
    let walk = match on_dumped(opened(with_head(Clock::new(vec![root]))), Ok(dump), true) {
        Step::Fetch(walk, id) => {
            assert_eq!(id, root);
            walk
        }
        step => panic!("{step:?}"),
    };
    match on_fetched(walk, Ok(event(0, vec![])), true) {
        Step::ReadBack(walk, ids) => {
            assert_eq!(ids, vec![root]);
            let history = ready(on_read_back(walk, None, true));
            assert_eq!((history.total, history.fetched), (3, 1));
        }
        step => panic!("{step:?}"),
    }
}

#[test]
fn a_stored_head_is_read_where_none_was_resolved() {
    let events = chain(2);
    let ids: Vec<EventId> = events.iter().map(|e| e.id()).collect();
    let dump: Vec<Attested> = events.into_iter().map(|e| stored(e, 0)).collect();
    let walk = match on_dumped(opened(Resolved::default()), Ok(dump), true) {
        Step::ReadHead(walk) => walk,
        step => panic!("{step:?}"),
    };
    let history = ready(on_head(walk, Some(Clock::new(vec![ids[1]])), true));
    assert_eq!(history.head.to_vec(), vec![ids[1]]);
}

#[test]
fn without_any_head_the_tips_are_shown() {
    let root = event(0, vec![]);
    let id = root.id();
    let (left, right) = (event(1, vec![id]), event(2, vec![id]));
    let tips = Clock::new(vec![left.id(), right.id()]);
    let dump = vec![stored(left, 0), stored(root, 0), stored(right, 0)];
    let walk = match on_dumped(opened(Resolved::default()), Ok(dump), true) {
        Step::ReadHead(walk) => walk,
        step => panic!("{step:?}"),
    };
    let history = ready(on_head(walk, None, true));
    assert_eq!(history.head, tips);
    assert!(is_concurrent(&history));
}

#[test]
fn events_stored_twice_count_once() {
    let dump = vec![stored(event(0, vec![]), 1), stored(event(0, vec![]), 5)];
    let history = ready(on_dumped(opened(with_head(Clock::empty())), Ok(dump), true));
    assert_eq!((history.total, history.local), (1, 1));
    assert_eq!(history.dag.nodes[0].input.attestations, Some(5));
}

#[test]
fn the_walk_stops_at_the_cap() {
    let n = (FETCH_CAP + 1) as u16;
    let events = chain(n);
    let tip = events[FETCH_CAP].id();
    let oldest_known = events[1].id();
    let mut step = on_dumped(opened(with_head(Clock::new(vec![tip]))), Ok(vec![]), true);
    let mut asked = 0usize;
    let mut left = events;
    let history = loop {
        step = match step {
            Step::Fetch(walk, id) => {
                asked += 1;
                let event = match left.pop() {
                    Some(event) => event,
                    None => panic!("asked past the oldest event"),
                };
                assert_eq!(event.id(), id);
                on_fetched(walk, Ok(event), true)
            }
            Step::ReadBack(walk, ids) => {
                assert_eq!(ids.len(), FETCH_CAP);
                assert_eq!(ids[FETCH_CAP - 1], oldest_known);
                on_read_back(walk, None, true)
            }
            Step::Done(Phase::Ready(history)) => break history,
            step => panic!("{step:?}"),
        };
    };
    assert_eq!((asked, history.total, history.unresolved), (FETCH_CAP, FETCH_CAP, 1));
}

#[test]
fn failures_are_told_apart() {
    let complaint = || Err("boom".to_string());
    assert_eq!(failed(on_resolved(Err("boom".to_string()), true)), "Could not load entity: boom");
    let opening = match on_resolved(Ok(Resolved::default()), true) {
        Step::OpenCollection(walk) => walk,
        step => panic!("{step:?}"),
    };
    assert_eq!(
        failed(on_opened(opening, Err("boom".to_string()), true)),
        "Could not open collection: boom",
    );
    assert_eq!(
        failed(on_dumped(opened(Resolved::default()), complaint(), true)),
        "Local event dump failed: boom",
    );
    let walk = match on_dumped(opened(Resolved::default()), Ok(vec![]), true) {
        Step::ReadHead(walk) => walk,
        step => panic!("{step:?}"),
    };
    assert_eq!(
        failed(on_head(walk, None, true)),
        "No events found for this entity (nothing stored locally and no peer had it).",
    );
}

#[test]
fn a_refusal_ends_the_walk() {
    let mut resolved = Resolved::default();
    resolved.refusal = Some("deleted".to_string());
    assert_eq!(
        on_resolved(Ok(resolved), true),
        Step::Done(Phase::Refused("deleted".to_string())),
    );
}

#[test]
fn a_stranded_walk_stops_at_its_next_step() {
    let mut resolved = Resolved::default();
    resolved.refusal = Some("deleted".to_string());
    assert_eq!(on_resolved(Ok(resolved), false), Step::Stranded);
    assert_eq!(on_dumped(opened(Resolved::default()), Ok(vec![]), false), Step::Stranded);
    let walk = match on_dumped(opened(Resolved::default()), Ok(vec![]), true) {
        Step::ReadHead(walk) => walk,
        step => panic!("{step:?}"),
    };
    assert_eq!(on_head(walk, None, false), Step::Stranded);
    let tip = event(0, vec![]).id();
    let walk = match on_dumped(opened(with_head(Clock::new(vec![tip]))), Ok(vec![]), true) {
        Step::Fetch(walk, _) => walk,
        step => panic!("{step:?}"),
    };
    let parent = event(9, vec![]).id();
    assert_eq!(on_fetched(walk, Ok(event(0, vec![parent])), false), Step::Stranded);
    let walk = match on_dumped(opened(with_head(Clock::new(vec![tip]))), Ok(vec![]), true) {
        Step::Fetch(walk, _) => walk,
        step => panic!("{step:?}"),
    };
    match on_fetched(walk, Ok(event(0, vec![])), false) {
        Step::ReadBack(walk, _) => assert_eq!(on_read_back(walk, None, false), Step::Stranded),
        step => panic!("{step:?}"),
    }
}

fn history(tips: Vec<EventId>) -> History {
    let head = Clock::new(tips);
    History {
        dag: layout(vec![], &head),
        head,
        total: 0,
        local: 0,
        fetched: 0,
        unresolved: 0,
        current_state: vec![],
    }
}

fn id(n: u8) -> EventId {
    EventId { bytes: [n; 32] }
}

#[test]
fn claims_are_stranded_by_the_next_one() {
    let mut generations = Generations::new();
    let first = generations.claim();
    assert!(first.is_current(&generations));
    let second = generations.claim();
    assert!(!first.is_current(&generations) && second.is_current(&generations));
    generations.strand_all();
    assert!(!second.is_current(&generations));
}

#[test]
fn only_the_newest_walk_writes_into_the_drawer() {
    let (mut drawer, first) = Drawer::open();
    assert_eq!(drawer.phase, Phase::Loading);
    let second = drawer.refresh();
    drawer.land(&first, Some(Phase::Failed("late".to_string())));
    assert_eq!(drawer.phase, Phase::Loading);
    drawer.land(&second, None);
    assert_eq!(drawer.phase, Phase::Loading);
    drawer.land(&second, Some(Phase::Ready(history(vec![id(5), id(4)]))));
    assert_eq!(drawer.selected, Some(id(4)));
    drawer.select(id(5));
    let third = drawer.refresh();
    drawer.land(&third, Some(Phase::Ready(history(vec![id(6)]))));
    assert_eq!(drawer.selected, Some(id(5)));
    let fourth = drawer.retry();
    assert_eq!(drawer.phase, Phase::Loading);
    drawer.close();
    drawer.land(&fourth, Some(Phase::Failed("closed".to_string())));
    assert_eq!(drawer.phase, Phase::Loading);
}

#[test]
fn a_history_without_tips_selects_nothing() {
    let (mut drawer, claim) = Drawer::open();
    drawer.land(&claim, Some(Phase::Ready(history(vec![]))));
    assert_eq!(drawer.selected, None);
}

#[test]
fn news_in_the_feed_refreshes_a_shown_history() {
    let (mut drawer, claim) = Drawer::open();
    assert!(!drawer.on_feed(None));
    assert!(!drawer.on_feed(Some(3)));
    drawer.land(&claim, Some(Phase::Ready(history(vec![]))));
    assert!(!drawer.on_feed(Some(3)));
    assert!(drawer.on_feed(Some(4)));
    assert!(!drawer.on_feed(Some(2)));
    assert!(drawer.on_feed(Some(3)));
}

#[test]
fn the_newest_row_about_an_entity_is_found() {
    let mut bus = bus();
    let entity = |n: u8| EntityId { bytes: [n; 16] };
    let change = |n: u8| ItemChange::Add {
        item: Item { id: entity(n), head: Clock::empty() },
        events: vec![],
    };
    let widget = CollectionId::named("widget");
    bus.push_changeset("widgets", &widget, &vec![change(1), change(2), change(1), change(3)], 1);
    assert_eq!(newest_about(bus.feed(), &entity(1)), Some(2));
    assert_eq!(newest_about(bus.feed(), &entity(2)), Some(1));
    assert_eq!(newest_about(bus.feed(), &entity(9)), None);
}

#[test]
fn an_event_is_described_in_detail() {
    let input = |parents: Vec<EventId>, attestations: Option<usize>, fetched: bool| DagNodeInput {
        id: id(7),
        parent: Clock::new(parents),
        badges: vec![OpBadge {
            backend: "yrs".to_string(),
            summary: "+12 \u{2212}3".to_string(),
            op_count: 2,
            bytes: 40,
        }],
        attestations,
        fetched,
        wrote_current: vec!["slot".to_string(), "size".to_string()],
    };
    let detail = describe(&input(vec![id(1)], Some(0), true));
    assert_eq!(detail.event, id(7).to_base64());
    assert_eq!(detail.parents, vec![(id(1).to_base64(), id(1).to_base64_short())]);
    assert_eq!(
        detail.ops,
        vec![("yrs".to_string(), " +12 \u{2212}3 · 2 op(s) · 40 B".to_string())],
    );
    assert_eq!(detail.attested, "0 (no attestations recorded)");
    assert_eq!(detail.source, "fetched via host");
    assert_eq!(
        detail.wrote_current,
        Some("slot, size (LWW values still standing)".to_string()),
    );
    assert_eq!(describe(&input(vec![], Some(3), false)).attested, "3");
    assert_eq!(describe(&input(vec![], Some(3), false)).source, "local storage");
    assert_eq!(
        describe(&input(vec![], None, true)).attested,
        "unknown (payload fetched without attestations)",
    );
    let mut plain = input(vec![], None, true);
    plain.wrote_current = vec![];
    assert_eq!(describe(&plain).wrote_current, None);
}

#[test]
fn only_a_drawn_selection_has_a_detail() {
    let input = DagNodeInput {
        id: id(7),
        parent: Clock::empty(),
        badges: vec![],
        attestations: None,
        fetched: false,
        wrote_current: vec![],
    };
    let dag = layout(vec![input], &Clock::empty());
    assert_eq!(selected_detail(&dag, None), None);
    assert_eq!(selected_detail(&dag, Some(id(8))), None);
    assert_eq!(selected_detail(&dag, Some(id(7))).map(|d| d.event), Some(id(7).to_base64()));
}

#[test]
fn stored_keys_are_read_in_order() {
    let key = |n: u8| Some(id(n).to_base64());
    assert_eq!(read_keys(&vec![]), Ok(vec![]));
    assert_eq!(read_keys(&vec![key(2), key(1)]), Ok(vec![id(2), id(1)]));
    assert_eq!(
        read_keys(&vec![key(2), None, Some("!".to_string())]),
        Err("event key was not a string".to_string()),
    );
    let complaint = match EventId::from_base64("!") {
        Ok(_) => unreachable!(),
        Err(complaint) => complaint,
    };
    assert_eq!(
        read_keys(&vec![Some("!".to_string()), None]),
        Err(format!("bad event id: {complaint}")),
    );
}
