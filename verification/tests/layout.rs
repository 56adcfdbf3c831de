use ankurah_xray::dag::{layout, DagModel, DagNodeInput};
use ankurah_xray::dag_view::{node_title, note_text, summary_line, transform_text, view_box};
use ankurah_xray::decode::OpBadge;
use ankurah_xray::ids::{Clock, EventId};

fn id(n: u16) -> EventId {
    let mut bytes = [0u8; 32];
    bytes[0] = (n / 256) as u8;
    bytes[1] = (n % 256) as u8;
    EventId { bytes }
}

fn clock(ids: &[u16]) -> Clock {
    Clock::new(ids.iter().map(|n| id(*n)).collect())
}

fn node(n: u16, parents: &[u16]) -> DagNodeInput {
    DagNodeInput {
        id: id(n),
        parent: clock(parents),
        badges: vec![],
        attestations: Some(0),
        fetched: false,
        wrote_current: vec![],
    }
}

fn at(model: &DagModel, n: u16) -> (u128, u128) {
    match model.nodes.iter().find(|v| v.input.id == id(n)) {
        Some(v) => (v.x, v.y),
        None => panic!("event {n} is not drawn"),
    }
}

#[test]
fn an_empty_history_has_an_empty_picture() {
    let model = layout(vec![], &Clock::empty());
    assert_eq!((model.nodes.len(), model.edges.len()), (0, 0));
    assert_eq!((model.width, model.height, model.omitted, model.dangling), (0, 0, 0, 0));
    assert_eq!(note_text(&model), None);
    assert_eq!(model, DagModel::default());
}

#[test]
fn a_chain_runs_to_the_right() {
    let model = layout(vec![node(2, &[1]), node(3, &[2]), node(1, &[])], &clock(&[3]));
    assert_eq!((at(&model, 1), at(&model, 2), at(&model, 3)), ((40, 34), (132, 34), (224, 34)));
    assert_eq!((model.width, model.height), (264, 82));
    assert_eq!(model.edges.len(), 2);
    assert_eq!((model.edges[0].from, model.edges[0].to), (id(1), id(2)));
    assert_eq!(model.edges[0].path, "M 40.0 34.0 C 86.0 34.0, 86.0 34.0, 132.0 34.0");
    let flags: Vec<(bool, bool)> = model.nodes.iter().map(|v| (v.is_create, v.is_tip)).collect();
    assert_eq!(flags, vec![(true, false), (false, false), (false, true)]);
    assert_eq!(model.nodes[0].short, id(1).to_base64_short());
    assert_eq!(view_box(&model), "0 0 264 82");
    assert_eq!(transform_text(&model.nodes[1]), "translate(132.0,34.0)");
}

#[test]
fn forks_take_fresh_lanes_and_merges_join_the_smallest() {
    let model =
        layout(vec![node(1, &[]), node(2, &[1]), node(3, &[1]), node(4, &[2, 3])], &clock(&[4]));
    let (a, b) = (at(&model, 2), at(&model, 3));
    assert_eq!((a.0, b.0), (132, 132));
    assert_eq!(a.1.min(b.1), 34);
    assert_eq!(a.1.max(b.1), 82);
    assert_eq!(at(&model, 4), (224, 34));
    assert_eq!(model.edges.len(), 4);
    assert_eq!(model.height, 34 * 2 + 48 + 14);
}

#[test]
fn the_layer_is_the_longest_path() {
    let model = layout(
        vec![node(1, &[]), node(2, &[1]), node(3, &[2]), node(4, &[1, 3])],
        &clock(&[4]),
    );
    assert_eq!(at(&model, 4).0, 40 + 3 * 92);
}

#[test]
fn the_listing_order_does_not_matter() {
    let forth = layout(vec![node(1, &[]), node(2, &[1]), node(3, &[1])], &clock(&[2, 3]));
    let back = layout(vec![node(3, &[1]), node(2, &[1]), node(1, &[])], &clock(&[2, 3]));
    assert_eq!(forth, back);
}

#[test]
fn missing_parents_are_counted() {
    let model = layout(vec![node(2, &[1]), node(3, &[2, 9])], &clock(&[3]));
    assert_eq!(model.dangling, 2);
    assert_eq!(model.nodes.len(), 2);
    assert!(!model.nodes[0].is_create);
    assert_eq!(
        note_text(&model),
        Some("2 parent reference(s) not fetched (older history).".to_string()),
    );
}

#[test]
fn cycles_are_omitted() {
    let model = layout(vec![node(1, &[]), node(2, &[3]), node(3, &[2])], &clock(&[3]));
    assert_eq!((model.nodes.len(), model.omitted), (1, 2));
    assert_eq!(note_text(&model), Some("2 older events not rendered. ".to_string()));
}

#[test]
fn only_the_newest_layers_of_a_long_history_are_drawn() {
    let mut nodes = vec![node(0, &[])];
    for n in 1..250 {
        nodes.push(node(n, &[n - 1]));
    }
    let model = layout(nodes, &clock(&[249]));
    assert_eq!((model.nodes.len(), model.omitted), (200, 50));
    assert_eq!(at(&model, 50), (40, 34));
    assert_eq!(at(&model, 249), (40 + 199 * 92, 34));
    assert_eq!(model.edges.len(), 199);
    assert_eq!(model.dangling, 0);
}

#[test]
fn no_two_events_share_a_place_and_none_is_lost() {
    let mut nodes = vec![node(0, &[])];
    for n in 1..40 {
        nodes.push(node(n, &[n / 2, n / 3]));
    }
    let model = layout(nodes, &clock(&[39]));
    assert_eq!(model.nodes.len() + model.omitted, 40);
    for (i, a) in model.nodes.iter().enumerate() {
        for b in &model.nodes[i + 1..] {
            assert_ne!((a.x, a.y), (b.x, b.y));
        }
    }
    for edge in &model.edges {
        let x = |id: EventId| model.nodes.iter().find(|v| v.input.id == id).map(|v| v.x);
        assert!(x(edge.from) < x(edge.to));
    }
}

#[test]
fn a_drawn_event_says_what_it_did() {
    let mut input = node(7, &[]);
    assert_eq!(
        node_title(&input),
        format!("{}\nparents: (none — creation event)\n", id(7).to_base64()),
    );
    assert_eq!(summary_line(&input), "");
    let badge = |backend: &str, summary: &str, bytes: usize| OpBadge {
        backend: backend.to_string(),
        summary: summary.to_string(),
        op_count: 1,
        bytes,
    };
    input.badges = vec![badge("lww", "41 B", 41), badge("yrs", "+3", 20)];
    input.parent = clock(&[1, 2]);
    assert_eq!(
        node_title(&input),
        format!(
            "{}\nparents: {}\nlww 41 B (41 B) · yrs +3 (20 B)",
            id(7).to_base64(),
            clock(&[1, 2]).to_base64_short(),
        ),
    );
    assert_eq!(summary_line(&input), "41 B +3");
}

#[test]
fn both_notes_stand_side_by_side() {
    let model = layout(vec![node(1, &[8]), node(2, &[3]), node(3, &[2])], &clock(&[3]));
    assert_eq!(
        note_text(&model),
        Some("2 older events not rendered. 1 parent reference(s) not fetched (older history).".to_string()),
    );
}
