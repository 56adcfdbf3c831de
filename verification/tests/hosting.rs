use ankurah::entity::Entity;
use ankurah_xray::host::{connection, provenance, Installed};
use ankurah_xray::ids::{EntityId, EventId};
use ankurah_xray::system_panel::{
    cache_text, changesets_text, error_text, first_collection, is_submit_key, loaded_text,
    node_chips, results_text, selection_text, starts_drag, status_class, status_text, submit,
    Submission,
};
use ankurah_xray::{is_installed, lww_provenance, InstallError, NodeStatus, Resolved, XRay};

fn event(n: u8) -> EventId {
    EventId { bytes: [n; 32] }
}

/// An entity whose properties were written by the given events.
fn entity(writes: &[(&str, u8)]) -> Entity {
    let entity = Entity::create(
        ankurah::proto::EntityId::from_bytes([1; 16]),
        ankurah::proto::CollectionId::from("widget"),
    );
    let backend = match entity.get_backend::<ankurah::core::property::backend::LWWBackend>() {
        Ok(backend) => backend,
        Err(_) => panic!("no backend"),
    };
    for (prop, writer) in writes {
        let scratch = ankurah::core::property::backend::LWWBackend::new();
        let value = ankurah::core::value::Value::String("A7".to_string());
        scratch.set(prop.to_string(), Some(value));
        let operations = match ankurah::core::property::backend::PropertyBackend::to_operations(&scratch) {
            Ok(Some(operations)) => operations,
            _ => panic!("no operations"),
        };
        let id = ankurah::proto::EventId::from_bytes([*writer; 32]);
        let applied = ankurah::core::property::backend::PropertyBackend::apply_operations_with_event(
            &*backend,
            &operations,
            id,
        );
        assert!(applied.is_ok());
    }
    entity
}

#[test]
fn current_values_are_traced_to_their_writers() {
    let entity = entity(&[("slot", 1), ("label", 2), ("size", 1), ("label", 3)]);
    let map = lww_provenance(&entity, &["slot", "missing", "label", "size"]);
    assert_eq!(
        map,
        vec![
            (event(1), vec!["slot".to_string(), "size".to_string()]),
            (event(3), vec!["label".to_string()]),
        ],
    );
}

#[test]
fn an_untouched_entity_has_no_provenance() {
    assert_eq!(lww_provenance(&entity(&[]), &["slot"]), vec![]);
    assert_eq!(lww_provenance(&entity(&[("slot", 1)]), &[]), vec![]);
}

#[test]
fn properties_are_grouped_by_writer() {
    let writers = vec![Some(event(2)), None, Some(event(1)), Some(event(2))];
    assert_eq!(
        provenance(&["a", "b", "c", "d"], &writers),
        vec![
            (event(2), vec!["a".to_string(), "d".to_string()]),
            (event(1), vec!["c".to_string()]),
        ],
    );
}

#[test]
fn the_first_installation_wins() {
    let mut slot: Option<Installed<&str, u8>> = None;
    assert!(!is_installed(&slot));
    assert!(connection(&slot).is_none());
    assert_eq!(XRay::new("first").connection(7u8, "ws://here".to_string()).install(&mut slot), Ok(()));
    assert!(is_installed(&slot));
    let rejected = XRay::new("second").install(&mut slot);
    assert_eq!(rejected, Err(InstallError));
    assert_eq!(slot.as_ref().map(|i| i.host), Some("first"));
    assert_eq!(connection(&slot), Some(&(7u8, "ws://here".to_string())));
    assert_eq!(
        InstallError.message(),
        "ankurah_xray: an x-ray installation already exists (process-global singleton; the first call wins)",
    );
}

#[test]
fn nothing_is_known_by_default() {
    let resolved = Resolved::default();
    assert!(resolved.head.is_none() && resolved.refusal.is_none());
    assert!(resolved.values.is_empty() && resolved.wrote_current.is_empty());
    assert_eq!(node_chips(&NodeStatus::default()), vec![]);
}

#[test]
fn the_node_card_shows_what_was_reported() {
    let status = NodeStatus {
        durable: Some(true),
        policy_ready: Some(false),
        system_ready: Some(true),
        system_root_head: None,
    };
    let chips: Vec<(&str, bool)> = node_chips(&status).iter().map(|c| (c.text, c.ok)).collect();
    assert_eq!(
        chips,
        vec![("durable", false), ("policy syncing…", false), ("system ready", true)],
    );
    let status = NodeStatus {
        durable: Some(false),
        policy_ready: Some(true),
        system_ready: Some(false),
        system_root_head: None,
    };
    let chips: Vec<(&str, bool)> = node_chips(&status).iter().map(|c| (c.text, c.ok)).collect();
    assert_eq!(
        chips,
        vec![("ephemeral", false), ("policy ready", true), ("joining system…", false)],
    );
}

#[test]
fn submitted_ids_are_trimmed_and_read() {
    assert_eq!(submit(""), Submission::Nothing);
    assert_eq!(submit(" \n\t"), Submission::Nothing);
    let id = EntityId { bytes: [9; 16] };
    assert_eq!(submit(&format!("  {}\n", id.to_base64())), Submission::Open(id));
    let complaint = match ankurah::proto::EntityId::from_base64("nope!") {
        Ok(_) => unreachable!(),
        Err(e) => e.to_string(),
    };
    assert_eq!(
        submit(" nope! "),
        Submission::Invalid(format!("not a valid entity id: {complaint}")),
    );
}

#[test]
fn the_cards_say_what_they_know() {
    assert_eq!(first_collection(&vec!["room".to_string(), "user".to_string()]), "room");
    assert_eq!(first_collection(&vec![]), "");
    assert_eq!(cache_text(&None), "counting…");
    assert_eq!(cache_text(&Some(Ok((12, 345)))), "12 entities · 345 events");
    assert_eq!(cache_text(&Some(Err("blocked".to_string()))), "unavailable");
    assert_eq!(status_text(""), "not reported");
    assert_eq!(status_text("Connected"), "Connected");
    assert_eq!(status_class("Connected"), "xrayConnState xrayConnOk");
    assert_eq!(status_class("Closed"), "xrayConnState xrayConnBad");
    assert_eq!(status_class("Error"), "xrayConnState xrayConnBad");
    assert_eq!(status_class("Connecting"), "xrayConnState");
    assert_eq!(selection_text("true", 3), "true · v3");
    assert_eq!(results_text(2), "2 results");
    assert_eq!(changesets_text(41), "41 changesets");
    assert_eq!((loaded_text(true), loaded_text(false)), ("loaded", "loading…"));
    assert_eq!(error_text("offline"), "error: offline");
}

#[test]
fn the_panel_knows_its_keys_and_buttons() {
    assert!(is_submit_key("Enter"));
    assert!(!is_submit_key("Escape"));
    assert!(starts_drag(0, false));
    assert!(!starts_drag(0, true));
    assert!(!starts_drag(2, false));
}
