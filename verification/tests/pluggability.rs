//! An application that the panel was never written for: it installs itself, turns
//! x-ray on, registers a query, and is torn down again.

use ankurah_xray::bus::{bus, Action, Item, ItemChange};
use ankurah_xray::host::{Installed, NodeStatus};
use ankurah_xray::ids::{Clock, CollectionId, EntityId, EventId};
use ankurah_xray::system_panel::{node_chips, status_text};
use ankurah_xray::walk::{on_resolved, Step};
use ankurah_xray::{is_installed, lww_provenance, state, InstallError, Resolved, XRay};

struct WidgetHost;

impl WidgetHost {
    fn resolve(&self, collection: &CollectionId, entity: &ankurah::entity::Entity) -> Resolved {
        if *collection != CollectionId::named("widget") {
            return Resolved::default();
        }
        Resolved {
            head: Some(Clock::new(vec![EventId { bytes: [1; 32] }])),
            values: vec![
                ("label".to_string(), "left flange".to_string()),
                ("slot".to_string(), "A7".to_string()),
            ],
            wrote_current: lww_provenance(entity, &["slot"]),
            refusal: None,
        }
    }

    fn node_status(&self) -> NodeStatus {
        NodeStatus {
            durable: Some(true),
            policy_ready: None,
            system_ready: Some(true),
            system_root_head: None,
        }
    }
}

/// A widget whose slot was written by the event of that byte.
fn widget(writer: u8) -> ankurah::entity::Entity {
    let entity = ankurah::entity::Entity::create(
        ankurah::proto::EntityId::from_bytes([7; 16]),
        ankurah::proto::CollectionId::from("widget"),
    );
    let written = ankurah::core::property::backend::LWWBackend::new();
    let value = ankurah::core::value::Value::String("A7".to_string());
    written.set("slot".to_string(), Some(value));
    let operations = match ankurah::core::property::backend::PropertyBackend::to_operations(&written) {
        Ok(Some(operations)) => operations,
        _ => panic!("no operations"),
    };
    match entity.get_backend::<ankurah::core::property::backend::LWWBackend>() {
        Ok(backend) => {
            let id = ankurah::proto::EventId::from_bytes([writer; 32]);
            let applied = ankurah::core::property::backend::PropertyBackend::apply_operations_with_event(
                &*backend,
                &operations,
                id,
            );
            assert!(applied.is_ok());
        }
        Err(_) => panic!("no backend"),
    }
    entity
}

#[test]
fn panel_runs_against_a_foreign_app() {
    let entity = widget(3);
    let collection = CollectionId::named("widget");

    let mut slot: Option<Installed<WidgetHost, ()>> = None;
    assert!(!is_installed(&slot), "nothing should be installed before the app installs itself");
    assert_eq!(XRay::new(WidgetHost).install(&mut slot), Ok(()));
    assert!(is_installed(&slot));
    assert_eq!(
        XRay::new(WidgetHost).install(&mut slot),
        Err(InstallError),
        "a second installation is rejected whole rather than replacing the first",
    );

    let (mut bus, mut st) = (bus(), state());
    st.set_enabled(&mut bus, true, None, 1);
    assert!(st.enabled);

    let (registration, tap) = bus.register("widgets (test app)", "query-1", &collection);
    assert!(tap, "the tap goes in as the query is registered");
    let snapshot = bus.snapshot();
    assert_eq!(snapshot.len(), 1, "the app's query should be the only registry entry");
    assert_eq!(snapshot[0].label, "widgets (test app)");
    assert_eq!(snapshot[0].collection, collection);
    assert_eq!(snapshot[0].query_id, "query-1");

    let loaded = |n: u8| ItemChange::Initial {
        item: Item { id: EntityId { bytes: [n; 16] }, head: Clock::empty() },
    };
    let changes = vec![loaded(1), loaded(2)];
    bus.on_changeset(registration, "widgets (test app)", &collection, &changes, 2);
    let rows = bus.feed();
    assert!(!rows.is_empty(), "the changeset tap should have produced at least one feed row");
    assert!(rows.iter().all(|r| r.query_label == "widgets (test app)"));
    assert!(
        rows.iter().any(|r| r.kind == "initial" && r.count == 2),
        "both widgets should appear in the initial batch: {rows:?}",
    );

    let host = match &slot {
        Some(installed) => &installed.host,
        None => panic!("not installed"),
    };
    let resolved = host.resolve(&collection, &entity);
    assert_eq!(
        resolved.values,
        vec![
            ("label".to_string(), "left flange".to_string()),
            ("slot".to_string(), "A7".to_string()),
        ],
    );
    assert!(resolved.head.is_some(), "the app knows the entity's authoritative head");
    assert!(resolved.refusal.is_none());
    assert!(
        resolved.wrote_current.iter().any(|(_, props)| props.iter().any(|p| p == "slot")),
        "the creating event should be recorded as the writer of the current `slot` value",
    );
    assert_eq!(
        resolved.wrote_current,
        vec![(EventId { bytes: [3; 32] }, vec!["slot".to_string()])],
    );

    let unknown = host.resolve(&CollectionId::named("sprocket"), &entity);
    assert_eq!(unknown, Resolved::default());
    assert!(matches!(on_resolved(Ok(unknown), true), Step::OpenCollection(_)));

    let chips: Vec<&str> = node_chips(&host.node_status()).iter().map(|c| c.text).collect();
    assert!(chips.contains(&"durable"), "node card shows the role the host reported");
    assert!(
        !chips.contains(&"policy syncing…"),
        "a host reporting no policy state should render no policy chip",
    );
    assert_eq!(status_text(bus.conn_state()), "not reported");

    bus.unregister(registration);
    assert!(bus.snapshot().is_empty(), "the owner's cleanup released the registration");
    let actions = st.set_enabled(&mut bus, false, None, 3);
    assert_eq!(actions, vec![Action::RemoveFlag]);
    assert!(bus.feed().is_empty(), "disabling drops accumulated observations");
}
