use ankurah_xray::env::{clock_hms, hms_text};
use ankurah_xray::event::{Event, Operations};
use ankurah_xray::ids::{Clock, CollectionId, EntityId, EventId};
use ankurah_xray::text::{
    decimal_text, is_white_space, join, same_text, trimmed, two_digits_text,
};

fn event(n: u8) -> EventId {
    EventId { bytes: [n; 32] }
}

#[test]
fn event_ids_read_back_what_they_write() {
    let id = event(0);
    assert_eq!(id.to_base64(), "A".repeat(43));
    assert_eq!(id.to_base64_short(), "AAAAAA");
    assert_eq!(EventId::from_base64(&id.to_base64()), Ok(id));
    let mut bytes = [0u8; 32];
    bytes[31] = 255;
    let id = EventId { bytes };
    assert_eq!(id.to_base64_short(), "AAAAP8");
    assert_eq!(id.to_base64(), ankurah::proto::EventId::from_bytes(bytes).to_base64());
    assert_eq!(EventId::from_base64(&id.to_base64()), Ok(id));
}

#[test]
fn entity_ids_read_back_what_they_write() {
    let id = EntityId { bytes: [255; 16] };
    assert_eq!(id.to_base64(), "_____________________w");
    assert_eq!(id.to_base64_short(), "_____w");
    assert_eq!(EntityId::from_base64("_____________________w"), Ok(id));
    assert_eq!(id.to_base64(), ankurah::proto::EntityId::from_bytes([255; 16]).to_base64());
}

#[test]
fn ids_are_written_in_url_safe_letters() {
    let mut bytes = [0u8; 16];
    for (i, byte) in bytes.iter_mut().enumerate() {
        *byte = i as u8;
    }
    assert_eq!(EntityId { bytes }.to_base64(), "AAECAwQFBgcICQoLDA0ODw");
    assert_eq!(EventId { bytes: [0xfb; 32] }.to_base64(), "-_v7-_v7-_v7-_v7-_v7-_v7-_v7-_v7-_v7-_v7-_s");
}

#[test]
fn white_space_is_what_the_standard_library_takes_for_it() {
    for c in '\u{0}'..='\u{10ffff}' {
        assert_eq!(is_white_space(c), c.is_whitespace());
    }
}

#[test]
fn malformed_ids_are_complained_about() {
    let complaint = match ankurah::proto::EntityId::from_base64("!") {
        Ok(_) => unreachable!(),
        Err(e) => e.to_string(),
    };
    assert_eq!(EntityId::from_base64("!"), Err(complaint));
    let complaint = match ankurah::proto::EventId::from_base64("AAAA") {
        Ok(_) => unreachable!(),
        Err(e) => e.to_string(),
    };
    assert_eq!(EventId::from_base64("AAAA"), Err(complaint));
}

#[test]
fn ids_are_ordered_by_bytes() {
    assert!(event(1).comes_before(&event(2)));
    assert!(!event(2).comes_before(&event(1)));
    assert!(!event(2).comes_before(&event(2)));
    let mut bytes = [1u8; 32];
    bytes[31] = 0;
    assert!(EventId { bytes }.comes_before(&event(1)));
    assert!(event(3).same(&event(3)));
    assert!(!event(3).same(&event(4)));
}

#[test]
fn clocks_are_sorted_sets() {
    let clock = Clock::new(vec![event(3), event(1), event(3), event(2)]);
    assert_eq!(clock.to_vec(), vec![event(1), event(2), event(3)]);
    assert_eq!(clock.len(), 3);
    assert!(clock.contains(&event(2)));
    assert!(!clock.contains(&event(4)));
    assert!(Clock::empty().is_empty());
    assert_eq!(Clock::empty().to_base64_short(), "[]");
    assert_eq!(
        Clock::new(vec![event(0), event(255)]).to_base64_short(),
        format!("[AAAAAA,{}]", event(255).to_base64_short()),
    );
    let proto = ankurah::proto::Clock::new(vec![
        ankurah::proto::EventId::from_bytes([9; 32]),
        ankurah::proto::EventId::from_bytes([7; 32]),
    ]);
    assert_eq!(Clock::new(vec![event(9), event(7)]).to_base64_short(), proto.to_base64_short());
}

#[test]
fn an_event_id_is_the_hash_of_its_content() {
    let parts = |parent: Vec<EventId>, backend: &str| Event {
        collection: CollectionId::named("widget"),
        entity_id: EntityId { bytes: [5; 16] },
        operations: vec![Operations { backend: backend.to_string(), diffs: vec![vec![1, 2, 3]] }],
        parent: Clock::new(parent),
    };
    let mut operations = std::collections::BTreeMap::new();
    operations.insert("lww".to_string(), vec![ankurah::proto::Operation { diff: vec![1, 2, 3] }]);
    let expected = ankurah::proto::EventId::from_parts(
        &ankurah::proto::EntityId::from_bytes([5; 16]),
        &ankurah::proto::OperationSet(operations),
        &ankurah::proto::Clock::new(vec![ankurah::proto::EventId::from_bytes([8; 32])]),
    )
    .to_bytes();
    assert_eq!(parts(vec![event(8)], "lww").id().bytes, expected);
    assert_ne!(parts(vec![event(9)], "lww").id().bytes, expected);
    assert_ne!(parts(vec![event(8)], "yrs").id().bytes, expected);
}

#[test]
fn numbers_are_written_in_decimal() {
    assert_eq!(decimal_text(0), "0");
    assert_eq!(decimal_text(1234567890), "1234567890");
    assert_eq!(decimal_text(u128::MAX), u128::MAX.to_string());
    assert_eq!(two_digits_text(7), "07");
    assert_eq!(two_digits_text(10), "10");
    assert_eq!(two_digits_text(123), "123");
}

#[test]
fn texts_are_joined_compared_and_trimmed() {
    assert_eq!(join(&vec![], ", "), "");
    assert_eq!(join(&vec!["a".to_string()], ", "), "a");
    assert_eq!(join(&vec!["a".to_string(), "".to_string(), "b".to_string()], ", "), "a, , b");
    assert!(same_text("yrs", "yrs"));
    assert!(!same_text("yrs", "lww"));
    assert_eq!(trimmed(" \t\u{2003}abc d\u{a0}\n"), "abc d");
    assert_eq!(trimmed(" \n "), "");
    assert_eq!(trimmed("x"), "x");
}

#[test]
fn times_are_written_as_hours_minutes_seconds() {
    assert_eq!(clock_hms(0), "00:00:00");
    assert_eq!(clock_hms(((15 * 60 + 4) * 60 + 7) * 1000 + 999), "15:04:07");
    assert_eq!(clock_hms((24 * 3600 + 59) * 1000), "00:00:59");
    assert_eq!(hms_text(3, 14, 15), "03:14:15");
}
