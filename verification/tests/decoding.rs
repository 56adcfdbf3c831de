use ankurah_xray::decode::{delta_summary_text, op_badges, ranges_total, yrs_delta, OpBadge};
use ankurah_xray::event::{Event, Operations};
use ankurah_xray::ids::{Clock, CollectionId, EntityId};
use yrs::{
    Any, Array, Doc, MapPrelim, ReadTxn, StateVector, Text, TextPrelim, Transact, Xml,
    XmlElementPrelim, XmlFragment, XmlTextPrelim,
};

fn event(operations: Vec<Operations>) -> Event {
    Event {
        collection: CollectionId::named("widget"),
        entity_id: EntityId { bytes: [1; 16] },
        operations,
        parent: Clock::empty(),
    }
}

/// "left flange" written at once, and then "left" removed again.
fn diffs() -> (Vec<u8>, Vec<u8>) {
    let doc = Doc::new();
    let text = doc.get_or_insert_text("label");
    let first = {
        let mut trx = doc.transact_mut();
        text.insert(&mut trx, 0, "left flange");
        trx.encode_update_v2()
    };
    let second = {
        let mut trx = doc.transact_mut();
        text.remove_range(&mut trx, 0, 4);
        trx.encode_update_v2()
    };
    (first, second)
}

#[test]
fn yrs_diffs_are_decoded() {
    let (first, second) = diffs();
    assert_eq!(yrs_delta(&first), Some((11, 0)));
    assert_eq!(yrs_delta(&second), Some((0, 4)));
}

#[test]
fn what_is_inserted_and_deleted_counts_on_both_sides() {
    let doc = Doc::new();
    let text = doc.get_or_insert_text("label");
    {
        let mut trx = doc.transact_mut();
        text.insert(&mut trx, 0, "abcdef");
        text.remove_range(&mut trx, 1, 2);
    }
    let all = doc.transact().encode_state_as_update_v2(&StateVector::default());
    assert_eq!(yrs_delta(&all), Some((6, 2)));
}

#[test]
fn what_is_no_diff_has_no_delta() {
    assert_eq!(yrs_delta(&[]), None);
    assert_eq!(yrs_delta(&[1, 2, 3]), None);
    assert_eq!(yrs_delta(&[0, 255, 255, 255]), None);
    let (first, _) = diffs();
    assert_eq!(yrs_delta(&first[..first.len() / 2]), None);
}

#[test]
fn ranges_add_up_in_any_order() {
    assert_eq!(ranges_total(&vec![]), 0);
    assert_eq!(ranges_total(&vec![(0, 3), (10, 11)]), 4);
    assert_eq!(ranges_total(&vec![(10, 11), (0, 3)]), 4);
    assert_eq!(ranges_total(&vec![(u32::MAX, 1)]), 2);
}

#[test]
fn deltas_are_put_in_words() {
    assert_eq!(delta_summary_text(0, 0, 41), "41 B");
    assert_eq!(delta_summary_text(12, 0, 41), "+12");
    assert_eq!(delta_summary_text(0, 3, 41), "\u{2212}3");
    assert_eq!(delta_summary_text(12, 3, 41), "+12 \u{2212}3");
}

#[test]
fn every_backend_gets_a_badge() {
    let (first, second) = diffs();
    let bytes = first.len() + second.len() + 1;
    let badges = op_badges(&event(vec![
        Operations { backend: "lww".to_string(), diffs: vec![vec![0; 40], vec![7]] },
        Operations { backend: "yrs".to_string(), diffs: vec![first, vec![9], second] },
        Operations { backend: "yrs".to_string(), diffs: vec![vec![1, 2]] },
    ]));
    let badge = |backend: &str, summary: &str, op_count: usize, bytes: usize| OpBadge {
        backend: backend.to_string(),
        summary: summary.to_string(),
        op_count,
        bytes,
    };
    assert_eq!(
        badges,
        vec![
            badge("lww", "41 B", 2, 41),
            badge("yrs", "+11 \u{2212}4", 3, bytes),
            badge("yrs", "2 B", 1, 2),
        ],
    );
    assert_eq!(op_badges(&event(vec![])), vec![]);
}

/// The insertions and deletions of a diff, as yrs itself counts them.
fn counted(diff: &[u8]) -> Option<(u64, u64)> {
    let update = match yrs::updates::decoder::Decode::decode_v2(diff) {
        Ok(update) => update,
        Err(_) => return None,
    };
    let update: yrs::Update = update;
    let sum = |set: &yrs::DeleteSet| -> u64 {
        set.iter().map(|(_, ranges)| ranges.iter().map(|r| (r.end - r.start) as u64).sum::<u64>()).sum()
    };
    Some((sum(&yrs::DeleteSet::from(update.insertions(true))), sum(update.delete_set())))
}

fn same(diff: &[u8]) {
    let expected = counted(diff);
    assert!(expected.is_some());
    assert_eq!(yrs_delta(diff), expected);
}

fn state(doc: &Doc) -> Vec<u8> {
    doc.transact().encode_state_as_update_v2(&StateVector::default())
}

#[test]
fn every_kind_of_content_is_read() {
    let doc = Doc::new();
    let text = doc.get_or_insert_text("text");
    let map = doc.get_or_insert_map("map");
    let array = doc.get_or_insert_array("array");
    let xml = doc.get_or_insert_xml_fragment("xml");
    {
        let mut trx = doc.transact_mut();
        text.insert(&mut trx, 0, "grüße \u{1f600}\u{4e2d}文 and plain");
        let bold: yrs::types::Attrs =
            std::iter::once((std::sync::Arc::from("b"), Any::Bool(true))).collect();
        text.format(&mut trx, 1, 3, bold);
        text.insert_embed(&mut trx, 2, Any::from("embedded"));
    }
    same(&state(&doc));
    {
        let mut trx = doc.transact_mut();
        yrs::Map::insert(&map, &mut trx, "number", 41.5);
        yrs::Map::insert(&map, &mut trx, "whole", -70000i64);
        yrs::Map::insert(&map, &mut trx, "bytes", vec![1u8, 2, 3]);
        yrs::Map::insert(&map, &mut trx, "nothing", Any::Null);
        let list = Any::from(vec![Any::Bool(true), Any::from("x"), Any::Undefined, Any::BigInt(7)]);
        let inner: std::collections::HashMap<String, Any> =
            vec![("list".to_string(), list.clone()), ("π".to_string(), Any::Number(0.1))]
                .into_iter()
                .collect();
        yrs::Map::insert(&map, &mut trx, "nested", Any::from(inner));
        array.push_back(&mut trx, list);
        array.insert_range(&mut trx, 0, vec![Any::from(1), Any::from(2), Any::from("three")]);
        array.push_back(&mut trx, MapPrelim::default());
        array.push_back(&mut trx, TextPrelim::new("inside"));
        array.push_back(&mut trx, Doc::new());
        let element = xml.push_back(&mut trx, XmlElementPrelim::empty("p"));
        element.insert_attribute(&mut trx, "class", "wide");
        xml.push_back(&mut trx, XmlTextPrelim::new("in xml"));
    }
    same(&state(&doc));
    {
        let mut trx = doc.transact_mut();
        array.move_to(&mut trx, 0, 3);
        array.remove(&mut trx, 1);
        yrs::Map::remove(&map, &mut trx, "number");
        text.remove_range(&mut trx, 0, 9);
    }
    same(&state(&doc));
}

#[test]
fn what_several_writers_did_is_read() {
    let docs: Vec<Doc> = (1..5u64).map(Doc::with_client_id).collect();
    for round in 0..6u32 {
        for (i, doc) in docs.iter().enumerate() {
            let text = doc.get_or_insert_text("label");
            let before = doc.transact().state_vector();
            let diff = {
                let mut trx = doc.transact_mut();
                let at = if round % 3 == 0 { text.len(&trx) } else { 0 };
                text.insert(&mut trx, at, "añb\u{1f600}");
                if at == 0 {
                    text.remove_range(&mut trx, 0, 1);
                }
                trx.encode_update_v2()
            };
            same(&diff);
            same(&doc.transact().encode_diff_v2(&before));
            for other in docs.iter().skip(i) {
                let update: yrs::Update = match yrs::updates::decoder::Decode::decode_v2(&diff) {
                    Ok(update) => update,
                    Err(_) => panic!("not a diff"),
                };
                let _ = other.transact_mut().apply_update(update);
            }
        }
    }
    for doc in &docs {
        same(&state(doc));
    }
}

#[test]
fn many_small_edits_are_read() {
    let doc = Doc::new();
    let text = doc.get_or_insert_text("label");
    for i in 0..400u32 {
        let mut trx = doc.transact_mut();
        text.insert(&mut trx, i / 2, if i % 3 == 0 { "x" } else { "yz" });
        if i % 5 == 4 {
            text.remove_range(&mut trx, i / 4, 2);
        }
    }
    same(&state(&doc));
}

#[test]
fn a_list_longer_than_the_diff_is_not_decoded() {
    let mut diff = vec![0, 0, 1, 1, 0, 0, 1, 8, 2, 0, 0, 1, 1, 0, 1, 1, 1, 1, 0, 117];
    diff.extend(vec![128; 9]);
    diff.push(1);
    assert_eq!(yrs_delta(&diff), None);
}

#[test]
fn clocks_past_the_largest_are_not_decoded() {
    let diff = [0, 0, 0, 0, 0, 0, 1, 0, 0, 0, 0, 0, 1, 1, 1, 0, 255, 255, 255, 255, 15];
    assert_eq!(yrs_delta(&diff), None);
    let diff = [0, 0, 0, 0, 0, 0, 1, 0, 0, 0, 0, 0, 1, 1, 1, 0, 254, 255, 255, 255, 15];
    assert_eq!(yrs_delta(&diff), Some((0, u32::MAX as u64)));
}

/// A diff of one client with one block of that content.
fn one_block(info: u8, text: &[u8], lens: &[u8], len: u8, rest: &[u8]) -> Vec<u8> {
    let mut texts = vec![text.len() as u8];
    texts.extend(text);
    texts.extend(lens);
    let mut diff = vec![0, 0, 1, 1, 0, 0, 1, info, texts.len() as u8];
    diff.extend(texts);
    diff.extend([1, 1, 0, 1, len]);
    diff.extend([1, 1, 0]);
    diff.extend(rest);
    diff.push(0);
    diff
}

#[test]
fn texts_have_to_be_whole() {
    assert_eq!(yrs_delta(&one_block(4, b"tabc", &[1, 3], 0, &[])), Some((3, 0)));
    assert_eq!(yrs_delta(&one_block(4, "t\u{1f600}".as_bytes(), &[1, 2], 0, &[])), Some((2, 0)));
    assert_eq!(yrs_delta(&one_block(4, "t\u{1f600}".as_bytes(), &[1, 1], 0, &[])), None);
    assert_eq!(yrs_delta(&one_block(4, &[116, 0xc3, 0x28], &[1, 1], 0, &[])), None);
    assert_eq!(yrs_delta(&one_block(4, &[116, 0xed, 0xa0, 0x80], &[1, 1], 0, &[])), None);
    assert_eq!(yrs_delta(&one_block(4, b"tabc", &[1, 7], 0, &[])), Some((3, 0)));
    // a length of 2^32 + 1
    assert_eq!(yrs_delta(&one_block(4, b"tabc", &[1, 129, 128, 128, 128, 32], 0, &[])), None);
}

#[test]
fn deep_values_are_decoded() {
    let nested = |levels: usize, inside: &[u8]| {
        let mut value = vec![];
        for _ in 0..levels {
            value.extend([117, 1]);
        }
        value.extend(inside);
        one_block(8, b"t", &[1], 1, &value)
    };
    for levels in [0, 1, 127, 128, 129, 130, 191, 192, 193, 194, 195, 300, 600] {
        assert_eq!(yrs_delta(&nested(levels, &[126])), Some((1, 0)));
        assert_eq!(yrs_delta(&nested(levels, &[117, 0])), Some((1, 0)));
        assert_eq!(yrs_delta(&nested(levels, &[119, 2, 0xc3, 0xa9])), Some((1, 0)));
        same(&nested(levels, &[126]));
        // something that is no value, and a text that is not UTF-8
        assert_eq!(yrs_delta(&nested(levels, &[5])), None);
        assert_eq!(yrs_delta(&nested(levels, &[119, 1, 0xc3])), None);
    }
    // far deeper than any stack
    assert_eq!(yrs_delta(&nested(500000, &[126])), Some((1, 0)));
}

#[test]
fn deep_values_of_every_length_are_decoded() {
    for len in 0..400usize {
        let mut value = vec![];
        for _ in 0..128 {
            value.extend([117, 3]);
        }
        // a list of numbers, a map with a long key, an empty list
        value.extend([117, (len % 128) as u8 + 128, (len / 128) as u8]);
        value.extend(vec![120; len]);
        value.extend([118, 1, 119]);
        value.extend(vec![97; 119]);
        value.extend([117, 1, 121]);
        value.extend([117, 0]);
        for _ in 0..127 {
            value.extend([126, 127]);
        }
        let diff = one_block(8, b"t", &[1], 1, &value);
        assert_eq!(yrs_delta(&diff), Some((1, 0)));
        same(&diff);
        assert_eq!(yrs_delta(&diff[..diff.len() - 2]), None);
    }
}

fn var(n: u32) -> Vec<u8> {
    let mut bytes = vec![];
    let mut left = n;
    while left >= 128 {
        bytes.push((left % 128) as u8 + 128);
        left /= 128;
    }
    bytes.push(left as u8);
    bytes
}

/// A diff of one client with that many blocks of collected garbage.
fn many_blocks(count: u32) -> Vec<u8> {
    let mut lens = vec![65];
    lens.extend(var(count - 2));
    let mut diff = vec![0, 0, 1, 1, 0, 0, 1, 0, 1, 0, 0, 0, lens.len() as u8];
    diff.extend(lens);
    diff.push(1);
    diff.extend(var(count));
    diff.extend([0, 0]);
    diff
}

#[test]
fn blocks_have_a_bound() {
    assert_eq!(yrs_delta(&many_blocks(3)), Some((3, 0)));
    same(&many_blocks(3));
    let many = many_blocks(1500000);
    assert_eq!(yrs_delta(&many), Some((1500000, 0)));
    same(&many);
    assert_eq!(yrs_delta(&many_blocks(16777217)), None);
}

#[test]
fn padded_length_prefixes_are_not_decoded() {
    // an empty diff, and the same with its first length in six bytes
    let plain = [0, 0, 0, 0, 0, 0, 1, 0, 0, 0, 0, 0, 0];
    assert_eq!(yrs_delta(&plain), Some((0, 0)));
    let padded = [0, 128, 128, 128, 128, 128, 0, 0, 0, 0, 0, 1, 0, 0, 0, 0, 0, 0];
    assert_eq!(yrs_delta(&padded), None);
}

/// A few diffs with many kinds of content in them.
fn specimens() -> Vec<Vec<u8>> {
    let doc = Doc::with_client_id(7);
    let text = doc.get_or_insert_text("t");
    let map = doc.get_or_insert_map("m");
    let array = doc.get_or_insert_array("a");
    {
        let mut trx = doc.transact_mut();
        text.insert(&mut trx, 0, "xñ\u{1f600}yz");
        let bold: yrs::types::Attrs =
            std::iter::once((std::sync::Arc::from("b"), Any::Bool(true))).collect();
        text.format(&mut trx, 0, 1, bold);
        yrs::Map::insert(&map, &mut trx, "k", Any::from(vec![Any::from("v"), Any::Number(2.5)]));
        yrs::Map::insert(&map, &mut trx, "l", vec![1u8, 2]);
    }
    let first = state(&doc);
    {
        let mut trx = doc.transact_mut();
        array.insert_range(&mut trx, 0, vec![Any::from(1), Any::Null, Any::from("three")]);
        array.push_back(&mut trx, MapPrelim::default());
        array.move_to(&mut trx, 0, 3);
        text.remove_range(&mut trx, 0, 1);
        yrs::Map::remove(&map, &mut trx, "l");
    }
    let (third, fourth) = diffs();
    vec![first, state(&doc), third, fourth]
}

#[test]
fn a_damaged_diff_is_decoded_rightly_or_not_at_all() {
    for diff in specimens() {
        same(&diff);
        for i in 0..diff.len() {
            let mut damaged = diff.clone();
            for value in 0..=255u8 {
                damaged[i] = value;
                if let Some(delta) = yrs_delta(&damaged) {
                    assert_eq!(Some(delta), counted(&damaged));
                }
            }
        }
    }
}
