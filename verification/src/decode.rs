//! Per-backend operation summaries for DAG nodes and feed rows.
//!
//! Yrs operations are diffs in the second version of the lib0 encoding, so they
//! can be decoded and reported as insert and delete deltas. The payloads of every
//! other backend are opaque here: byte sizes only.

use vstd::multiset::Multiset;
use vstd::prelude::*;
use yrs::updates::decoder::Decode;

use crate::event::{byte_strings, operation_views, Event};
use crate::text::{
    decimal, decimal_text, lemma_word64_plus, lemma_word_plus, same_text, word, word64,
};
use crate::wire::{flatten, flattened, readable, whole_read};

verus! {

// ---------------------------------------------------------------------------
// Yrs deltas
// ---------------------------------------------------------------------------

/// The clock ranges (from, to) that a diff inserts and deletes, or nothing where
/// the diff cannot be decoded.
pub uninterp spec fn yrs_ranges(diff: Seq<u8>) -> Option<
    (Multiset<(u32, u32)>, Multiset<(u32, u32)>),
>;

/// Calls `yrs::Update::decode_v2`, and reads the ranges off `Update::insertions`
/// (content that the same diff deleted again included) and `Update::delete_set`.
/// They are a function of the bytes; the clients they belong to are listed in no
/// particular order, hence the multisets.
///
/// `decode_v2` is meant for what its own encoder wrote. Called on bytes that are not
/// [`readable`], it may overflow a clock, take something else for UTF-8, go deeper than
/// the stack, reserve more memory than there is, or differ from machine to machine, so
/// those are left out.
#[verifier::external_body]
fn decode_ranges(diff: &[u8]) -> (ranges: Option<(Vec<(u32, u32)>, Vec<(u32, u32)>)>)
    requires
        readable(diff@),
    ensures
        match ranges {
            Some((inserted, deleted)) => yrs_ranges(diff@) == Some(
                (inserted@.to_multiset(), deleted@.to_multiset()),
            ),
            None => yrs_ranges(diff@) is None,
        },
{
    let update = yrs::Update::decode_v2(diff).ok()?;
    let inserted = yrs::DeleteSet::from(update.insertions(true));
    let deleted = update.delete_set();
    Some((
        inserted.iter().flat_map(|(_, ranges)| ranges.iter().map(|r| (r.start, r.end))).collect(),
        deleted.iter().flat_map(|(_, ranges)| ranges.iter().map(|r| (r.start, r.end))).collect(),
    ))
}

/// How many clock units a range covers. Clocks start over past the largest one.
pub open spec fn range_len(range: (u32, u32)) -> nat {
    if range.0 <= range.1 {
        (range.1 - range.0) as nat
    } else {
        (range.1 - range.0 + 0x1_0000_0000) as nat
    }
}

/// How many clock units the ranges cover together.
pub open spec fn covered(ranges: Seq<(u32, u32)>) -> nat {
    ranges.fold_right(|range: (u32, u32), sum: nat| range_len(range) + sum, 0nat)
}

/// How many clock units a collection of ranges covers, in whatever order.
pub open spec fn covered_by_all(ranges: Multiset<(u32, u32)>) -> nat {
    covered(choose|list: Seq<(u32, u32)>| list.to_multiset() == ranges)
}

/// The order of the ranges does not matter.
pub proof fn law_covered_in_any_order(list: Seq<(u32, u32)>)
    ensures
        covered(list) == covered_by_all(list.to_multiset()),
{
    let other = choose|other: Seq<(u32, u32)>| other.to_multiset() == list.to_multiset();
    vstd::seq_lib::lemma_fold_right_permutation(
        list,
        other,
        |range: (u32, u32), sum: nat| range_len(range) + sum,
        0nat,
    );
}

/// Total clock units covered by a list of ranges.
pub fn ranges_total(ranges: &Vec<(u32, u32)>) -> (total: u64)
    ensures
        total == word64(covered(ranges@)),
{
    let mut total: u64 = 0;
    let mut i: usize = ranges.len();
    assert(ranges@.skip(i as int) =~= Seq::<(u32, u32)>::empty());
    assert(covered(Seq::<(u32, u32)>::empty()) == 0);
    while i > 0
        invariant
            i <= ranges.len(),
            total == word64(covered(ranges@.skip(i as int))),
        decreases i,
    {
        i -= 1;
        let (from, to) = ranges[i];
        let len: u32 = to.wrapping_sub(from);
        proof {
            let tail = ranges@.skip(i as int);
            assert(len == range_len((from, to)));
            assert(tail.drop_first() =~= ranges@.skip(i + 1));
            assert(tail.first() == (from, to));
            lemma_covered_step(tail);
            lemma_word64_plus(covered(ranges@.skip(i + 1)), len as nat);
        }
        total = total.wrapping_add(len as u64);
    }
    assert(ranges@.skip(0) =~= ranges@);
    total
}

pub(crate) proof fn lemma_covered_step(ranges: Seq<(u32, u32)>)
    requires
        ranges.len() > 0,
    ensures
        covered(ranges) == range_len(ranges.first()) + covered(ranges.drop_first()),
{
    let add = |range: (u32, u32), sum: nat| range_len(range) + sum;
    ranges.lemma_fold_right_alt(add, 0nat);
    ranges.drop_first().lemma_fold_right_alt(add, 0nat);
    assert(ranges.subrange(1, ranges.len() as int) =~= ranges.drop_first());
}

/// The insert and delete delta of a diff. What lies too deep in it for a decoder is
/// blanked first; it has no bearing on the ranges.
pub open spec fn delta(diff: Seq<u8>) -> Option<(nat, nat)> {
    if whole_read(diff) is None {
        None
    } else {
        match yrs_ranges(flattened(diff)) {
            Some((inserted, deleted)) => Some(
                (word64(covered_by_all(inserted)), word64(covered_by_all(deleted))),
            ),
            None => None,
        }
    }
}

/// Insert and delete delta of one yrs diff, in yrs text units, or nothing where
/// the diff cannot be decoded, or not on every machine (see [`whole_read`]). Content that the diff both inserts and deletes
/// counts on both sides.
pub fn yrs_delta(diff: &[u8]) -> (counts: Option<(u64, u64)>)
    ensures
        match counts {
            Some((inserted, deleted)) => delta(diff@) == Some((inserted as nat, deleted as nat)),
            None => delta(diff@) is None,
        },
{
    match flatten(diff) {
        Some(flat) => match decode_ranges(flat.as_slice()) {
            Some((inserted, deleted)) => {
                proof {
                    law_covered_in_any_order(inserted@);
                    law_covered_in_any_order(deleted@);
                }
                Some((ranges_total(&inserted), ranges_total(&deleted)))
            },
            None => None,
        },
        None => None,
    }
}

// ---------------------------------------------------------------------------
// Badges
// ---------------------------------------------------------------------------

/// One rendered badge per backend present in an event.
#[derive(Debug, PartialEq, Eq)]
pub struct OpBadge {
    pub backend: String,
    /// Short human summary: "+12 −3" for yrs, "41 B" for opaque backends.
    pub summary: String,
    pub op_count: usize,
    pub bytes: usize,
}

/// How many bytes the diffs have together.
pub open spec fn total_bytes(diffs: Seq<Seq<u8>>) -> nat
    decreases diffs.len(),
{
    if diffs.len() == 0 {
        0
    } else {
        total_bytes(diffs.drop_last()) + diffs.last().len()
    }
}

/// The deltas of the diffs that can be decoded, added up.
pub open spec fn total_delta(diffs: Seq<Seq<u8>>) -> (nat, nat)
    decreases diffs.len(),
{
    if diffs.len() == 0 {
        (0, 0)
    } else {
        let (inserted, deleted) = total_delta(diffs.drop_last());
        match delta(diffs.last()) {
            Some((i, d)) => (inserted + i, deleted + d),
            None => (inserted, deleted),
        }
    }
}

/// A delta in words: what was inserted, what was deleted, or the size in bytes
/// where nothing was.
pub open spec fn delta_summary(inserted: nat, deleted: nat, bytes: nat) -> Seq<char> {
    if inserted == 0 && deleted == 0 {
        decimal(bytes) + " B"@
    } else if deleted == 0 {
        "+"@ + decimal(inserted)
    } else if inserted == 0 {
        "\u{2212}"@ + decimal(deleted)
    } else {
        "+"@ + decimal(inserted) + " \u{2212}"@ + decimal(deleted)
    }
}

/// What one backend did in an event, in words.
pub open spec fn summary_of(backend: Seq<char>, diffs: Seq<Seq<u8>>) -> Seq<char> {
    if backend == "yrs"@ {
        delta_summary(
            word64(total_delta(diffs).0),
            word64(total_delta(diffs).1),
            word(total_bytes(diffs)),
        )
    } else {
        decimal(word(total_bytes(diffs))) + " B"@
    }
}

/// What a badge says.
#[verifier::ext_equal]
pub struct BadgeModel {
    pub backend: Seq<char>,
    pub summary: Seq<char>,
    pub op_count: nat,
    pub bytes: nat,
}

impl View for OpBadge {
    type V = BadgeModel;

    open spec fn view(&self) -> BadgeModel {
        BadgeModel {
            backend: self.backend@,
            summary: self.summary@,
            op_count: self.op_count as nat,
            bytes: self.bytes as nat,
        }
    }
}

impl Clone for OpBadge {
    fn clone(&self) -> (badge: OpBadge)
        ensures
            badge@ == self@,
    {
        OpBadge {
            backend: self.backend.clone(),
            summary: self.summary.clone(),
            op_count: self.op_count,
            bytes: self.bytes,
        }
    }
}

/// What a list of badges says.
pub open spec fn badge_views(list: Seq<OpBadge>) -> Seq<BadgeModel> {
    Seq::new(list.len(), |i: int| list[i]@)
}

/// The badge of one backend's operations.
pub open spec fn badge_of(operations: (Seq<char>, Seq<Seq<u8>>)) -> BadgeModel {
    BadgeModel {
        backend: operations.0,
        summary: summary_of(operations.0, operations.1),
        op_count: operations.1.len(),
        bytes: word(total_bytes(operations.1)),
    }
}

/// The badges of an event's operations, in their order.
pub open spec fn badges_of(operations: Seq<(Seq<char>, Seq<Seq<u8>>)>) -> Seq<BadgeModel> {
    Seq::new(operations.len(), |i: int| badge_of(operations[i]))
}

/// Every backend of an event gets one badge, and there are no others.
pub proof fn law_one_badge_per_backend(event: Event)
    requires
        event.well_formed(),
    ensures
        ({
            let operations = operation_views(event.operations@);
            let badges = badges_of(operations);
            &&& badges.len() == operations.len()
            &&& forall|i: int|
                0 <= i < operations.len() ==> (#[trigger] badges[i]).backend == operations[i].0
            &&& forall|i: int, j: int|
                0 <= i < j < operations.len() ==> (#[trigger] badges[i]).backend != (
                #[trigger] badges[j]).backend
        }),
{
    let operations = operation_views(event.operations@);
    let badges = badges_of(operations);
    assert forall|i: int, j: int| 0 <= i < j < operations.len() implies (
    #[trigger] badges[i]).backend != (#[trigger] badges[j]).backend by {
        assert(operations[i].0 != operations[j].0);
    }
}

/// Put a delta in words.
pub fn delta_summary_text(inserted: u64, deleted: u64, bytes: usize) -> (text: String)
    ensures
        text@ == delta_summary(inserted as nat, deleted as nat, bytes as nat),
{
    if inserted == 0 && deleted == 0 {
        size_text(bytes)
    } else if deleted == 0 {
        let mut text = "+".to_owned();
        text.append(decimal_text(inserted as u128).as_str());
        text
    } else if inserted == 0 {
        let mut text = "\u{2212}".to_owned();
        text.append(decimal_text(deleted as u128).as_str());
        text
    } else {
        let mut text = "+".to_owned();
        text.append(decimal_text(inserted as u128).as_str());
        text.append(" \u{2212}");
        text.append(decimal_text(deleted as u128).as_str());
        text
    }
}

fn size_text(bytes: usize) -> (text: String)
    ensures
        text@ == decimal(bytes as nat) + " B"@,
{
    let mut text = decimal_text(bytes as u128);
    text.append(" B");
    text
}

fn make_badge(backend: &String, diffs: &Vec<Vec<u8>>) -> (badge: OpBadge)
    ensures
        badge@ == badge_of((backend@, byte_strings(diffs@))),
{
    let ghost all = byte_strings(diffs@);
    let yrs = same_text(backend.as_str(), "yrs");
    let mut bytes: usize = 0;
    let mut inserted: u64 = 0;
    let mut deleted: u64 = 0;
    let mut i: usize = 0;
    proof {
        assert(all.take(0) =~= Seq::<Seq<u8>>::empty());
        lemma_word_plus(0, 0);
        lemma_word64_plus(0, 0);
    }
    while i < diffs.len()
        invariant
            i <= diffs.len(),
            all == byte_strings(diffs@),
            bytes == word(total_bytes(all.take(i as int))),
            yrs ==> inserted == word64(total_delta(all.take(i as int)).0),
            yrs ==> deleted == word64(total_delta(all.take(i as int)).1),
        decreases diffs.len() - i,
    {
        let diff = &diffs[i];
        let len: usize = diff.len();
        proof {
            assert(all.take(i + 1).drop_last() =~= all.take(i as int));
            assert(all.take(i + 1).last() == diff@);
            lemma_word_plus(total_bytes(all.take(i as int)), len as nat);
        }
        bytes = bytes.wrapping_add(len);
        if yrs {
            if let Some((ins, del)) = yrs_delta(diff.as_slice()) {
                proof {
                    lemma_word64_plus(total_delta(all.take(i as int)).0, ins as nat);
                    lemma_word64_plus(total_delta(all.take(i as int)).1, del as nat);
                }
                inserted = inserted.wrapping_add(ins);
                deleted = deleted.wrapping_add(del);
            }
        }
        i += 1;
    }
    assert(all.take(i as int) =~= all);
    let summary = if yrs {
        delta_summary_text(inserted, deleted, bytes)
    } else {
        size_text(bytes)
    };
    OpBadge { backend: backend.clone(), summary, op_count: diffs.len(), bytes }
}

/// Summarize every backend's operations in an event.
pub fn op_badges(event: &Event) -> (badges: Vec<OpBadge>)
    ensures
        badge_views(badges@) == badges_of(operation_views(event.operations@)),
{
    let mut badges: Vec<OpBadge> = Vec::new();
    let mut i: usize = 0;
    while i < event.operations.len()
        invariant
            i <= event.operations.len(),
            badges.len() == i,
            forall|j: int|
                0 <= j < i ==> #[trigger] badges@[j]@ == badge_of(
                    operation_views(event.operations@)[j],
                ),
        decreases event.operations.len() - i,
    {
        let operations = &event.operations[i];
        badges.push(make_badge(&operations.backend, &operations.diffs));
        i += 1;
    }
    assert(badge_views(badges@) =~= badges_of(operation_views(event.operations@)));
    badges
}

} // verus!
