//! What the summaries of operations say, in terms of the operations.

use vstd::prelude::*;

use crate::decode::{
    badge_of, badges_of, covered, delta, delta_summary, law_covered_in_any_order,
    lemma_covered_step, total_bytes, total_delta, yrs_ranges,
};
use crate::text::{decimal, word, word64};
use crate::wire::{flattened, whole_read};

verus! {

// ---------------------------------------------------------------------------
// One diff
// ---------------------------------------------------------------------------

/// A range covers the clocks from its start up to its end, round past the largest one if
/// the end comes first, and lists of ranges cover together what they cover each.
pub proof fn law_ranges_cover_their_clocks(
    range: (u32, u32),
    a: Seq<(u32, u32)>,
    b: Seq<(u32, u32)>,
)
    ensures
        range.0 <= range.1 ==> covered(seq![range]) == range.1 - range.0,
        range.0 > range.1 ==> covered(seq![range]) == 0x1_0000_0000 - range.0 + range.1,
        covered(Seq::<(u32, u32)>::empty()) == 0,
        covered(a + b) == covered(a) + covered(b),
    decreases a.len(),
{
    assert(covered(Seq::<(u32, u32)>::empty()) == 0);
    lemma_covered_step(seq![range]);
    assert(seq![range].drop_first() =~= Seq::<(u32, u32)>::empty());
    assert(seq![range].first() == range);
    if a.len() == 0 {
        assert(a =~= Seq::<(u32, u32)>::empty());
        assert(a + b =~= b);
    } else {
        law_ranges_cover_their_clocks(range, a.drop_first(), b);
        lemma_covered_step(a);
        lemma_covered_step(a + b);
        assert((a + b).drop_first() =~= a.drop_first() + b);
        assert((a + b).first() == a.first());
    }
}

/// The delta of a diff counts what its ranges cover: first what it inserts, then what
/// it deletes, each whatever the other is. There is none exactly where the diff cannot
/// be read or decoded.
pub proof fn law_a_delta_counts_both_sides(
    diff: Seq<u8>,
    inserted: Seq<(u32, u32)>,
    deleted: Seq<(u32, u32)>,
)
    ensures
        delta(diff) is None <==> whole_read(diff) is None || yrs_ranges(flattened(diff)) is None,
        whole_read(diff) is Some && yrs_ranges(flattened(diff)) == Some(
            (inserted.to_multiset(), deleted.to_multiset()),
        ) ==> {
            &&& delta(diff) is Some
            &&& delta(diff).unwrap().0 == word64(covered(inserted))
            &&& delta(diff).unwrap().1 == word64(covered(deleted))
        },
{
    law_covered_in_any_order(inserted);
    law_covered_in_any_order(deleted);
}

// ---------------------------------------------------------------------------
// Several diffs
// ---------------------------------------------------------------------------

/// The insertions of several diffs add up, and so do their deletions, each for itself:
/// one diff counts with its delta, one without a delta counts nothing, and lists of
/// diffs count together what they count each.
pub proof fn law_deltas_add_up(diff: Seq<u8>, a: Seq<Seq<u8>>, b: Seq<Seq<u8>>)
    ensures
        delta(diff) matches Some((inserted, deleted)) ==> total_delta(seq![diff]).0 == inserted
            && total_delta(seq![diff]).1 == deleted,
        delta(diff) is None ==> total_delta(seq![diff]).0 == 0 && total_delta(seq![diff]).1 == 0,
        total_delta(Seq::<Seq<u8>>::empty()).0 == 0,
        total_delta(Seq::<Seq<u8>>::empty()).1 == 0,
        total_delta(a + b).0 == total_delta(a).0 + total_delta(b).0,
        total_delta(a + b).1 == total_delta(a).1 + total_delta(b).1,
    decreases b.len(),
{
    let one = seq![diff];
    assert(one.drop_last() =~= Seq::<Seq<u8>>::empty());
    assert(one.last() == diff);
    assert(total_delta(one.drop_last()) == (0nat, 0nat));
    if b.len() == 0 {
        assert(a + b =~= a);
    } else {
        law_deltas_add_up(diff, a, b.drop_last());
        assert((a + b).drop_last() =~= a + b.drop_last());
        assert((a + b).last() == b.last());
    }
}

/// The bytes of several diffs add up.
pub proof fn law_bytes_add_up(diff: Seq<u8>, a: Seq<Seq<u8>>, b: Seq<Seq<u8>>)
    ensures
        total_bytes(seq![diff]) == diff.len(),
        total_bytes(Seq::<Seq<u8>>::empty()) == 0,
        total_bytes(a + b) == total_bytes(a) + total_bytes(b),
    decreases b.len(),
{
    let one = seq![diff];
    assert(one.drop_last() =~= Seq::<Seq<u8>>::empty());
    assert(one.last() == diff);
    assert(total_bytes(one.drop_last()) == 0);
    if b.len() == 0 {
        assert(a + b =~= a);
    } else {
        law_bytes_add_up(diff, a, b.drop_last());
        assert((a + b).drop_last() =~= a + b.drop_last());
        assert((a + b).last() == b.last());
    }
}

// ---------------------------------------------------------------------------
// Badges
// ---------------------------------------------------------------------------

/// A delta in words names both of its counts, and neither where it is nothing: it
/// starts with what was inserted and ends with what was deleted. Only where both are
/// nothing it gives the size instead.
pub proof fn law_a_summary_names_both_counts(inserted: nat, deleted: nat, bytes: nat)
    ensures
        ({
            let words = delta_summary(inserted, deleted, bytes);
            let first = seq!['+'] + decimal(inserted);
            let last = seq!['\u{2212}'] + decimal(deleted);
            &&& inserted > 0 && deleted > 0 ==> words == first + seq![' '] + last
            &&& inserted > 0 && deleted == 0 ==> words == first
            &&& inserted == 0 && deleted > 0 ==> words == last
            &&& inserted == 0 && deleted == 0 ==> words == decimal(bytes) + seq![' ', 'B']
        }),
{
    reveal_strlit("+");
    reveal_strlit("\u{2212}");
    reveal_strlit(" \u{2212}");
    reveal_strlit(" B");
    let words = delta_summary(inserted, deleted, bytes);
    let first = seq!['+'] + decimal(inserted);
    let last = seq!['\u{2212}'] + decimal(deleted);
    assert("+"@ =~= seq!['+']);
    assert("\u{2212}"@ =~= seq!['\u{2212}']);
    assert(" \u{2212}"@ =~= seq![' '] + seq!['\u{2212}']);
    assert(" B"@ =~= seq![' ', 'B']);
    if inserted > 0 && deleted > 0 {
        assert(words =~= first + seq![' '] + last);
    }
}

/// A badge names its backend, counts its operations and their bytes, and says of yrs
/// how much was inserted and how much was deleted in all, and of any other backend how
/// many bytes there are.
pub proof fn law_a_badge_says_what_was_done(backend: Seq<char>, diffs: Seq<Seq<u8>>)
    ensures
        ({
            let badge = badge_of((backend, diffs));
            let bytes = word(total_bytes(diffs));
            &&& badge.backend == backend
            &&& badge.op_count == diffs.len()
            &&& badge.bytes == bytes
            &&& backend == seq!['y', 'r', 's'] ==> badge.summary == delta_summary(
                word64(total_delta(diffs).0),
                word64(total_delta(diffs).1),
                bytes,
            )
            &&& backend != seq!['y', 'r', 's'] ==> badge.summary == decimal(bytes) + seq![' ', 'B']
        }),
{
    reveal_strlit("yrs");
    reveal_strlit(" B");
    assert("yrs"@ =~= seq!['y', 'r', 's']);
    assert(" B"@ =~= seq![' ', 'B']);
}

/// The badges of an event are those of its backends, one by one: what one backend did
/// has no part in the badge of another.
pub proof fn law_badges_stand_for_themselves(
    a: Seq<(Seq<char>, Seq<Seq<u8>>)>,
    b: Seq<(Seq<char>, Seq<Seq<u8>>)>,
    one: (Seq<char>, Seq<Seq<u8>>),
)
    ensures
        badges_of(a + b) == badges_of(a) + badges_of(b),
        badges_of(seq![one]) == seq![badge_of(one)],
{
    assert(badges_of(a + b) =~= badges_of(a) + badges_of(b));
    assert(badges_of(seq![one]) =~= seq![badge_of(one)]);
}

} // verus!
