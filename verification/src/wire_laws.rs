//! What holds of reading a diff: where it goes, and that what lies too deep in it can
//! be taken out of the decoder's way.

use vstd::prelude::*;

use crate::wire::{
    blanked, blanked_at, block_read, blocks_read, buffer, byte_at, char_len, client_read,
    clients_read, content_read, deletions_read, flattened, id_passed, inline_text, item, key_read,
    left_read, lemma_item_moves, lemma_signed_moves, lemma_var32_moves, lemma_var64_moves, len_read,
    length_at, levels_read, links_read, move_read, opened, parent_read, part, parts, ranges_read,
    readable, repeat_next, right_read, run_next, signed, signed32, signed_rest, step_next, taken,
    text_next, text_passed, text_read, texts_read, type_read, units, units_read, utf8, values_read,
    var32, var64, whole_read, Level, Reader, Repeats, Runs, Steps, Texts, DEPTH,
};

verus! {

/// Where a list or map lies that starts at `place.0`: not before `low`, not past `high`,
/// and with room for its first two bytes.
pub open spec fn lies_in(place: (usize, usize), low: int, high: int) -> bool {
    low <= place.0 && place.0 + 2 <= place.1 <= high && place.1 - place.0 <= u32::MAX
}

/// The places after the first `known` ones lie between `low` and `high`, one behind the
/// other.
pub open spec fn in_order(
    places: Seq<(usize, usize)>,
    known: nat,
    low: int,
    high: int,
) -> bool {
    &&& forall|i: int| known <= i < places.len() ==> lies_in(#[trigger] places[i], low, high)
    &&& forall|i: int, j: int|
        known <= i < j < places.len() ==> (#[trigger] places[i]).1 <= (#[trigger] places[j]).0
}

/// `longer` starts with `shorter`.
pub open spec fn starts_with(longer: Seq<(usize, usize)>, shorter: Seq<(usize, usize)>) -> bool {
    &&& shorter.len() <= longer.len()
    &&& forall|i: int| 0 <= i < shorter.len() ==> #[trigger] longer[i] == shorter[i]
}

/// Reading goes forward, and what lies too deep is found in order.
proof fn lemma_levels_move(
    bytes: Seq<u8>,
    at: usize,
    end: usize,
    open: Seq<Level>,
    from: usize,
    deep: Seq<(usize, usize)>,
)
    requires
        open.len() >= DEPTH + 2 ==> from + 2 <= at,
    ensures
        levels_read(bytes, at, end, open, from, deep) matches Some((stop, found)) ==> {
            &&& at <= stop
            &&& stop == at || stop <= end
            &&& starts_with(found, deep)
            &&& in_order(
                found,
                deep.len(),
                if open.len() >= DEPTH + 2 {
                    from as int
                } else {
                    at as int
                },
                stop as int,
            )
        },
    decreases end - at, open.len(),
{
    if open.len() == 0 {
    } else if open.last().left == 0 {
        if open.len() != DEPTH + 2 {
            lemma_levels_move(bytes, at, end, open.drop_last(), from, deep);
        } else if at - from <= u32::MAX {
            let more = deep.push((from, at));
            lemma_levels_move(bytes, at, end, open.drop_last(), from, more);
            match levels_read(bytes, at, end, open.drop_last(), from, more) {
                Some((stop, found)) => {
                    assert(more[deep.len() as int] == (from, at));
                    assert(found[deep.len() as int] == (from, at));
                    assert forall|i: int| 0 <= i < deep.len() implies #[trigger] found[i]
                        == deep[i] by {
                        assert(more[i] == deep[i]);
                    }
                },
                None => {},
            }
        }
    } else {
        lemma_item_moves(bytes, at, end);
        let level = open.last();
        match (if level.keyed {
            inline_text(bytes, at, end)
        } else {
            Some(at)
        }) {
            Some(start) => {
                lemma_item_moves(bytes, start, end);
                let outer = open.drop_last().push(Level { left: (level.left - 1) as u64, ..level });
                match item(bytes, start, end) {
                    Some((next, Some(inner))) => {
                        let origin = if open.len() == DEPTH + 1 {
                            start
                        } else {
                            from
                        };
                        assert(start + 2 <= next);
                        lemma_levels_move(bytes, next, end, outer.push(inner), origin, deep);
                    },
                    Some((next, None)) => {
                        lemma_levels_move(bytes, next, end, outer, from, deep);
                    },
                    None => {},
                }
            },
            None => {},
        }
    }
}

// ---------------------------------------------------------------------------
// The same bytes read the same
// ---------------------------------------------------------------------------

/// The two have the same bytes from `low` to `high`.
pub open spec fn same_in(a: Seq<u8>, b: Seq<u8>, low: int, high: int) -> bool {
    &&& a.len() == b.len()
    &&& forall|i: int| low <= i < high && 0 <= i < a.len() ==> #[trigger] a[i] == b[i]
}

proof fn lemma_length_same(
    a: Seq<u8>,
    b: Seq<u8>,
    at: usize,
    end: usize,
    shift: u32,
    sum: u32,
)
    requires
        same_in(a, b, at as int, end as int),
    ensures
        length_at(a, at, end, shift, sum) == length_at(b, at, end, shift, sum),
        length_at(a, at, end, shift, sum) matches Some((_, next)) ==> at < next <= end,
    decreases end - at,
{
    match byte_at(a, at, end) {
        Some(byte) => {
            assert(a[at as int] == b[at as int]);
            let more = sum | (((byte & 127) as u32) << shift);
            if !(shift >= 28 && byte >= 16) && byte >= 128 {
                lemma_length_same(a, b, (at + 1) as usize, end, (shift + 7) as u32, more);
            }
        },
        None => {},
    }
}

proof fn lemma_var32_same(a: Seq<u8>, b: Seq<u8>, at: usize, end: usize, shift: u32, sum: u32)
    requires
        same_in(a, b, at as int, end as int),
    ensures
        var32(a, at, end, shift, sum) == var32(b, at, end, shift, sum),
    decreases end - at,
{
    match byte_at(a, at, end) {
        Some(byte) => {
            assert(a[at as int] == b[at as int]);
            let more = sum | (((byte & 127) as u32) << (shift % 32));
            if byte >= 128 && shift + 7 <= 70 {
                lemma_var32_same(a, b, (at + 1) as usize, end, (shift + 7) as u32, more);
            }
        },
        None => {},
    }
}

proof fn lemma_signed_rest_same(
    a: Seq<u8>,
    b: Seq<u8>,
    at: usize,
    end: usize,
    shift: u32,
    sum: u64,
)
    requires
        same_in(a, b, at as int, end as int),
    ensures
        signed_rest(a, at, end, shift, sum) == signed_rest(b, at, end, shift, sum),
    decreases end - at,
{
    match byte_at(a, at, end) {
        Some(byte) => {
            assert(a[at as int] == b[at as int]);
            let more = sum | (((byte & 127) as u64) << (shift as u64));
            if shift <= 62 && byte >= 128 {
                lemma_signed_rest_same(a, b, (at + 1) as usize, end, (shift + 7) as u32, more);
            }
        },
        None => {},
    }
}

proof fn lemma_signed_same(a: Seq<u8>, b: Seq<u8>, at: usize, end: usize)
    requires
        same_in(a, b, at as int, end as int),
    ensures
        signed(a, at, end) == signed(b, at, end),
        signed(a, at, end) matches Some((_, _, next)) ==> at < next <= end,
{
    match byte_at(a, at, end) {
        Some(byte) => {
            assert(a[at as int] == b[at as int]);
            let next = (at + 1) as usize;
            lemma_signed_rest_same(a, b, next, end, 6, (byte & 63) as u64);
            lemma_signed_moves(a, next, end, 6, (byte & 63) as u64);
        },
        None => {},
    }
}

proof fn lemma_utf8_same(a: Seq<u8>, b: Seq<u8>, at: usize, end: usize)
    requires
        same_in(a, b, at as int, end as int),
    ensures
        utf8(a, at, end) == utf8(b, at, end),
    decreases end - at,
{
    if at < end {
        lemma_char_same(a, b, at, end);
        match char_len(a, at, end) {
            Some(n) => {
                if at + n <= end && n > 0 {
                    lemma_utf8_same(a, b, (at + n) as usize, end);
                }
            },
            None => {},
        }
    }
}

proof fn lemma_char_same(a: Seq<u8>, b: Seq<u8>, at: usize, end: usize)
    requires
        same_in(a, b, at as int, end as int),
    ensures
        char_len(a, at, end) == char_len(b, at, end),
{
    if at < end && at < a.len() {
        assert(a[at as int] == b[at as int]);
        if at + 1 < end && at + 1 < a.len() {
            assert(a[at + 1] == b[at + 1]);
        }
        if at + 2 < end && at + 2 < a.len() {
            assert(a[at + 2] == b[at + 2]);
        }
        if at + 3 < end && at + 3 < a.len() {
            assert(a[at + 3] == b[at + 3]);
        }
    }
}

proof fn lemma_units_same(a: Seq<u8>, b: Seq<u8>, at: usize, end: usize, left: u64, done: u64)
    requires
        same_in(a, b, at as int, end as int),
    ensures
        units_read(a, at, end, left, done) == units_read(b, at, end, left, done),
    decreases end - at,
{
    if left > 0 && at < end {
        lemma_char_same(a, b, at, end);
        match char_len(a, at, end) {
            Some(n) => {
                if at + n <= end && 0 < n && units(n) <= left && done + units(n) <= u32::MAX {
                    lemma_units_same(
                        a,
                        b,
                        (at + n) as usize,
                        end,
                        (left - units(n)) as u64,
                        (done + units(n)) as u64,
                    );
                }
            },
            None => {},
        }
    }
}

proof fn lemma_run_same(a: Seq<u8>, b: Seq<u8>, runs: Runs, high: int)
    requires
        same_in(a, b, 0, high),
        runs.end <= high,
    ensures
        run_next(a, runs) == run_next(b, runs),
        run_next(a, runs) matches Some(next) ==> next.end == runs.end,
{
    lemma_signed_same(a, b, runs.at, runs.end);
    match signed(a, runs.at, runs.end) {
        Some((_, _, next)) => {
            lemma_var32_same(a, b, next, runs.end, 0, 0);
        },
        None => {},
    }
}

proof fn lemma_step_same(a: Seq<u8>, b: Seq<u8>, steps: Steps, high: int)
    requires
        same_in(a, b, 0, high),
        steps.end <= high,
    ensures
        step_next(a, steps) == step_next(b, steps),
        step_next(a, steps) matches Some(next) ==> next.end == steps.end,
{
    lemma_signed_same(a, b, steps.at, steps.end);
    match signed(a, steps.at, steps.end) {
        Some((_, _, next)) => {
            lemma_var32_same(a, b, next, steps.end, 0, 0);
        },
        None => {},
    }
}

proof fn lemma_repeat_same(a: Seq<u8>, b: Seq<u8>, repeats: Repeats, high: int)
    requires
        same_in(a, b, 0, high),
        repeats.end <= high,
    ensures
        repeat_next(a, repeats) == repeat_next(b, repeats),
        repeat_next(a, repeats) matches Some(next) ==> next.end == repeats.end,
{
    match byte_at(a, repeats.at, repeats.end) {
        Some(_) => {
            assert(a[repeats.at as int] == b[repeats.at as int]);
            lemma_var32_same(a, b, (repeats.at + 1) as usize, repeats.end, 0, 0);
        },
        None => {},
    }
}

proof fn lemma_text_same(a: Seq<u8>, b: Seq<u8>, texts: Texts, high: int)
    requires
        same_in(a, b, 0, high),
        texts.end <= high,
        texts.lens.end <= high,
    ensures
        text_next(a, texts) == text_next(b, texts),
        text_next(a, texts) matches Some((next, _)) ==> next.end == texts.end && next.lens.end
            == texts.lens.end,
{
    lemma_run_same(a, b, texts.lens, high);
    match run_next(a, texts.lens) {
        Some(lens) => {
            lemma_units_same(a, b, texts.at, texts.end, lens.last, 0);
        },
        None => {},
    }
}

/// What was read off `a` is read off `b` where they are the same up to there.
proof fn lemma_var32_local(a: Seq<u8>, b: Seq<u8>, at: usize, end: usize, shift: u32, sum: u32)
    requires
        var32(a, at, end, shift, sum) matches Some((_, next)) ==> same_in(
            a,
            b,
            at as int,
            next as int,
        ),
        var32(a, at, end, shift, sum) is Some,
    ensures
        var32(b, at, end, shift, sum) == var32(a, at, end, shift, sum),
    decreases end - at,
{
    lemma_var32_moves(a, at, end, shift, sum);
    assert(a[at as int] == b[at as int]);
    let byte = a[at as int];
    let more = sum | (((byte & 127) as u32) << (shift % 32));
    if byte >= 128 {
        lemma_var32_local(a, b, (at + 1) as usize, end, (shift + 7) as u32, more);
    }
}

proof fn lemma_var64_local(a: Seq<u8>, b: Seq<u8>, at: usize, end: usize, shift: u32, sum: u64)
    requires
        var64(a, at, end, shift, sum) matches Some((_, next)) ==> same_in(
            a,
            b,
            at as int,
            next as int,
        ),
        var64(a, at, end, shift, sum) is Some,
    ensures
        var64(b, at, end, shift, sum) == var64(a, at, end, shift, sum),
    decreases end - at,
{
    lemma_var64_moves(a, at, end, shift, sum);
    assert(a[at as int] == b[at as int]);
    let byte = a[at as int];
    let more = sum | (((byte & 127) as u64) << ((shift % 64) as u64));
    if byte >= 128 {
        lemma_var64_local(a, b, (at + 1) as usize, end, (shift + 7) as u32, more);
    }
}

proof fn lemma_signed_rest_local(
    a: Seq<u8>,
    b: Seq<u8>,
    at: usize,
    end: usize,
    shift: u32,
    sum: u64,
)
    requires
        signed_rest(a, at, end, shift, sum) matches Some((_, next)) ==> same_in(
            a,
            b,
            at as int,
            next as int,
        ),
        signed_rest(a, at, end, shift, sum) is Some,
    ensures
        signed_rest(b, at, end, shift, sum) == signed_rest(a, at, end, shift, sum),
    decreases end - at,
{
    lemma_signed_moves(a, at, end, shift, sum);
    assert(a[at as int] == b[at as int]);
    let byte = a[at as int];
    let more = sum | (((byte & 127) as u64) << (shift as u64));
    if byte >= 128 {
        lemma_signed_rest_local(a, b, (at + 1) as usize, end, (shift + 7) as u32, more);
    }
}

proof fn lemma_signed_local(a: Seq<u8>, b: Seq<u8>, at: usize, end: usize)
    requires
        signed(a, at, end) matches Some((_, _, next)) ==> same_in(a, b, at as int, next as int),
        signed(a, at, end) is Some,
    ensures
        signed(b, at, end) == signed(a, at, end),
{
    let byte = a[at as int];
    let next = (at + 1) as usize;
    if byte >= 128 {
        lemma_signed_moves(a, next, end, 6, (byte & 63) as u64);
        assert(a[at as int] == b[at as int]);
        lemma_signed_rest_local(a, b, next, end, 6, (byte & 63) as u64);
    } else {
        assert(a[at as int] == b[at as int]);
    }
}

proof fn lemma_buffer_local(a: Seq<u8>, b: Seq<u8>, at: usize, end: usize)
    requires
        buffer(a, at, end) matches Some((_, stop)) ==> same_in(a, b, at as int, stop as int),
        buffer(a, at, end) is Some,
    ensures
        buffer(b, at, end) == buffer(a, at, end),
        buffer(a, at, end) matches Some((start, stop)) ==> at < start <= stop <= end,
{
    lemma_var32_moves(a, at, end, 0, 0);
    lemma_var32_local(a, b, at, end, 0, 0);
}

proof fn lemma_inline_text_local(a: Seq<u8>, b: Seq<u8>, at: usize, end: usize)
    requires
        inline_text(a, at, end) matches Some(stop) ==> same_in(a, b, at as int, stop as int),
        inline_text(a, at, end) is Some,
    ensures
        inline_text(b, at, end) == inline_text(a, at, end),
{
    lemma_buffer_local(a, b, at, end);
    match buffer(a, at, end) {
        Some((start, stop)) => {
            lemma_utf8_same(a, b, start, stop);
        },
        None => {},
    }
}

proof fn lemma_item_local(a: Seq<u8>, b: Seq<u8>, at: usize, end: usize)
    requires
        item(a, at, end) matches Some((next, _)) ==> same_in(a, b, at as int, next as int),
        item(a, at, end) is Some,
    ensures
        item(b, at, end) == item(a, at, end),
{
    lemma_item_moves(a, at, end);
    assert(a[at as int] == b[at as int]);
    let tag = a[at as int];
    let next = (at + 1) as usize;
    if tag == 125 {
        lemma_signed_local(a, b, next, end);
    } else if tag == 119 {
        lemma_inline_text_local(a, b, next, end);
    } else if tag == 116 {
        lemma_buffer_local(a, b, next, end);
    } else if tag == 118 || tag == 117 {
        lemma_var64_local(a, b, next, end, 0, 0);
    }
}

// ---------------------------------------------------------------------------
// Blanking
// ---------------------------------------------------------------------------

/// Five bytes hold a number of thirty-two bits.
proof fn lemma_five_bytes(bytes: Seq<u8>, at: usize, end: usize, n: u32)
    requires
        at + 5 <= end <= bytes.len(),
        bytes[at as int] == n % 128 + 128,
        bytes[at + 1] == n / 128 % 128 + 128,
        bytes[at + 2] == n / 16384 % 128 + 128,
        bytes[at + 3] == n / 2097152 % 128 + 128,
        bytes[at + 4] == n / 268435456,
    ensures
        var32(bytes, at, end, 0, 0) == Some((n, (at + 5) as usize)),
{
    let b0 = bytes[at as int];
    let b1 = bytes[at + 1];
    let b2 = bytes[at + 2];
    let b3 = bytes[at + 3];
    let b4 = bytes[at + 4];
    let s0 = 0u32 | (((b0 & 127) as u32) << 0u32);
    let s1 = s0 | (((b1 & 127) as u32) << 7u32);
    let s2 = s1 | (((b2 & 127) as u32) << 14u32);
    let s3 = s2 | (((b3 & 127) as u32) << 21u32);
    let s4 = s3 | (((b4 & 127) as u32) << 28u32);
    assert(s4 == n) by (bit_vector)
        requires
            b0 == n % 128 + 128,
            b1 == n / 128 % 128 + 128,
            b2 == n / 16384 % 128 + 128,
            b3 == n / 2097152 % 128 + 128,
            b4 == n / 268435456,
            s0 == 0u32 | (((b0 & 127) as u32) << 0u32),
            s1 == s0 | (((b1 & 127) as u32) << 7u32),
            s2 == s1 | (((b2 & 127) as u32) << 14u32),
            s3 == s2 | (((b3 & 127) as u32) << 21u32),
            s4 == s3 | (((b4 & 127) as u32) << 28u32),
    ;
    assert(b4 < 128);
    reveal_with_fuel(var32, 6);
    assert(var32(bytes, (at + 4) as usize, end, 28, s3) == Some((s4, (at + 5) as usize)));
    assert(var32(bytes, (at + 3) as usize, end, 21, s2) == var32(
        bytes,
        (at + 4) as usize,
        end,
        28,
        s3,
    ));
    assert(var32(bytes, (at + 2) as usize, end, 14, s1) == var32(
        bytes,
        (at + 3) as usize,
        end,
        21,
        s2,
    ));
    assert(var32(bytes, (at + 1) as usize, end, 7, s0) == var32(
        bytes,
        (at + 2) as usize,
        end,
        14,
        s1,
    ));
}

/// What was blanked reads as one value of the same length, and everything else is as it
/// was.
proof fn lemma_blanked_at(bytes: Seq<u8>, place: (usize, usize), end: usize)
    requires
        lies_in(place, 0, end as int),
        end == bytes.len(),
    ensures
        blanked_at(bytes, place).len() == bytes.len(),
        forall|i: int|
            0 <= i < bytes.len() && !(place.0 <= i < place.1) ==> #[trigger] blanked_at(
                bytes,
                place,
            )[i] == bytes[i],
        item(blanked_at(bytes, place), place.0, end) == Some((place.1, None::<Level>)),
{
    let after = blanked_at(bytes, place);
    let start = place.0 as int;
    let len = place.1 - place.0;
    assert(after[start] == 116);
    if len < 130 {
        let n = (len - 2) as u8;
        assert(after[start + 1] == n);
        assert(0u32 | (((n & 127) as u32) << 0u32) == n) by (bit_vector)
            requires
                n < 128,
        ;
        assert(var32(after, (place.0 + 1) as usize, end, 0, 0) == Some(
            (n as u32, (place.0 + 2) as usize),
        ));
    } else {
        let n = (len - 6) as u32;
        lemma_five_bytes(after, (place.0 + 1) as usize, end, n);
    }
}

/// `b` is `a` but for the places, each of which reads as one value in `b`.
pub open spec fn flat_of(a: Seq<u8>, b: Seq<u8>, places: Seq<(usize, usize)>, end: usize) -> bool {
    &&& a.len() == b.len() == end
    &&& forall|i: int|
        0 <= i < a.len() && (forall|k: int|
            0 <= k < places.len() ==> !((#[trigger] places[k]).0 <= i < places[k].1))
            ==> #[trigger] a[i] == b[i]
    &&& forall|k: int|
        0 <= k < places.len() ==> item(b, (#[trigger] places[k]).0, end) == Some(
            (places[k].1, None::<Level>),
        )
}

proof fn lemma_blanked(bytes: Seq<u8>, places: Seq<(usize, usize)>, end: usize)
    requires
        end == bytes.len(),
        in_order(places, 0, 0, end as int),
    ensures
        flat_of(bytes, blanked(bytes, places), places, end),
    decreases places.len(),
{
    if places.len() > 0 {
        let fewer = places.drop_last();
        let last = places.last();
        assert forall|i: int| 0 <= i < fewer.len() implies lies_in(
            #[trigger] fewer[i],
            0,
            end as int,
        ) by {
            assert(fewer[i] == places[i]);
        }
        assert forall|i: int, j: int| 0 <= i < j < fewer.len() implies (#[trigger] fewer[i]).1 <= (
        #[trigger] fewer[j]).0 by {
            assert(fewer[i] == places[i]);
            assert(fewer[j] == places[j]);
        }
        lemma_blanked(bytes, fewer, end);
        let before = blanked(bytes, fewer);
        let after = blanked(bytes, places);
        assert(lies_in(places[places.len() - 1], 0, end as int));
        lemma_blanked_at(before, last, end);
        assert forall|i: int|
            0 <= i < bytes.len() && (forall|k: int|
                0 <= k < places.len() ==> !((#[trigger] places[k]).0 <= i
                    < places[k].1)) implies #[trigger] bytes[i] == after[i] by {
            assert(!(places[places.len() - 1].0 <= i < places[places.len() - 1].1));
            assert forall|k: int| 0 <= k < fewer.len() implies !((#[trigger] fewer[k]).0 <= i
                < fewer[k].1) by {
                assert(fewer[k] == places[k]);
            }
            assert(bytes[i] == before[i]);
        }
        assert forall|k: int| 0 <= k < places.len() implies item(
            after,
            (#[trigger] places[k]).0,
            end,
        ) == Some((places[k].1, None::<Level>)) by {
            if k < fewer.len() {
                assert(fewer[k] == places[k]);
                assert(places[k].1 <= places[places.len() - 1].0);
                assert(same_in(before, after, places[k].0 as int, places[k].1 as int));
                lemma_item_local(before, after, places[k].0, end);
            }
        }
    }
}

// ---------------------------------------------------------------------------
// Reading what was blanked
// ---------------------------------------------------------------------------

/// Every place lies before `low` or behind `high`.
pub open spec fn clear_of(places: Seq<(usize, usize)>, low: int, high: int) -> bool {
    forall|k: int|
        0 <= k < places.len() ==> (#[trigger] places[k]).1 <= low || places[k].0 >= high
}

proof fn lemma_clear(
    a: Seq<u8>,
    b: Seq<u8>,
    places: Seq<(usize, usize)>,
    end: usize,
    low: int,
    high: int,
)
    requires
        flat_of(a, b, places, end),
        clear_of(places, low, high),
    ensures
        same_in(a, b, low, high),
{
    assert forall|i: int| low <= i < high && 0 <= i < a.len() implies #[trigger] a[i] == b[i] by {
        assert forall|k: int| 0 <= k < places.len() implies !((#[trigger] places[k]).0 <= i
            < places[k].1) by {}
    }
}

/// Within a list or map that lies too deep, reading comes back out at its end.
proof fn lemma_way_out(
    bytes: Seq<u8>,
    at: usize,
    end: usize,
    open: Seq<Level>,
    from: usize,
    deep: Seq<(usize, usize)>,
) -> (stop: usize)
    requires
        open.len() >= DEPTH + 2,
        at <= end,
        levels_read(bytes, at, end, open, from, deep) is Some,
    ensures
        at <= stop <= end,
        levels_read(bytes, at, end, open, from, deep) == levels_read(
            bytes,
            stop,
            end,
            open.take(DEPTH + 1),
            from,
            deep.push((from, stop)),
        ),
    decreases end - at, open.len(),
{
    if open.last().left == 0 {
        if open.len() == DEPTH + 2 {
            assert(open.drop_last() =~= open.take(DEPTH + 1));
            at
        } else {
            assert(open.drop_last().take(DEPTH + 1) =~= open.take(DEPTH + 1));
            lemma_way_out(bytes, at, end, open.drop_last(), from, deep)
        }
    } else {
        lemma_item_moves(bytes, at, end);
        let level = open.last();
        let start = if level.keyed {
            inline_text(bytes, at, end).unwrap()
        } else {
            at
        };
        lemma_item_moves(bytes, start, end);
        let outer = open.drop_last().push(Level { left: (level.left - 1) as u64, ..level });
        assert(outer.take(DEPTH + 1) =~= open.take(DEPTH + 1));
        match item(bytes, start, end) {
            Some((next, Some(inner))) => {
                assert(outer.push(inner).take(DEPTH + 1) =~= open.take(DEPTH + 1));
                lemma_way_out(bytes, next, end, outer.push(inner), from, deep)
            },
            Some((next, None)) => lemma_way_out(bytes, next, end, outer, from, deep),
            None => at,
        }
    }
}

/// What comes after `known` places in `places` starts at `low` or behind it.
pub open spec fn rest_behind(places: Seq<(usize, usize)>, known: nat, low: int) -> bool {
    forall|k: int| known <= k < places.len() ==> (#[trigger] places[k]).0 >= low
}

/// All of the places end at `high` or before it.
pub open spec fn all_before(places: Seq<(usize, usize)>, high: int) -> bool {
    forall|k: int| 0 <= k < places.len() ==> (#[trigger] places[k]).1 <= high
}

/// Once what lies too deep is blanked, the same values are read, and nothing lies too
/// deep.
proof fn lemma_levels_flat(
    a: Seq<u8>,
    b: Seq<u8>,
    places: Seq<(usize, usize)>,
    at: usize,
    end: usize,
    open: Seq<Level>,
    from: usize,
    other: usize,
    deep: Seq<(usize, usize)>,
)
    requires
        flat_of(a, b, places, end),
        open.len() <= DEPTH + 1,
        all_before(deep, at as int),
        levels_read(a, at, end, open, from, deep) matches Some((stop, found)) && starts_with(
            places,
            found,
        ) && rest_behind(places, found.len(), stop as int),
    ensures
        ({
            let (stop, found) = levels_read(a, at, end, open, from, deep).unwrap();
            levels_read(b, at, end, open, other, Seq::empty()) == Some(
                (stop, Seq::<(usize, usize)>::empty()),
            )
        }),
    decreases end - at, open.len(),
{
    let (stop, found) = levels_read(a, at, end, open, from, deep).unwrap();
    lemma_levels_move(a, at, end, open, from, deep);
    assert forall|k: int| 0 <= k < deep.len() implies (#[trigger] places[k]).1 <= at by {
        assert(found[k] == deep[k]);
        assert(places[k] == found[k]);
    }
    if open.len() == 0 {
    } else if open.last().left == 0 {
        lemma_levels_flat(a, b, places, at, end, open.drop_last(), from, other, deep);
    } else {
        lemma_item_moves(a, at, end);
        let level = open.last();
        let start = if level.keyed {
            inline_text(a, at, end).unwrap()
        } else {
            at
        };
        lemma_item_moves(a, start, end);
        let outer = open.drop_last().push(Level { left: (level.left - 1) as u64, ..level });
        let (next, inner) = item(a, start, end).unwrap();
        if inner is Some && open.len() == DEPTH + 1 {
            let inside = outer.push(inner.unwrap());
            let out = lemma_way_out(a, next, end, inside, start, deep);
            assert(inside.take(DEPTH + 1) =~= outer);
            let more = deep.push((start, out));
            lemma_levels_move(a, out, end, outer, start, more);
            assert(more[deep.len() as int] == (start, out));
            assert(found[deep.len() as int] == (start, out));
            assert(places[deep.len() as int] == (start, out));
            assert forall|k: int| 0 <= k < places.len() implies (#[trigger] places[k]).1 <= at
                || places[k].0 >= start by {
                if k > deep.len() && k < found.len() {
                    assert(places[k] == found[k]);
                    assert(lies_in(found[k], out as int, stop as int));
                }
            }
            if level.keyed {
                lemma_clear(a, b, places, end, at as int, start as int);
                lemma_inline_text_local(a, b, at, end);
            }
            assert(item(b, start, end) == Some((out, None::<Level>)));
            lemma_levels_flat(a, b, places, out, end, outer, start, other, more);
        } else {
            let inside = if inner is Some {
                outer.push(inner.unwrap())
            } else {
                outer
            };
            lemma_levels_move(a, next, end, inside, from, deep);
            assert forall|k: int| 0 <= k < places.len() implies (#[trigger] places[k]).1 <= at
                || places[k].0 >= next by {
                if k >= deep.len() && k < found.len() {
                    assert(places[k] == found[k]);
                    assert(lies_in(found[k], next as int, stop as int));
                }
            }
            lemma_clear(a, b, places, end, at as int, next as int);
            if level.keyed {
                lemma_inline_text_local(a, b, at, end);
            }
            lemma_item_local(a, b, start, end);
            lemma_levels_flat(a, b, places, next, end, inside, from, other, deep);
        }
    }
}

/// Every column ends at `high` or before it.
pub open spec fn columns_in(r: Reader, high: int) -> bool {
    &&& r.key_clocks.end <= high
    &&& r.clients.end <= high
    &&& r.lefts.end <= high
    &&& r.rights.end <= high
    &&& r.infos.end <= high
    &&& r.texts.end <= high
    &&& r.texts.lens.end <= high
    &&& r.parents.end <= high
    &&& r.types.end <= high
    &&& r.lens.end <= high
}

/// The reader, had it found nothing that lies too deep.
pub open spec fn bare(r: Reader) -> Reader {
    Reader { deep: Ghost(Seq::empty()), ..r }
}

pub open spec fn bare_if(r: Option<Reader>) -> Option<Reader> {
    match r {
        Some(r) => Some(bare(r)),
        None => None,
    }
}

pub open spec fn bare_with(r: Option<(Reader, u32)>) -> Option<(Reader, u32)> {
    match r {
        Some((r, n)) => Some((bare(r), n)),
        None => None,
    }
}

/// Only columns were read on from `r` to `next`.
pub open spec fn columns_moved(r: Reader, next: Reader) -> bool {
    &&& next.at == r.at
    &&& next.end == r.end
    &&& next.deep == r.deep
}

proof fn lemma_text_read_same(a: Seq<u8>, b: Seq<u8>, r: Reader, high: int)
    requires
        same_in(a, b, 0, high),
        columns_in(r, high),
    ensures
        text_passed(b, bare(r)) == bare_if(text_passed(a, r)),
        text_passed(a, r) matches Some(next) ==> columns_in(next, high) && columns_moved(r, next),
        match text_read(a, r) {
            Some((next, n)) => text_read(b, bare(r)) == Some((bare(next), n)) && columns_in(
                next,
                high,
            ) && columns_moved(r, next),
            None => text_read(b, bare(r)) is None,
        },
{
    lemma_text_same(a, b, r.texts, high);
}

proof fn lemma_ids_read_same(a: Seq<u8>, b: Seq<u8>, r: Reader, high: int)
    requires
        same_in(a, b, 0, high),
        columns_in(r, high),
    ensures
        left_read(b, bare(r)) == bare_if(left_read(a, r)),
        left_read(a, r) matches Some(next) ==> columns_in(next, high) && columns_moved(r, next),
        right_read(b, bare(r)) == bare_if(right_read(a, r)),
        right_read(a, r) matches Some(next) ==> columns_in(next, high) && columns_moved(r, next),
{
    lemma_run_same(a, b, r.clients, high);
    lemma_step_same(a, b, r.lefts, high);
    lemma_step_same(a, b, r.rights, high);
}

proof fn lemma_key_read_same(a: Seq<u8>, b: Seq<u8>, r: Reader, high: int)
    requires
        same_in(a, b, 0, high),
        columns_in(r, high),
    ensures
        key_read(b, bare(r)) == bare_if(key_read(a, r)),
        key_read(a, r) matches Some(next) ==> columns_in(next, high) && columns_moved(r, next),
{
    lemma_step_same(a, b, r.key_clocks, high);
    match step_next(a, r.key_clocks) {
        Some(key_clocks) => {
            if r.keys < u32::MAX {
                lemma_text_read_same(
                    a,
                    b,
                    Reader { key_clocks, keys: (r.keys + 1) as u32, ..r },
                    high,
                );
            }
        },
        None => {},
    }
}

proof fn lemma_type_read_same(a: Seq<u8>, b: Seq<u8>, r: Reader, high: int)
    requires
        same_in(a, b, 0, high),
        columns_in(r, high),
    ensures
        type_read(b, bare(r)) == bare_if(type_read(a, r)),
        type_read(a, r) matches Some(next) ==> columns_in(next, high) && columns_moved(r, next),
{
    lemma_run_same(a, b, r.types, high);
    match run_next(a, r.types) {
        Some(types) => {
            lemma_key_read_same(a, b, Reader { types, ..r }, high);
        },
        None => {},
    }
}

proof fn lemma_len_read_same(a: Seq<u8>, b: Seq<u8>, r: Reader, high: int)
    requires
        same_in(a, b, 0, high),
        columns_in(r, high),
    ensures
        len_read(b, bare(r)) == bare_with(len_read(a, r)),
        len_read(a, r) matches Some((next, _)) ==> columns_in(next, high) && columns_moved(r, next),
{
    lemma_run_same(a, b, r.lens, high);
}

proof fn lemma_texts_read_same(a: Seq<u8>, b: Seq<u8>, r: Reader, count: u32, high: int)
    requires
        same_in(a, b, 0, high),
        columns_in(r, high),
    ensures
        texts_read(b, bare(r), count) == bare_if(texts_read(a, r, count)),
        texts_read(a, r, count) matches Some(next) ==> columns_in(next, high) && columns_moved(
            r,
            next,
        ),
    decreases count,
{
    if count > 0 {
        match taken(r) {
            Some(r1) => {
                lemma_text_read_same(a, b, r1, high);
                match text_passed(a, r1) {
                    Some(r2) => {
                        lemma_texts_read_same(a, b, r2, (count - 1) as u32, high);
                    },
                    None => {},
                }
            },
            None => {},
        }
    }
}

proof fn lemma_parent_read_same(a: Seq<u8>, b: Seq<u8>, r: Reader, info: u8, high: int)
    requires
        same_in(a, b, 0, high),
        columns_in(r, high),
    ensures
        parent_read(b, bare(r), info) == bare_if(parent_read(a, r, info)),
        parent_read(a, r, info) matches Some(next) ==> columns_in(next, high) && columns_moved(
            r,
            next,
        ),
{
    lemma_repeat_same(a, b, r.parents, high);
    match repeat_next(a, r.parents) {
        Some(parents) => {
            let r1 = Reader { parents, ..r };
            lemma_text_read_same(a, b, r1, high);
            lemma_ids_read_same(a, b, r1, high);
            match (if parents.last == 1 {
                text_passed(a, r1)
            } else {
                left_read(a, r1)
            }) {
                Some(r2) => {
                    lemma_text_read_same(a, b, r2, high);
                },
                None => {},
            }
        },
        None => {},
    }
}

proof fn lemma_links_read_same(a: Seq<u8>, b: Seq<u8>, r: Reader, info: u8, high: int)
    requires
        same_in(a, b, 0, high),
        columns_in(r, high),
    ensures
        links_read(b, bare(r), info) == bare_if(links_read(a, r, info)),
        links_read(a, r, info) matches Some(next) ==> columns_in(next, high) && columns_moved(
            r,
            next,
        ),
{
    lemma_ids_read_same(a, b, r, high);
    match (if info & 0x80 != 0 {
        left_read(a, r)
    } else {
        Some(r)
    }) {
        Some(r1) => {
            lemma_ids_read_same(a, b, r1, high);
            match (if info & 0x40 != 0 {
                right_read(a, r1)
            } else {
                Some(r1)
            }) {
                Some(r2) => {
                    lemma_parent_read_same(a, b, r2, info, high);
                },
                None => {},
            }
        },
        None => {},
    }
}

/// Reading went on from `r` to `next`, and what lies too deep was found in order.
pub open spec fn moved(r: Reader, next: Reader) -> bool {
    &&& r.at <= next.at
    &&& next.at == r.at || next.at <= r.end
    &&& next.end == r.end
    &&& starts_with(next.deep@, r.deep@)
    &&& in_order(next.deep@, r.deep@.len(), r.at as int, next.at as int)
}

/// What was found so far lies before where the reader is, one behind the other.
pub open spec fn sound(r: Reader, low: int) -> bool {
    &&& low <= r.at
    &&& in_order(r.deep@, 0, low, r.at as int)
}

/// Of the places, the first are those that the reader has found, and the others lie
/// before it.
pub open spec fn ahead(r: Reader, places: Seq<(usize, usize)>) -> bool {
    starts_with(places, r.deep@) && rest_behind(places, r.deep@.len(), r.at as int)
}

proof fn lemma_moved(r: Reader, next: Reader, low: int)
    requires
        moved(r, next),
        sound(r, low),
    ensures
        sound(next, low),
{
    let known = r.deep@.len() as int;
    assert forall|i: int| 0 <= i < next.deep@.len() implies lies_in(
        #[trigger] next.deep@[i],
        low,
        next.at as int,
    ) by {
        if i < known {
            assert(next.deep@[i] == r.deep@[i]);
        }
    }
    assert forall|i: int, j: int| 0 <= i < j < next.deep@.len() implies (
    #[trigger] next.deep@[i]).1 <= (#[trigger] next.deep@[j]).0 by {
        if i < known {
            assert(next.deep@[i] == r.deep@[i]);
            assert(lies_in(r.deep@[i], low, r.at as int));
            if j < known {
                assert(next.deep@[j] == r.deep@[j]);
            } else {
                assert(lies_in(next.deep@[j], r.at as int, next.at as int));
            }
        }
    }
}

proof fn lemma_moved_twice(r: Reader, mid: Reader, next: Reader)
    requires
        moved(r, mid),
        moved(mid, next),
    ensures
        moved(r, next),
{
    let known = r.deep@.len() as int;
    let middle = mid.deep@.len() as int;
    assert forall|i: int| 0 <= i < known implies #[trigger] next.deep@[i] == r.deep@[i] by {
        assert(mid.deep@[i] == r.deep@[i]);
    }
    assert forall|i: int| known <= i < next.deep@.len() implies lies_in(
        #[trigger] next.deep@[i],
        r.at as int,
        next.at as int,
    ) by {
        if i < middle {
            assert(next.deep@[i] == mid.deep@[i]);
            assert(lies_in(mid.deep@[i], r.at as int, mid.at as int));
        } else {
            assert(lies_in(next.deep@[i], mid.at as int, next.at as int));
        }
    }
    assert forall|i: int, j: int| known <= i < j < next.deep@.len() implies (
    #[trigger] next.deep@[i]).1 <= (#[trigger] next.deep@[j]).0 by {
        if i < middle {
            assert(next.deep@[i] == mid.deep@[i]);
            assert(lies_in(mid.deep@[i], r.at as int, mid.at as int));
            if j < middle {
                assert(next.deep@[j] == mid.deep@[j]);
            } else {
                assert(lies_in(next.deep@[j], mid.at as int, next.at as int));
            }
        }
    }
}

proof fn lemma_ahead(r: Reader, next: Reader, places: Seq<(usize, usize)>)
    requires
        moved(r, next),
        ahead(next, places),
    ensures
        ahead(r, places),
{
    assert forall|i: int| 0 <= i < r.deep@.len() implies #[trigger] places[i] == r.deep@[i] by {
        assert(next.deep@[i] == r.deep@[i]);
    }
    assert forall|k: int| r.deep@.len() <= k < places.len() implies (#[trigger] places[k]).0
        >= r.at by {
        if k < next.deep@.len() {
            assert(places[k] == next.deep@[k]);
            assert(lies_in(next.deep@[k], r.at as int, next.at as int));
        }
    }
}

/// Between a reader and the next there is nothing blanked where nothing was found.
proof fn lemma_between(
    a: Seq<u8>,
    b: Seq<u8>,
    places: Seq<(usize, usize)>,
    end: usize,
    r: Reader,
    high: usize,
    low: int,
)
    requires
        flat_of(a, b, places, end),
        sound(r, low),
        ahead(Reader { at: high, ..r }, places),
    ensures
        same_in(a, b, r.at as int, high as int),
{
    assert forall|k: int| 0 <= k < places.len() implies (#[trigger] places[k]).1 <= r.at
        || places[k].0 >= high by {
        if k < r.deep@.len() {
            assert(places[k] == r.deep@[k]);
            assert(lies_in(r.deep@[k], low, r.at as int));
        }
    }
    lemma_clear(a, b, places, end, r.at as int, high as int);
}

/// `b` is `a` with the places blanked, all of which lie behind the columns.
pub open spec fn setting(
    a: Seq<u8>,
    b: Seq<u8>,
    places: Seq<(usize, usize)>,
    end: usize,
    high: int,
) -> bool {
    flat_of(a, b, places, end) && same_in(a, b, 0, high)
}

/// A reader behind the columns.
pub open spec fn behind(r: Reader, end: usize, high: int) -> bool {
    r.end == end && columns_in(r, high) && sound(r, high)
}

/// Reading goes on from `r`, and where what it comes to is `found`, it comes to the same
/// once what lies too deep is blanked.
pub open spec fn follows(
    r: Reader,
    found: Option<Reader>,
    flat: Option<Reader>,
    places: Seq<(usize, usize)>,
    high: int,
) -> bool {
    match found {
        Some(next) => moved(r, next) && columns_in(next, high) && (ahead(next, places) ==> flat
            == Some(bare(next))),
        None => true,
    }
}

/// As [`follows`], with a number.
pub open spec fn follows_with(
    r: Reader,
    found: Option<(Reader, u32)>,
    flat: Option<(Reader, u32)>,
    places: Seq<(usize, usize)>,
    high: int,
) -> bool {
    match found {
        Some((next, n)) => moved(r, next) && columns_in(next, high) && (ahead(next, places)
            ==> flat == Some((bare(next), n))),
        None => true,
    }
}

/// Two steps, one after the other.
proof fn lemma_two_steps(
    r: Reader,
    mid: Reader,
    next: Reader,
    places: Seq<(usize, usize)>,
)
    requires
        moved(r, mid),
        moved(mid, next),
    ensures
        moved(r, next),
        ahead(next, places) ==> ahead(mid, places) && ahead(r, places),
{
    lemma_moved_twice(r, mid, next);
    if ahead(next, places) {
        lemma_ahead(mid, next, places);
        lemma_ahead(r, mid, places);
    }
}

proof fn lemma_values_follow(
    a: Seq<u8>,
    b: Seq<u8>,
    places: Seq<(usize, usize)>,
    end: usize,
    r: Reader,
    count: u64,
    high: int,
)
    requires
        setting(a, b, places, end, high),
        behind(r, end, high),
    ensures
        follows(r, values_read(a, r, count), values_read(b, bare(r), count), places, high),
{
    let open = seq![Level { left: count, keyed: false }];
    lemma_levels_move(a, r.at, end, open, 0, r.deep@);
    match values_read(a, r, count) {
        Some(next) => {
            if ahead(next, places) {
                assert forall|k: int| 0 <= k < r.deep@.len() implies (#[trigger] r.deep@[k]).1
                    <= r.at by {
                    assert(lies_in(r.deep@[k], high, r.at as int));
                }
                lemma_levels_flat(a, b, places, r.at, end, open, 0, 0, r.deep@);
            }
        },
        None => {},
    }
}

/// A number off what is not column-wise.
proof fn lemma_var32_follow(
    a: Seq<u8>,
    b: Seq<u8>,
    places: Seq<(usize, usize)>,
    end: usize,
    r: Reader,
    high: int,
)
    requires
        setting(a, b, places, end, high),
        behind(r, end, high),
    ensures
        var32(a, r.at, end, 0, 0) matches Some((n, at)) ==> moved(r, Reader { at, ..r }) && (ahead(
            Reader { at, ..r },
            places,
        ) ==> var32(b, r.at, end, 0, 0) == Some((n, at))),
{
    lemma_var32_moves(a, r.at, end, 0, 0);
    match var32(a, r.at, end, 0, 0) {
        Some((_, at)) => {
            if ahead(Reader { at, ..r }, places) {
                lemma_between(a, b, places, end, r, at, high);
                lemma_var32_local(a, b, r.at, end, 0, 0);
            }
        },
        None => {},
    }
}

proof fn lemma_id_follow(
    a: Seq<u8>,
    b: Seq<u8>,
    places: Seq<(usize, usize)>,
    end: usize,
    r: Reader,
    high: int,
)
    requires
        setting(a, b, places, end, high),
        behind(r, end, high),
    ensures
        follows(r, id_passed(a, r), id_passed(b, bare(r)), places, high),
{
    lemma_var64_moves(a, r.at, end, 0, 0);
    match var64(a, r.at, end, 0, 0) {
        Some((_, at)) => {
            let mid = Reader { at, ..r };
            lemma_moved(r, mid, high);
            lemma_var32_follow(a, b, places, end, mid, high);
            match id_passed(a, r) {
                Some(next) => {
                    lemma_two_steps(r, mid, next, places);
                    if ahead(next, places) {
                        lemma_between(a, b, places, end, r, at, high);
                        lemma_var64_local(a, b, r.at, end, 0, 0);
                    }
                },
                None => {},
            }
        },
        None => {},
    }
}

proof fn lemma_move_follow(
    a: Seq<u8>,
    b: Seq<u8>,
    places: Seq<(usize, usize)>,
    end: usize,
    r: Reader,
    high: int,
)
    requires
        setting(a, b, places, end, high),
        behind(r, end, high),
    ensures
        follows(r, move_read(a, r), move_read(b, bare(r)), places, high),
{
    lemma_signed_same(a, a, r.at, end);
    match signed32(a, r.at, end) {
        Some((flags, at)) => {
            let r1 = Reader { at, ..r };
            lemma_moved(r, r1, high);
            lemma_id_follow(a, b, places, end, r1, high);
            match id_passed(a, r1) {
                Some(r2) => {
                    lemma_two_steps(r, r1, r2, places);
                    lemma_moved(r, r2, high);
                    lemma_id_follow(a, b, places, end, r2, high);
                    match move_read(a, r) {
                        Some(next) => {
                            if flags as int % 2 != 1 {
                                lemma_two_steps(r, r2, next, places);
                            }
                            if ahead(next, places) {
                                lemma_two_steps(r, r1, r2, places);
                                lemma_between(a, b, places, end, r, at, high);
                                lemma_signed_local(a, b, r.at, end);
                            }
                        },
                        None => {},
                    }
                },
                None => {},
            }
        },
        None => {},
    }
}

/// A key or a text, and then a value.
proof fn lemma_value_behind(
    a: Seq<u8>,
    b: Seq<u8>,
    places: Seq<(usize, usize)>,
    end: usize,
    r: Reader,
    mid: Reader,
    count: u64,
    high: int,
)
    requires
        setting(a, b, places, end, high),
        behind(r, end, high),
        columns_moved(r, mid),
        columns_in(mid, high),
    ensures
        follows(r, values_read(a, mid, count), values_read(b, bare(mid), count), places, high),
{
    lemma_values_follow(a, b, places, end, mid, count, high);
}

proof fn lemma_content_follow(
    a: Seq<u8>,
    b: Seq<u8>,
    places: Seq<(usize, usize)>,
    end: usize,
    r: Reader,
    kind: u8,
    high: int,
)
    requires
        setting(a, b, places, end, high),
        behind(r, end, high),
    ensures
        follows_with(r, content_read(a, r, kind), content_read(b, bare(r), kind), places, high),
{
    if kind == 1 {
        lemma_len_read_same(a, b, r, high);
    } else if kind == 2 {
        lemma_len_read_same(a, b, r, high);
        match len_read(a, r) {
            Some((r1, n)) => {
                if n < 0x7fff_ffff {
                    lemma_texts_read_same(a, b, r1, (n + 1) as u32, high);
                }
            },
            None => {},
        }
    } else if kind == 3 {
        lemma_var32_moves(a, r.at, end, 0, 0);
        match buffer(a, r.at, end) {
            Some((_, at)) => {
                if ahead(Reader { at, ..r }, places) {
                    lemma_between(a, b, places, end, r, at, high);
                    lemma_buffer_local(a, b, r.at, end);
                }
            },
            None => {},
        }
    } else if kind == 4 {
        lemma_text_read_same(a, b, r, high);
    } else if kind == 5 {
        lemma_values_follow(a, b, places, end, r, 1, high);
    } else if kind == 6 {
        lemma_key_read_same(a, b, r, high);
        match key_read(a, r) {
            Some(r1) => {
                lemma_value_behind(a, b, places, end, r, r1, 1, high);
            },
            None => {},
        }
    } else if kind == 7 {
        lemma_type_read_same(a, b, r, high);
    } else if kind == 8 {
        lemma_len_read_same(a, b, r, high);
        match len_read(a, r) {
            Some((r1, n)) => {
                lemma_value_behind(a, b, places, end, r, r1, n as u64, high);
            },
            None => {},
        }
    } else if kind == 9 {
        lemma_text_read_same(a, b, r, high);
        match text_passed(a, r) {
            Some(r1) => {
                lemma_value_behind(a, b, places, end, r, r1, 1, high);
            },
            None => {},
        }
    } else if kind == 11 {
        lemma_move_follow(a, b, places, end, r, high);
    }
}

proof fn lemma_block_follow(
    a: Seq<u8>,
    b: Seq<u8>,
    places: Seq<(usize, usize)>,
    end: usize,
    r: Reader,
    high: int,
)
    requires
        setting(a, b, places, end, high),
        behind(r, end, high),
    ensures
        follows_with(r, block_read(a, r), block_read(b, bare(r)), places, high),
{
    lemma_repeat_same(a, b, r.infos, high);
    match taken(r) {
        Some(r1) => match repeat_next(a, r1.infos) {
            Some(infos) => {
                let r2 = Reader { infos, ..r1 };
                let info = infos.last;
                if info == 10 {
                    lemma_var32_follow(a, b, places, end, r2, high);
                } else if info == 0 {
                    lemma_len_read_same(a, b, r2, high);
                } else {
                    lemma_links_read_same(a, b, r2, info, high);
                    match links_read(a, r2, info) {
                        Some(r3) => {
                            lemma_content_follow(a, b, places, end, r3, info & 15, high);
                        },
                        None => {},
                    }
                }
            },
            None => {},
        },
        None => {},
    }
}

proof fn lemma_blocks_follow(
    a: Seq<u8>,
    b: Seq<u8>,
    places: Seq<(usize, usize)>,
    end: usize,
    r: Reader,
    clock: u32,
    count: u32,
    high: int,
)
    requires
        setting(a, b, places, end, high),
        behind(r, end, high),
    ensures
        follows(
            r,
            blocks_read(a, r, clock, count),
            blocks_read(b, bare(r), clock, count),
            places,
            high,
        ),
    decreases count,
{
    if count > 0 {
        lemma_block_follow(a, b, places, end, r, high);
        match block_read(a, r) {
            Some((mid, len)) => {
                if clock + len <= u32::MAX {
                    let then = (clock + len) as u32;
                    let less = (count - 1) as u32;
                    lemma_moved(r, mid, high);
                    lemma_blocks_follow(a, b, places, end, mid, then, less, high);
                    match blocks_read(a, mid, then, less) {
                        Some(next) => {
                            lemma_two_steps(r, mid, next, places);
                        },
                        None => {},
                    }
                }
            },
            None => {},
        }
    }
}

proof fn lemma_client_follow(
    a: Seq<u8>,
    b: Seq<u8>,
    places: Seq<(usize, usize)>,
    end: usize,
    r: Reader,
    high: int,
)
    requires
        setting(a, b, places, end, high),
        behind(r, end, high),
    ensures
        follows(r, client_read(a, r), client_read(b, bare(r)), places, high),
{
    lemma_var32_follow(a, b, places, end, r, high);
    lemma_run_same(a, b, r.clients, high);
    match var32(a, r.at, end, 0, 0) {
        Some((count, at)) => {
            let r1 = Reader { at, ..r };
            lemma_moved(r, r1, high);
            lemma_var32_follow(a, b, places, end, r1, high);
            match run_next(a, r.clients) {
                Some(clients) => match var32(a, at, end, 0, 0) {
                    Some((clock, at)) => {
                        let r2 = Reader { at, ..r };
                        let r3 = Reader { clients, at, ..r };
                        lemma_moved(r1, r2, high);
                        lemma_two_steps(r, r1, r2, places);
                        assert(moved(r, r3));
                        assert(moved(r1, r3));
                        lemma_blocks_follow(a, b, places, end, r3, clock, count, high);
                        match blocks_read(a, r3, clock, count) {
                            Some(next) => {
                                lemma_two_steps(r, r3, next, places);
                                if ahead(next, places) {
                                    assert(ahead(r2, places));
                                    lemma_ahead(r1, r2, places);
                                }
                            },
                            None => {},
                        }
                    },
                    None => {},
                },
                None => {},
            }
        },
        None => {},
    }
}

proof fn lemma_clients_follow(
    a: Seq<u8>,
    b: Seq<u8>,
    places: Seq<(usize, usize)>,
    end: usize,
    r: Reader,
    count: u32,
    high: int,
)
    requires
        setting(a, b, places, end, high),
        behind(r, end, high),
    ensures
        follows(r, clients_read(a, r, count), clients_read(b, bare(r), count), places, high),
    decreases count,
{
    if count > 0 {
        lemma_client_follow(a, b, places, end, r, high);
        match client_read(a, r) {
            Some(mid) => {
                lemma_moved(r, mid, high);
                lemma_clients_follow(a, b, places, end, mid, (count - 1) as u32, high);
                match clients_read(a, mid, (count - 1) as u32) {
                    Some(next) => {
                        lemma_two_steps(r, mid, next, places);
                    },
                    None => {},
                }
            },
            None => {},
        }
    }
}

proof fn lemma_ranges_same(
    a: Seq<u8>,
    b: Seq<u8>,
    at: usize,
    end: usize,
    clock: u32,
    count: u32,
)
    requires
        same_in(a, b, at as int, end as int),
    ensures
        ranges_read(a, at, end, clock, count) == ranges_read(b, at, end, clock, count),
        ranges_read(a, at, end, clock, count) matches Some(next) ==> at <= next,
    decreases count,
{
    if count > 0 {
        lemma_var32_same(a, b, at, end, 0, 0);
        lemma_var32_moves(a, at, end, 0, 0);
        match var32(a, at, end, 0, 0) {
            Some((gap, at1)) => {
                lemma_var32_same(a, b, at1, end, 0, 0);
                lemma_var32_moves(a, at1, end, 0, 0);
                match var32(a, at1, end, 0, 0) {
                    Some((len, at2)) => {
                        if clock + gap + len + 1 <= u32::MAX {
                            lemma_ranges_same(
                                a,
                                b,
                                at2,
                                end,
                                (clock + gap + len + 1) as u32,
                                (count - 1) as u32,
                            );
                        }
                    },
                    None => {},
                }
            },
            None => {},
        }
    }
}

proof fn lemma_deletions_same(a: Seq<u8>, b: Seq<u8>, at: usize, end: usize, count: u32)
    requires
        same_in(a, b, at as int, end as int),
    ensures
        deletions_read(a, at, end, count) == deletions_read(b, at, end, count),
    decreases count,
{
    if count > 0 {
        lemma_var32_same(a, b, at, end, 0, 0);
        lemma_var32_moves(a, at, end, 0, 0);
        match var32(a, at, end, 0, 0) {
            Some((_, at1)) => {
                lemma_var32_same(a, b, at1, end, 0, 0);
                lemma_var32_moves(a, at1, end, 0, 0);
                match var32(a, at1, end, 0, 0) {
                    Some((n, at2)) => {
                        lemma_ranges_same(a, b, at2, end, 0, n);
                        match ranges_read(a, at2, end, 0, n) {
                            Some(at3) => {
                                lemma_deletions_same(a, b, at3, end, (count - 1) as u32);
                            },
                            None => {},
                        }
                    },
                    None => {},
                }
            },
            None => {},
        }
    }
}

proof fn lemma_length_local(
    a: Seq<u8>,
    b: Seq<u8>,
    at: usize,
    end: usize,
    shift: u32,
    sum: u32,
)
    requires
        length_at(a, at, end, shift, sum) matches Some((_, next)) ==> same_in(
            a,
            b,
            at as int,
            next as int,
        ),
        length_at(a, at, end, shift, sum) is Some,
    ensures
        length_at(b, at, end, shift, sum) == length_at(a, at, end, shift, sum),
    decreases end - at,
{
    lemma_length_same(a, a, at, end, shift, sum);
    assert(a[at as int] == b[at as int]);
    let byte = a[at as int];
    let more = sum | (((byte & 127) as u32) << shift);
    if byte >= 128 {
        lemma_length_local(a, b, (at + 1) as usize, end, (shift + 7) as u32, more);
    }
}

/// The columns lie one behind the other, and the same bytes give the same columns.
proof fn lemma_parts_local(a: Seq<u8>, b: Seq<u8>, at: usize, end: usize, count: nat)
    requires
        parts(a, at, end, count) matches Some(list) && (count > 0 ==> same_in(
            a,
            b,
            0,
            list.last().1 as int,
        )),
    ensures
        parts(b, at, end, count) == parts(a, at, end, count),
        parts(a, at, end, count) matches Some(list) && list.len() == count && (forall|k: int|
            0 <= k < count ==> (#[trigger] list[k]).0 <= list[k].1 <= list.last().1) && (count > 0
            ==> list.last().1 <= end),
    decreases count,
{
    if count > 0 {
        let list = parts(a, at, end, count).unwrap();
        let fewer = parts(a, at, end, (count - 1) as nat).unwrap();
        let from = if fewer.len() == 0 {
            at
        } else {
            fewer.last().1
        };
        let (start, stop) = part(a, from, end).unwrap();
        assert(list =~= fewer.push((start, stop)));
        lemma_length_same(a, a, from, end, 0, 0);
        assert(from <= start <= stop <= end);
        if count > 1 {
            lemma_parts_local(a, a, at, end, (count - 1) as nat);
            assert(fewer.last().1 == from);
        }
        lemma_parts_local(a, b, at, end, (count - 1) as nat);
        lemma_length_local(a, b, from, end, 0, 0);
        assert forall|k: int| 0 <= k < count implies (#[trigger] list[k]).0 <= list[k].1
            <= list.last().1 by {
            if k < count - 1 {
                assert(list[k] == fewer[k]);
            }
        }
    }
}

/// Whatever can be read to the end can be decoded once what lies too deep in it is
/// blanked, and that lies within the bytes, one place behind the other.
pub proof fn law_what_is_read_can_be_decoded(bytes: Seq<u8>)
    requires
        bytes.len() <= usize::MAX,
        whole_read(bytes) is Some,
    ensures
        in_order(whole_read(bytes).unwrap(), 0, 0, bytes.len() as int),
        readable(flattened(bytes)),
{
    let end = bytes.len() as usize;
    let list = parts(bytes, 1, end, 9).unwrap();
    let text = part(bytes, list[5].0, list[5].1).unwrap();
    lemma_parts_local(bytes, bytes, 1, end, 9);
    lemma_length_same(bytes, bytes, list[5].0, list[5].1, 0, 0);
    let rest = list[8].1 as int;
    let places = whole_read(bytes).unwrap();
    let flat = flattened(bytes);
    let r0 = opened(list, text, end);
    assert(list[0].1 <= rest && list[1].1 <= rest && list[2].1 <= rest && list[3].1 <= rest);
    assert(list[4].1 <= rest && list[5].1 <= rest && list[6].1 <= rest && list[7].1 <= rest);
    assert(behind(r0, end, rest));
    let (clients, at) = var32(bytes, r0.at, end, 0, 0).unwrap();
    let r1 = Reader { at, ..r0 };
    lemma_var32_moves(bytes, r0.at, end, 0, 0);
    let r2 = clients_read(bytes, r1, clients).unwrap();
    // what is found does not depend on what is blanked
    lemma_flat_of_itself(bytes, end);
    lemma_clients_follow(bytes, bytes, Seq::empty(), end, r1, clients, rest);
    lemma_moved(r1, r2, rest);
    assert forall|i: int| 0 <= i < places.len() implies lies_in(
        #[trigger] places[i],
        0,
        end as int,
    ) by {
        assert(lies_in(r2.deep@[i], rest, r2.at as int));
    }
    lemma_blanked(bytes, places, end);
    assert forall|k: int| 0 <= k < places.len() implies (#[trigger] places[k]).0 >= rest by {
        assert(lies_in(r2.deep@[k], rest, r2.at as int));
    }
    lemma_clear(bytes, flat, places, end, 0, rest);
    lemma_parts_local(bytes, flat, 1, end, 9);
    lemma_length_same(bytes, flat, list[5].0, list[5].1, 0, 0);
    lemma_utf8_same(bytes, flat, text.0, text.1);
    lemma_clients_follow(bytes, flat, places, end, r1, clients, rest);
    lemma_var32_follow(bytes, flat, places, end, r0, rest);
    lemma_ahead(r1, r2, places);
    assert(bare(r1) == r1);
    lemma_var32_follow(bytes, flat, places, end, r2, rest);
    let (count, at) = var32(bytes, r2.at, end, 0, 0).unwrap();
    lemma_var32_moves(bytes, r2.at, end, 0, 0);
    assert forall|k: int| 0 <= k < places.len() implies (#[trigger] places[k]).1 <= at
        || places[k].0 >= end by {
        assert(lies_in(r2.deep@[k], rest, r2.at as int));
    }
    lemma_clear(bytes, flat, places, end, at as int, end as int);
    lemma_deletions_same(bytes, flat, at, end, count);
}

/// Bytes are themselves, with nothing blanked.
proof fn lemma_flat_of_itself(bytes: Seq<u8>, end: usize)
    requires
        end == bytes.len(),
    ensures
        flat_of(bytes, bytes, Seq::empty(), end),
{
}

/// What can be decoded as it is stays as it is.
pub proof fn law_readable_bytes_stay(bytes: Seq<u8>)
    requires
        readable(bytes),
    ensures
        flattened(bytes) == bytes,
{
}

} // verus!
