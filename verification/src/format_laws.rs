//! How numbers and texts are written in a diff, and that they are read as they were
//! written.

use vstd::prelude::*;
use vstd::utf8::{
    codepoint_width_2, codepoint_width_3, codepoint_width_4, length_of_first_scalar,
    pop_first_scalar, valid_first_scalar, valid_utf8,
};

use crate::wire::{
    block_read, blocks_read, buffer, char_len, content_read, goes_on, id_passed, inline_text, item,
    key_read, left_read, length_at, links_read, move_read, opened, part, parts, ranges_read,
    repeat_next, right_read, run_next, signed, signed32, signed_rest, step_next, steps_in, taken,
    text_next, text_passed, texts_read, type_read, units, units_read, utf8, values, var32, var64,
    Level, Reader, Repeats, Runs, Steps, Texts,
};

verus! {

// ---------------------------------------------------------------------------
// Numbers
// ---------------------------------------------------------------------------

/// A number, seven bits to a byte, the smallest first, with the highest bit of a byte set
/// where another one follows.
pub open spec fn sevens(n: u64) -> Seq<u8>
    decreases n,
{
    if n < 128 {
        seq![n as u8]
    } else {
        seq![(n % 128 + 128) as u8] + sevens(n / 128)
    }
}

/// The bytes have `part` from `at` on.
pub open spec fn holds(bytes: Seq<u8>, at: int, part: Seq<u8>) -> bool {
    &&& 0 <= at
    &&& at + part.len() <= bytes.len()
    &&& forall|i: int| 0 <= i < part.len() ==> bytes[at + i] == #[trigger] part[i]
}

proof fn lemma_sevens(n: u64)
    ensures
        sevens(n).len() > 0,
        n < 128 ==> sevens(n)[0] == n,
        n >= 128 ==> sevens(n)[0] == n % 128 + 128,
{
}

/// What holds a number with more than one byte holds the rest of it one byte further.
proof fn lemma_holds_rest(bytes: Seq<u8>, at: int, n: u64)
    requires
        holds(bytes, at, sevens(n)),
        n >= 128,
    ensures
        bytes[at] == n % 128 + 128,
        holds(bytes, at + 1, sevens(n / 128)),
        sevens(n).len() == sevens(n / 128).len() + 1,
{
    let all = sevens(n);
    let rest = sevens(n / 128);
    assert(all[0] == (n % 128 + 128) as u8);
    assert forall|i: int| 0 <= i < rest.len() implies bytes[at + 1 + i] == #[trigger] rest[i] by {
        assert(all[i + 1] == rest[i]);
    }
}

proof fn lemma_var32_reads(bytes: Seq<u8>, at: usize, end: usize, shift: u32, sum: u32, n: u32)
    requires
        holds(bytes, at as int, sevens(n as u64)),
        at + sevens(n as u64).len() <= end <= bytes.len(),
        shift == 0 || shift == 7 || shift == 14 || shift == 21 || shift == 28,
        (n << shift) >> shift == n,
    ensures
        var32(bytes, at, end, shift, sum) == Some(
            (sum | (n << shift), (at + sevens(n as u64).len()) as usize),
        ),
    decreases n,
{
    lemma_sevens(n as u64);
    let all = sevens(n as u64);
    assert(bytes[at as int] == all[0]);
    let b = bytes[at as int];
    if n < 128 {
        assert(((b & 127) as u32) == n) by (bit_vector)
            requires
                b == n,
                n < 128,
        ;
        assert(all.len() == 1);
    } else {
        lemma_holds_rest(bytes, at as int, n as u64);
        let low = (b & 127) as u32;
        assert(low == n % 128) by (bit_vector)
            requires
                b == n % 128 + 128,
                low == (b & 127) as u32,
        ;
        let more = sum | (low << shift);
        let high = n / 128;
        let next = (shift + 7) as u32;
        assert(shift <= 21) by (bit_vector)
            requires
                (n << shift) >> shift == n,
                n >= 128,
                shift == 0 || shift == 7 || shift == 14 || shift == 21 || shift == 28,
        ;
        assert((high << next) >> next == high) by (bit_vector)
            requires
                (n << shift) >> shift == n,
                high == n / 128,
                next == shift + 7,
                shift <= 21,
        ;
        lemma_var32_reads(bytes, (at + 1) as usize, end, next, more, high);
        assert(more | (high << next) == sum | (n << shift)) by (bit_vector)
            requires
                more == sum | (low << shift),
                low == n % 128,
                high == n / 128,
                next == shift + 7,
                shift <= 21,
        ;
        assert(sevens(high as u64) == sevens(n as u64 / 128));
    }
}

/// A number of thirty-two bits is read as it was written.
pub proof fn law_a_number_is_read_as_written(bytes: Seq<u8>, at: usize, end: usize, n: u32)
    requires
        holds(bytes, at as int, sevens(n as u64)),
        at + sevens(n as u64).len() <= end <= bytes.len(),
    ensures
        var32(bytes, at, end, 0, 0) == Some((n, (at + sevens(n as u64).len()) as usize)),
        length_at(bytes, at, end, 0, 0) == Some((n, (at + sevens(n as u64).len()) as usize)),
{
    assert((n << 0u32) >> 0u32 == n && 0u32 | (n << 0u32) == n) by (bit_vector);
    lemma_var32_reads(bytes, at, end, 0, 0, n);
    lemma_length_reads(bytes, at, end, 0, 0, n);
}

proof fn lemma_length_reads(bytes: Seq<u8>, at: usize, end: usize, shift: u32, sum: u32, n: u32)
    requires
        holds(bytes, at as int, sevens(n as u64)),
        at + sevens(n as u64).len() <= end <= bytes.len(),
        shift == 0 || shift == 7 || shift == 14 || shift == 21 || shift == 28,
        (n << shift) >> shift == n,
    ensures
        length_at(bytes, at, end, shift, sum) == Some(
            (sum | (n << shift), (at + sevens(n as u64).len()) as usize),
        ),
    decreases n,
{
    lemma_sevens(n as u64);
    let all = sevens(n as u64);
    assert(bytes[at as int] == all[0]);
    let b = bytes[at as int];
    if n < 128 {
        assert(((b & 127) as u32) == n) by (bit_vector)
            requires
                b == n,
                n < 128,
        ;
        assert(all.len() == 1);
        if shift == 28 {
            assert(n < 16) by (bit_vector)
                requires
                    (n << 28u32) >> 28u32 == n,
            ;
        }
    } else {
        lemma_holds_rest(bytes, at as int, n as u64);
        let low = (b & 127) as u32;
        assert(low == n % 128) by (bit_vector)
            requires
                b == n % 128 + 128,
                low == (b & 127) as u32,
        ;
        let more = sum | (low << shift);
        let high = n / 128;
        let next = (shift + 7) as u32;
        assert(shift <= 21) by (bit_vector)
            requires
                (n << shift) >> shift == n,
                n >= 128,
                shift == 0 || shift == 7 || shift == 14 || shift == 21 || shift == 28,
        ;
        assert((high << next) >> next == high) by (bit_vector)
            requires
                (n << shift) >> shift == n,
                high == n / 128,
                next == shift + 7,
                shift <= 21,
        ;
        lemma_length_reads(bytes, (at + 1) as usize, end, next, more, high);
        assert(more | (high << next) == sum | (n << shift)) by (bit_vector)
            requires
                more == sum | (low << shift),
                low == n % 128,
                high == n / 128,
                next == shift + 7,
                shift <= 21,
        ;
        assert(sevens(high as u64) == sevens(n as u64 / 128));
    }
}

proof fn lemma_var64_reads(bytes: Seq<u8>, at: usize, end: usize, shift: u32, sum: u64, n: u64)
    requires
        holds(bytes, at as int, sevens(n)),
        at + sevens(n).len() <= end <= bytes.len(),
        shift % 7 == 0,
        shift <= 63,
        (n << (shift as u64)) >> (shift as u64) == n,
    ensures
        var64(bytes, at, end, shift, sum) == Some(
            (sum | (n << (shift as u64)), (at + sevens(n).len()) as usize),
        ),
    decreases n,
{
    lemma_sevens(n);
    let all = sevens(n);
    assert(bytes[at as int] == all[0]);
    let b = bytes[at as int];
    let by = shift as u64;
    assert((shift % 64) as u64 == by);
    if n < 128 {
        assert(((b & 127) as u64) == n) by (bit_vector)
            requires
                b == n,
                n < 128,
        ;
        assert(all.len() == 1);
    } else {
        lemma_holds_rest(bytes, at as int, n);
        let high = n / 128;
        let next = (shift + 7) as u32;
        let more = sum | (((b & 127) as u64) << by);
        lemma_next_seven(n, b, by, sum);
        lemma_var64_reads(bytes, (at + 1) as usize, end, next, more, high);
    }
}

/// What is left of a number after its lowest seven bits, and that they are put together
/// again.
proof fn lemma_next_seven(n: u64, b: u8, by: u64, sum: u64)
    requires
        b == n % 128 + 128,
        n >= 128,
        by <= 63,
        (n << by) >> by == n,
    ensures
        by <= 56,
        ((n / 128) << ((by + 7) as u64)) >> ((by + 7) as u64) == n / 128,
        (sum | (((b & 127) as u64) << by)) | ((n / 128) << ((by + 7) as u64)) == sum | (n << by),
{
    let high = n / 128;
    assert(by <= 56) by (bit_vector)
        requires
            (n << by) >> by == n,
            n >= 128,
            by <= 63,
    ;
    let next = (by + 7) as u64;
    assert((high << next) >> next == high) by (bit_vector)
        requires
            (n << by) >> by == n,
            high == n / 128,
            next == by + 7,
            by <= 56,
    ;
    assert((sum | (((b & 127) as u64) << by)) | (high << next) == sum | (n << by)) by (bit_vector)
        requires
            b == n % 128 + 128,
            high == n / 128,
            next == by + 7,
            by <= 56,
    ;
}

proof fn lemma_signed_rest_reads(
    bytes: Seq<u8>,
    at: usize,
    end: usize,
    shift: u32,
    sum: u64,
    n: u64,
)
    requires
        holds(bytes, at as int, sevens(n)),
        at + sevens(n).len() <= end <= bytes.len(),
        shift % 7 == 6,
        shift <= 62,
        (n << (shift as u64)) >> (shift as u64) == n,
    ensures
        signed_rest(bytes, at, end, shift, sum) == Some(
            (sum | (n << (shift as u64)), (at + sevens(n).len()) as usize),
        ),
    decreases n,
{
    lemma_sevens(n);
    let all = sevens(n);
    assert(bytes[at as int] == all[0]);
    let b = bytes[at as int];
    let by = shift as u64;
    if n < 128 {
        assert(((b & 127) as u64) == n) by (bit_vector)
            requires
                b == n,
                n < 128,
        ;
        assert(all.len() == 1);
    } else {
        lemma_holds_rest(bytes, at as int, n);
        let more = sum | (((b & 127) as u64) << by);
        lemma_next_seven(n, b, by, sum);
        lemma_signed_rest_reads(
            bytes,
            (at + 1) as usize,
            end,
            (shift + 7) as u32,
            more,
            n / 128,
        );
    }
}

/// A number of sixty-four bits is read as it was written.
pub proof fn law_a_long_number_is_read_as_written(bytes: Seq<u8>, at: usize, end: usize, n: u64)
    requires
        holds(bytes, at as int, sevens(n)),
        at + sevens(n).len() <= end <= bytes.len(),
    ensures
        var64(bytes, at, end, 0, 0) == Some((n, (at + sevens(n).len()) as usize)),
{
    assert((n << 0u64) >> 0u64 == n && 0u64 | (n << 0u64) == n) by (bit_vector);
    lemma_var64_reads(bytes, at, end, 0, 0, n);
}

/// A number with a sign: six bits and the sign in the first byte, and what is left as
/// that of a number without.
pub open spec fn with_sign(n: u64, minus: bool) -> Seq<u8> {
    let sign: int = if minus {
        64
    } else {
        0
    };
    if n < 64 {
        seq![(n + sign) as u8]
    } else {
        seq![(n % 64 + sign + 128) as u8] + sevens(n / 64)
    }
}

/// A number with a sign is read as it was written, zero with a sign included. Only the
/// one below the smallest that fits is not.
pub proof fn law_a_signed_number_is_read_as_written(
    bytes: Seq<u8>,
    at: usize,
    end: usize,
    n: u64,
    minus: bool,
)
    requires
        holds(bytes, at as int, with_sign(n, minus)),
        at + with_sign(n, minus).len() <= end <= bytes.len(),
        !(minus && n == 0x8000_0000_0000_0000),
    ensures
        signed(bytes, at, end) == Some((n, minus, (at + with_sign(n, minus).len()) as usize)),
        n < 0x8000_0000 ==> signed32(bytes, at, end) == Some(
            (
                if minus {
                    (-(n as int)) as i32
                } else {
                    n as i32
                },
                (at + with_sign(n, minus).len()) as usize,
            ),
        ),
{
    let all = with_sign(n, minus);
    assert(all.len() > 0);
    let b = bytes[at as int];
    assert(b == all[0]);
    if n < 64 {
        assert((b & 63) as u64 == n && (b & 64 != 0) == minus && b < 128) by (bit_vector)
            requires
                n < 64,
                b == n + (if minus {
                    64int
                } else {
                    0int
                }),
        ;
    } else {
        let rest = n / 64;
        assert((b & 64 != 0) == minus && b >= 128 && ((b & 63) as u64) | (rest << 6u64) == n && (
        rest << 6u64) >> 6u64 == rest) by (bit_vector)
            requires
                rest == n / 64,
                b == n % 64 + (if minus {
                    64int
                } else {
                    0int
                }) + 128,
        ;
        assert forall|i: int| 0 <= i < sevens(rest).len() implies bytes[at + 1 + i]
            == #[trigger] sevens(rest)[i] by {
            assert(all[i + 1] == sevens(rest)[i]);
        }
        lemma_signed_rest_reads(bytes, (at + 1) as usize, end, 6, (b & 63) as u64, rest);
    }
}

// ---------------------------------------------------------------------------
// Columns
// ---------------------------------------------------------------------------

/// A column of numbers gives each of them once, or, where it has a minus sign, as often
/// as the number behind it says, and twice more: a run gives its number again until it is
/// used up.
pub proof fn law_a_run_repeats_its_number(bytes: Seq<u8>, runs: Runs)
    ensures
        runs.count > 0 ==> (run_next(bytes, runs) matches Some(next) && next.last == runs.last
            && next.count == runs.count - 1 && next.at == runs.at),
        runs.count == 0 ==> match signed(bytes, runs.at, runs.end) {
            Some((bits, false, at)) => run_next(bytes, runs) matches Some(next) && next.last == bits
                && next.count == 0 && next.at == at,
            Some((bits, true, at)) => match var32(bytes, at, runs.end, 0, 0) {
                Some((n, after)) => n < u32::MAX - 1 ==> (run_next(bytes, runs) matches Some(next)
                    && next.last == bits && next.count == n + 1 && next.at == after),
                None => run_next(bytes, runs) is None,
            },
            None => run_next(bytes, runs) is None,
        },
{
}

/// A column of steps starts at nought and goes on by a step at a time: by the same one
/// while there are any left, then by half of the next number, once, or, where that
/// number is odd, twice and as often as the number behind it says.
pub proof fn law_steps_are_added_up(bytes: Seq<u8>, steps: Steps, next: Steps)
    requires
        step_next(bytes, steps) == Some(next),
    ensures
        next.last == steps.last + next.diff,
        next.end == steps.end,
        steps.count > 0 ==> next.diff == steps.diff && next.count == steps.count - 1 && next.at
            == steps.at,
        steps.count == 0 ==> (signed32(bytes, steps.at, steps.end) matches Some((coded, at)) && {
            &&& coded == 2 * next.diff || coded == 2 * next.diff + 1
            &&& coded == 2 * next.diff ==> next.count == 0 && next.at == at
            &&& coded == 2 * next.diff + 1 ==> (var32(bytes, at, steps.end, 0, 0) matches Some(
                (n, after),
            ) && next.count == n + 1 && next.at == after)
        }),
        steps_in((steps.at, steps.end)).last == 0,
        steps_in((steps.at, steps.end)).count == 0,
{
}

/// A step is refused only where the column has no further number, where it is too
/// often, or where it leads too far.
pub proof fn law_a_step_is_refused_for_a_reason(bytes: Seq<u8>, steps: Steps)
    requires
        step_next(bytes, steps) is None,
    ensures
        steps.count > 0 ==> !(i32::MIN <= steps.last + steps.diff <= i32::MAX),
        steps.count == 0 ==> match signed32(bytes, steps.at, steps.end) {
            Some((coded, at)) => !(i32::MIN <= steps.last + coded as int / 2 <= i32::MAX)
                || coded as int % 2 == 1 && match var32(bytes, at, steps.end, 0, 0) {
                Some((n, _)) => n >= u32::MAX - 1,
                None => true,
            },
            None => true,
        },
{
}

/// A column of bytes gives a byte once, and again as often as the number behind it says;
/// a byte with no number behind it is given for good.
pub proof fn law_a_byte_is_repeated(bytes: Seq<u8>, repeats: Repeats)
    requires
        repeats.end <= bytes.len(),
        repeats.count > i32::MIN,
    ensures
        repeats.count != 0 ==> (repeat_next(bytes, repeats) matches Some(next) && next.last
            == repeats.last && next.count == repeats.count - 1 && next.at == repeats.at),
        repeats.count == 0 && repeats.at + 1 == repeats.end ==> (repeat_next(
            bytes,
            repeats,
        ) matches Some(next) && next.last == bytes[repeats.at as int] && next.count < 0),
        forall|n: u32|
            repeats.count == 0 && n < 0x7fff_ffff && #[trigger] holds(
                bytes,
                repeats.at + 1,
                sevens(n as u64),
            ) && repeats.at + 1 + sevens(n as u64).len() <= repeats.end ==> (repeat_next(
                bytes,
                repeats,
            ) matches Some(next) && next.last == bytes[repeats.at as int] && next.count == n
                && next.at == repeats.at + 1 + sevens(n as u64).len()),
        repeats.count == 0 && repeats.at >= repeats.end ==> repeat_next(bytes, repeats) is None,
{
    assert forall|n: u32|
        repeats.count == 0 && n < 0x7fff_ffff && #[trigger] holds(
            bytes,
            repeats.at + 1,
            sevens(n as u64),
        ) && repeats.at + 1 + sevens(n as u64).len() <= repeats.end implies (repeat_next(
        bytes,
        repeats,
    ) matches Some(next) && next.last == bytes[repeats.at as int] && next.count == n && next.at
        == repeats.at + 1 + sevens(n as u64).len()) by {
        lemma_sevens(n as u64);
        law_a_number_is_read_as_written(bytes, (repeats.at + 1) as usize, repeats.end, n);
    }
}

/// A stored text is as long as its column of lengths says, and the next one starts where
/// it ends.
pub proof fn law_a_stored_text_has_its_length(bytes: Seq<u8>, texts: Texts, lens: Runs)
    requires
        texts.at <= texts.end <= bytes.len(),
        run_next(bytes, texts.lens) == Some(lens),
    ensures
        lens.last > u32::MAX ==> text_next(bytes, texts) is None,
        lens.last <= u32::MAX ==> match units_read(bytes, texts.at, texts.end, lens.last, 0) {
            Some((at, n)) => text_next(bytes, texts) == Some(
                (Texts { at, end: texts.end, lens }, n),
            ),
            None => text_next(bytes, texts) is None,
        },
        lens.last <= u32::MAX && texts.at + lens.last <= texts.end && (forall|i: int|
            texts.at <= i < texts.end ==> bytes[i] < 0x80) ==> (text_next(bytes, texts) matches Some(
            (next, n),
        ) && n == lens.last && next.at == texts.at + lens.last && next.end == texts.end
            && next.lens == lens),
{
    if lens.last <= u32::MAX && texts.at + lens.last <= texts.end && (forall|i: int|
        texts.at <= i < texts.end ==> bytes[i] < 0x80) {
        law_letters_are_read_one_by_one(bytes, texts.at, texts.end, lens.last, 0);
    }
}

/// The nine columns of a diff, one behind the other: each starts with its length.
pub proof fn law_columns_lie_one_behind_the_other(
    bytes: Seq<u8>,
    at: usize,
    end: usize,
    count: nat,
    list: Seq<(usize, usize)>,
)
    requires
        parts(bytes, at, end, count) == Some(list),
    ensures
        list.len() == count,
        forall|i: int|
            0 <= i < count ==> Some(#[trigger] list[i]) == part(
                bytes,
                if i == 0 {
                    at
                } else {
                    list[i - 1].1
                },
                end,
            ),
    decreases count,
{
    if count > 0 {
        let fewer = parts(bytes, at, end, (count - 1) as nat).unwrap();
        law_columns_lie_one_behind_the_other(bytes, at, end, (count - 1) as nat, fewer);
        assert forall|i: int| 0 <= i < count implies Some(#[trigger] list[i]) == part(
            bytes,
            if i == 0 {
                at
            } else {
                list[i - 1].1
            },
            end,
        ) by {
            if i < count - 1 {
                assert(fewer[i] == list[i]);
            }
        }
    }
}

/// A column is as long as the number in front of it says.
pub proof fn law_a_column_has_its_length(bytes: Seq<u8>, at: usize, end: usize, n: u32)
    requires
        holds(bytes, at as int, sevens(n as u64)),
        at + sevens(n as u64).len() <= end <= bytes.len(),
    ensures
        part(bytes, at, end) == if at + sevens(n as u64).len() + n <= end {
            Some(
                (
                    (at + sevens(n as u64).len()) as usize,
                    (at + sevens(n as u64).len() + n) as usize,
                ),
            )
        } else {
            None
        },
{
    law_a_number_is_read_as_written(bytes, at, end, n);
}

/// Which column holds what. What stands behind them is the body.
pub proof fn law_what_the_columns_hold(
    list: Seq<(usize, usize)>,
    text: (usize, usize),
    end: usize,
)
    ensures
        ({
            let r = opened(list, text, end);
            &&& r.key_clocks.at == list[0].0 && r.key_clocks.end == list[0].1
            &&& r.clients.at == list[1].0 && r.clients.end == list[1].1
            &&& r.lefts.at == list[2].0 && r.lefts.end == list[2].1
            &&& r.rights.at == list[3].0 && r.rights.end == list[3].1
            &&& r.infos.at == list[4].0 && r.infos.end == list[4].1
            &&& r.texts.at == text.0 && r.texts.end == text.1
            &&& r.texts.lens.at == text.1 && r.texts.lens.end == list[5].1
            &&& r.parents.at == list[6].0 && r.parents.end == list[6].1
            &&& r.types.at == list[7].0 && r.types.end == list[7].1
            &&& r.lens.at == list[8].0 && r.lens.end == list[8].1
            &&& r.clients.count == 0 && r.types.count == 0 && r.lens.count == 0
            &&& r.texts.lens.count == 0 && r.infos.count == 0 && r.parents.count == 0
            &&& r.lefts.count == 0 && r.rights.count == 0 && r.key_clocks.count == 0
            &&& r.lefts.last == 0 && r.rights.last == 0 && r.key_clocks.last == 0
            &&& r.deep@.len() == 0
        }),
{
}

/// A diff may have as many blocks and stored texts as a 32-bit machine has room for.
pub proof fn law_a_reader_starts_with_room(
    list: Seq<(usize, usize)>,
    text: (usize, usize),
    end: usize,
)
    ensures
        opened(list, text, end).room == 0x100_0000,
        opened(list, text, end).at == list[8].1,
        opened(list, text, end).end == end,
        opened(list, text, end).keys == 0,
{
}

// ---------------------------------------------------------------------------
// Texts
// ---------------------------------------------------------------------------

/// A character of one byte to four is taken for one exactly where it is one.
proof fn lemma_char_is_scalar(bytes: Seq<u8>, at: usize, end: usize)
    requires
        at < end <= bytes.len(),
    ensures
        ({
            let part = bytes.subrange(at as int, end as int);
            &&& char_len(bytes, at, end) is Some <==> valid_first_scalar(part)
            &&& char_len(bytes, at, end) matches Some(n) ==> n == length_of_first_scalar(part)
        }),
{
    let part = bytes.subrange(at as int, end as int);
    let b1 = bytes[at as int];
    assert(part[0] == b1);
    let b2 = if at + 1 < end {
        bytes[at + 1]
    } else {
        0
    };
    let b3 = if at + 2 < end {
        bytes[at + 2]
    } else {
        0
    };
    let b4 = if at + 3 < end {
        bytes[at + 3]
    } else {
        0
    };
    if at + 1 < end {
        assert(part[1] == b2);
    }
    if at + 2 < end {
        assert(part[2] == b3);
    }
    if at + 3 < end {
        assert(part[3] == b4);
    }
    let two = codepoint_width_2(b1, b2);
    let three = codepoint_width_3(b1, b2, b3);
    let four = codepoint_width_4(b1, b2, b3, b4);
    assert(b1 < 0x80 ==> (b1 & 0x7f) as u32 == b1) by (bit_vector);
    assert(0xc0 <= b1 <= 0xdf && 0x80 <= b2 <= 0xbf ==> ((two >= 0x80) <==> b1 >= 0xc2) && two
        < 0x800) by (bit_vector)
        requires
            two == (((b1 & 0x1f) as u32) << 6u32) | ((b2 & 0x3f) as u32),
    ;
    assert(0xe0 <= b1 <= 0xef && 0x80 <= b2 <= 0xbf && 0x80 <= b3 <= 0xbf ==> ((three >= 0x800
        && !(0xd800 <= three <= 0xdfff)) <==> (b1 == 0xe0 && b2 >= 0xa0 || b1 == 0xed && b2 <= 0x9f
        || 0xe1 <= b1 && b1 != 0xed)) && three < 0x10000) by (bit_vector)
        requires
            three == ((((b1 & 0x0f) as u32) << 12u32) | (((b2 & 0x3f) as u32) << 6u32)) | ((b3
                & 0x3f) as u32),
    ;
    assert(0xf0 <= b1 <= 0xf7 && 0x80 <= b2 <= 0xbf && 0x80 <= b3 <= 0xbf && 0x80 <= b4 <= 0xbf
        ==> ((0x10000 <= four <= 0x10ffff) <==> (b1 == 0xf0 && b2 >= 0x90 || b1 == 0xf4 && b2
        <= 0x8f || 0xf1 <= b1 <= 0xf3)) && (four >= 0x10000 ==> !(0xd800 <= four <= 0xdfff)))
        by (bit_vector)
        requires
            four == (((((b1 & 0x07) as u32) << 18u32) | (((b2 & 0x3f) as u32) << 12u32)) | (((b3
                & 0x3f) as u32) << 6u32)) | ((b4 & 0x3f) as u32),
    ;
    assert(goes_on(bytes, at + 1, end as int, 0x80, 0xbf) <==> part.len() >= 2 && 0x80 <= b2
        <= 0xbf);
    assert(goes_on(bytes, at + 2, end as int, 0x80, 0xbf) <==> part.len() >= 3 && 0x80 <= b3
        <= 0xbf);
    assert(goes_on(bytes, at + 3, end as int, 0x80, 0xbf) <==> part.len() >= 4 && 0x80 <= b4
        <= 0xbf);
}

/// The bytes of a text are taken for one exactly where they are UTF-8.
pub proof fn law_texts_are_utf8(bytes: Seq<u8>, at: usize, end: usize)
    requires
        at <= end <= bytes.len(),
    ensures
        utf8(bytes, at, end) <==> valid_utf8(bytes.subrange(at as int, end as int)),
    decreases end - at,
{
    let part = bytes.subrange(at as int, end as int);
    if at < end {
        lemma_char_is_scalar(bytes, at, end);
        if let Some(n) = char_len(bytes, at, end) {
            assert(at + n <= end);
            law_texts_are_utf8(bytes, (at + n) as usize, end);
            assert(pop_first_scalar(part) =~= bytes.subrange(at + n, end as int));
        }
    }
}

/// A text that is announced to go on until the end, or further, is read to the end, and
/// has as many units as characters, those of four bytes counting twice.
pub proof fn law_a_text_is_read_to_its_end(
    bytes: Seq<u8>,
    at: usize,
    end: usize,
    left: u64,
    done: u64,
)
    requires
        at <= end <= bytes.len(),
        utf8(bytes, at, end),
        left >= 2 * (end - at),
        done + 2 * (end - at) <= u32::MAX,
    ensures
        units_read(bytes, at, end, left, done) matches Some((stop, n)) && stop == end && done <= n
            <= done + (end - at),
        (forall|i: int| at <= i < end ==> bytes[i] < 0x80) ==> units_read(
            bytes,
            at,
            end,
            left,
            done,
        ) == Some((end, (done + (end - at)) as u64)),
    decreases end - at,
{
    if at < end {
        lemma_char_is_scalar(bytes, at, end);
        let n = char_len(bytes, at, end).unwrap();
        law_a_text_is_read_to_its_end(
            bytes,
            (at + n) as usize,
            end,
            (left - units(n)) as u64,
            (done + units(n)) as u64,
        );
    }
}

/// Plain letters are read one by one: as many as are announced, if there are so many.
pub proof fn law_letters_are_read_one_by_one(
    bytes: Seq<u8>,
    at: usize,
    end: usize,
    left: u64,
    done: u64,
)
    requires
        at + left <= end <= bytes.len(),
        forall|i: int| at <= i < end ==> bytes[i] < 0x80,
        done + left <= u32::MAX,
    ensures
        units_read(bytes, at, end, left, done) == Some(((at + left) as usize, (done + left) as u64)),
    decreases left,
{
    if left > 0 {
        assert(bytes[at as int] < 0x80);
        assert(char_len(bytes, at, end) == Some(1usize));
        law_letters_are_read_one_by_one(
            bytes,
            (at + 1) as usize,
            end,
            (left - 1) as u64,
            (done + 1) as u64,
        );
    }
}

/// A text in the middle of a diff is read where its length and its bytes say so, and ends
/// behind them.
pub proof fn law_an_inline_text_is_read(bytes: Seq<u8>, at: usize, end: usize, n: u32)
    requires
        holds(bytes, at as int, sevens(n as u64)),
        at + sevens(n as u64).len() + n <= end <= bytes.len(),
    ensures
        ({
            let start = (at + sevens(n as u64).len()) as usize;
            let stop = (start + n) as usize;
            &&& buffer(bytes, at, end) == Some((start, stop))
            &&& inline_text(bytes, at, end) == if valid_utf8(
                bytes.subrange(start as int, stop as int),
            ) {
                Some(stop)
            } else {
                None
            }
        }),
{
    law_a_number_is_read_as_written(bytes, at, end, n);
    let start = (at + sevens(n as u64).len()) as usize;
    law_texts_are_utf8(bytes, start, (start + n) as usize);
}

// ---------------------------------------------------------------------------
// Values
// ---------------------------------------------------------------------------

/// How long a value is that holds no others, by the byte it starts with; a list and a
/// map start with how many values they hold.
pub proof fn law_a_value_starts_with_its_kind(bytes: Seq<u8>, at: usize, end: usize)
    requires
        at < end <= bytes.len(),
    ensures
        ({
            let kind = bytes[at as int];
            let read = item(bytes, at, end);
            let behind = (at + 1) as usize;
            // undefined, null, true and false
            &&& kind == 127 || kind == 126 || kind == 121 || kind == 120 ==> read == Some(
                (behind, None::<Level>),
            )
            // whole numbers
            &&& forall|n: u64, minus: bool|
                kind == 125 && !(minus && n == 0x8000_0000_0000_0000) && #[trigger] holds(
                    bytes,
                    behind as int,
                    with_sign(n, minus),
                ) && behind + with_sign(n, minus).len() <= end ==> read == Some(
                    ((behind + with_sign(n, minus).len()) as usize, None::<Level>),
                )
            // numbers of four bytes and of eight
            &&& kind == 124 ==> read == if at + 5 <= end {
                Some(((at + 5) as usize, None::<Level>))
            } else {
                None
            }
            &&& kind == 123 || kind == 122 ==> read == if at + 9 <= end {
                Some(((at + 9) as usize, None::<Level>))
            } else {
                None
            }
            // texts and buffers
            &&& forall|n: u32|
                (kind == 119 || kind == 116) && #[trigger] holds(
                    bytes,
                    behind as int,
                    sevens(n as u64),
                ) && behind + sevens(n as u64).len() + n <= end ==> {
                    let start = behind + sevens(n as u64).len();
                    read == if kind == 116 || valid_utf8(bytes.subrange(start, start + n)) {
                        Some(((start + n) as usize, None::<Level>))
                    } else {
                        None
                    }
                }
            // maps and lists
            &&& forall|n: u64|
                (kind == 118 || kind == 117) && #[trigger] holds(bytes, behind as int, sevens(n))
                    && behind + sevens(n).len() <= end ==> read == Some(
                    (
                        (behind + sevens(n).len()) as usize,
                        Some(Level { left: n, keyed: kind == 118 }),
                    ),
                )
            &&& kind < 116 || kind > 127 ==> read is None
        }),
{
    let kind = bytes[at as int];
    let behind = (at + 1) as usize;
    assert forall|n: u64, minus: bool|
        kind == 125 && !(minus && n == 0x8000_0000_0000_0000) && #[trigger] holds(
            bytes,
            behind as int,
            with_sign(n, minus),
        ) && behind + with_sign(n, minus).len() <= end implies item(bytes, at, end) == Some(
        ((behind + with_sign(n, minus).len()) as usize, None::<Level>),
    ) by {
        law_a_signed_number_is_read_as_written(bytes, behind, end, n, minus);
    }
    assert forall|n: u32|
        (kind == 119 || kind == 116) && #[trigger] holds(
            bytes,
            behind as int,
            sevens(n as u64),
        ) && behind + sevens(n as u64).len() + n <= end implies {
        let start = behind + sevens(n as u64).len();
        item(bytes, at, end) == if kind == 116 || valid_utf8(bytes.subrange(start, start + n)) {
            Some(((start + n) as usize, None::<Level>))
        } else {
            None
        }
    } by {
        law_an_inline_text_is_read(bytes, behind, end, n);
    }
    assert forall|n: u64|
        (kind == 118 || kind == 117) && #[trigger] holds(bytes, behind as int, sevens(n)) && behind
            + sevens(n).len() <= end implies item(bytes, at, end) == Some(
        (
            (behind + sevens(n).len()) as usize,
            Some(Level { left: n, keyed: kind == 118 }),
        ),
    ) by {
        law_a_long_number_is_read_as_written(bytes, behind, end, n);
    }
}

// ---------------------------------------------------------------------------
// Blocks
// ---------------------------------------------------------------------------

/// How many clocks a block's content covers: deleted content as many as its column says,
/// a list of texts one more than that, a list of values just as many, a text as many as
/// it has units, and everything else one.
pub proof fn law_contents_cover_their_clocks(bytes: Seq<u8>, r: Reader, kind: u8)
    ensures
        ({
            let read = content_read(bytes, r, kind);
            &&& kind == 0 || kind == 10 || kind >= 12 ==> read is None
            &&& kind == 1 || kind == 2 || kind == 8 ==> match run_next(bytes, r.lens) {
                Some(lens) => read matches Some((next, n)) ==> next.lens == lens && n == (
                lens.last % 0x1_0000_0000) + if kind == 2 {
                    1int
                } else {
                    0int
                },
                None => read is None,
            }
            &&& kind == 1 ==> (read is Some <==> run_next(bytes, r.lens) is Some)
            &&& kind == 4 ==> match text_next(bytes, r.texts) {
                Some((texts, n)) => read matches Some((next, len)) && next.texts == texts && len
                    == n % 0x1_0000_0000 && next.at == r.at,
                None => read is None,
            }
            &&& kind == 3 || kind == 5 || kind == 6 || kind == 7 || kind == 9 || kind == 11 ==> (
            read matches Some((_, n)) ==> n == 1)
            &&& kind == 3 ==> match buffer(bytes, r.at, r.end) {
                Some((_, stop)) => read matches Some((next, _)) && next.at == stop,
                None => read is None,
            }
            &&& kind == 5 ==> match values(bytes, r.at, r.end, 1, r.deep@) {
                Some((at, deep)) => read matches Some((next, _)) && next.at == at && next.deep@
                    == deep,
                None => read is None,
            }
            // formatting has a key, a nested document a name, and both a value
            &&& kind == 6 || kind == 9 ==> match (if kind == 6 {
                key_read(bytes, r)
            } else {
                text_passed(bytes, r)
            }) {
                Some(named) => match values(bytes, named.at, named.end, 1, named.deep@) {
                    Some((at, deep)) => read matches Some((next, _)) && next.at == at
                        && next.deep@ == deep,
                    None => read is None,
                },
                None => read is None,
            }
            &&& kind == 8 ==> (read matches Some((next, n)) ==> values(
                bytes,
                r.at,
                r.end,
                n as u64,
                r.deep@,
            ) == Some((next.at, next.deep@)))
        }),
{
    if kind == 2 && run_next(bytes, r.lens) is Some {
        let lens = run_next(bytes, r.lens).unwrap();
        let n = (lens.last % 0x1_0000_0000) as u32;
        law_texts_take_room(bytes, Reader { lens, ..r }, (n + 1) as u32);
    }
}

/// A key that was given before is not given again.
pub proof fn law_a_known_key_is_not_given_again(bytes: Seq<u8>, r: Reader, key_clocks: Steps)
    requires
        step_next(bytes, r.key_clocks) == Some(key_clocks),
        r.keys < u32::MAX,
    ensures
        0 <= key_clocks.last < r.keys ==> (key_read(bytes, r) matches Some(next) && next.texts
            == r.texts && next.keys == r.keys),
        !(0 <= key_clocks.last < r.keys) ==> match text_next(bytes, r.texts) {
            Some((texts, _)) => key_read(bytes, r) matches Some(next) && next.texts == texts
                && next.keys == r.keys + 1,
            None => key_read(bytes, r) is None,
        },
{
}

/// A list of texts takes as many of them as it has, and room for each.
pub proof fn law_texts_take_room(bytes: Seq<u8>, r: Reader, count: u32)
    ensures
        texts_read(bytes, r, count) matches Some(next) ==> next.room == r.room - count && next.at
            == r.at && next.lens == r.lens,
        count > r.room ==> texts_read(bytes, r, count) is None,
    decreases count,
{
    if count > 0 && taken(r) is Some {
        let first = taken(r).unwrap();
        if text_passed(bytes, first) is Some {
            law_texts_take_room(
                bytes,
                text_passed(bytes, first).unwrap(),
                (count - 1) as u32,
            );
        }
    }
}

/// Only the nested types that there are can be read: of them an element alone has a name.
pub proof fn law_nested_types(bytes: Seq<u8>, r: Reader, types: Runs)
    requires
        run_next(bytes, r.types) == Some(types),
    ensures
        ({
            let kind = types.last % 256;
            let read = type_read(bytes, r);
            &&& kind == 0 || kind == 1 || kind == 2 || kind == 4 || kind == 5 || kind == 6 || kind
                == 9 || kind == 15 ==> read == Some(Reader { types, ..r })
            &&& kind == 3 ==> read == key_read(bytes, Reader { types, ..r })
            &&& kind == 7 || kind == 8 || 10 <= kind < 15 || kind > 15 ==> read is None
        }),
{
}

/// Whoever moves something says from where to where; one place where they are the same.
pub proof fn law_moves_name_their_ends(bytes: Seq<u8>, r: Reader, flags: i32, at: usize)
    requires
        signed32(bytes, r.at, r.end) == Some((flags, at)),
    ensures
        match id_passed(bytes, Reader { at, ..r }) {
            Some(one) => move_read(bytes, r) == if flags as int % 2 == 1 {
                Some(one)
            } else {
                id_passed(bytes, one)
            },
            None => move_read(bytes, r) is None,
        },
{
}

/// What a block says of its place: what is to its left, if it says so, then what is to
/// its right. Only one that says neither names its parent, and its key if it has one.
pub proof fn law_blocks_name_their_place(bytes: Seq<u8>, r: Reader, info: u8)
    ensures
        ({
            let left = info >= 128;
            let right = info / 64 % 2 == 1;
            let key = info / 32 % 2 == 1;
            let read = links_read(bytes, r, info);
            &&& left && !right ==> read == left_read(bytes, r)
            &&& !left && right ==> read == right_read(bytes, r)
            &&& left && right ==> match left_read(bytes, r) {
                Some(next) => read == right_read(bytes, next),
                None => read is None,
            }
            &&& !left && !right ==> match repeat_next(bytes, r.parents) {
                Some(parents) => {
                    let with = Reader { parents, ..r };
                    let named = if parents.last == 1 {
                        text_passed(bytes, with)
                    } else {
                        left_read(bytes, with)
                    };
                    match named {
                        Some(next) => read == if key {
                            text_passed(bytes, next)
                        } else {
                            Some(next)
                        },
                        None => read is None,
                    }
                },
                None => read is None,
            }
        }),
{
    assert((info & 0x80 != 0) == (info >= 128) && (info & 0x40 != 0) == (info / 64 % 2 == 1) && (info
        & 0x20 != 0) == (info / 32 % 2 == 1) && (info & 0xc0 != 0) == (info >= 128 || info / 64 % 2
        == 1)) by (bit_vector);
}

/// A block takes room. A gap is as long as the body says, a collected block as long as
/// its column says, and every other block says where it is and what it holds.
pub proof fn law_blocks_are_told_apart(bytes: Seq<u8>, r: Reader, infos: Repeats)
    requires
        repeat_next(bytes, r.infos) == Some(infos),
    ensures
        ({
            let read = block_read(bytes, r);
            let with = Reader { infos, room: (r.room - 1) as u32, ..r };
            &&& r.room == 0 ==> read is None
            &&& r.room > 0 && infos.last == 10 ==> match var32(bytes, r.at, r.end, 0, 0) {
                Some((n, at)) => read == Some((Reader { at, ..with }, n)),
                None => read is None,
            }
            &&& r.room > 0 && infos.last == 0 ==> match run_next(bytes, r.lens) {
                Some(lens) => read == Some(
                    (Reader { lens, ..with }, (lens.last % 0x1_0000_0000) as u32),
                ),
                None => read is None,
            }
            &&& r.room > 0 && infos.last != 10 && infos.last != 0 ==> match links_read(
                bytes,
                with,
                infos.last,
            ) {
                Some(next) => read == content_read(bytes, next, infos.last % 16),
                None => read is None,
            }
        }),
{
    let info = infos.last;
    assert(info & 15 == info % 16) by (bit_vector);
}

/// The blocks of one writer follow each other without a gap, and end where a clock still
/// fits; a writer with no blocks needs nothing.
pub proof fn law_blocks_follow_each_other(bytes: Seq<u8>, r: Reader, clock: u32, count: u32)
    ensures
        count == 0 ==> blocks_read(bytes, r, clock, count) == Some(r),
        count > 0 ==> match block_read(bytes, r) {
            Some((next, len)) => blocks_read(bytes, r, clock, count) == if clock as int + len
                < 0x1_0000_0000 {
                blocks_read(bytes, next, (clock + len) as u32, (count - 1) as u32)
            } else {
                None
            },
            None => blocks_read(bytes, r, clock, count) is None,
        },
{
}

/// Ranges of deletions: each starts a gap behind the one before, and holds one clock
/// more than it says.
pub proof fn law_deletions_follow_each_other(
    bytes: Seq<u8>,
    at: usize,
    end: usize,
    clock: u32,
    count: u32,
    gap: u32,
    len: u32,
)
    requires
        count > 0,
        holds(bytes, at as int, sevens(gap as u64) + sevens(len as u64)),
        at + sevens(gap as u64).len() + sevens(len as u64).len() <= end <= bytes.len(),
    ensures
        ranges_read(bytes, at, end, clock, count) == if clock as int + gap + len + 1 < 0x1_0000_0000 {
            ranges_read(
                bytes,
                (at + sevens(gap as u64).len() + sevens(len as u64).len()) as usize,
                end,
                (clock + gap + len + 1) as u32,
                (count - 1) as u32,
            )
        } else {
            None
        },
        ranges_read(bytes, at, end, clock, 0) == Some(at),
{
    let first = sevens(gap as u64);
    let second = sevens(len as u64);
    let both = first + second;
    assert(holds(bytes, at as int, first)) by {
        assert forall|i: int| 0 <= i < first.len() implies bytes[at + i] == #[trigger] first[i] by {
            assert(both[i] == first[i]);
        }
    }
    assert(holds(bytes, at + first.len(), second)) by {
        assert forall|i: int| 0 <= i < second.len() implies bytes[at + first.len() + i]
            == #[trigger] second[i] by {
            assert(both[first.len() + i] == second[i]);
        }
    }
    law_a_number_is_read_as_written(bytes, at, end, gap);
    law_a_number_is_read_as_written(bytes, (at + first.len()) as usize, end, len);
}

} // verus!
