//! Which bytes are a diff that can be decoded, on every machine and in every build.
//!
//! A diff is written in the second version of the lib0 encoding: nine parts with a
//! length in front, each of which holds one column of the blocks (clocks, clients,
//! flags, texts, lengths), and behind them what is not column-wise. A decoder takes
//! the columns apart as it goes from block to block. It is written for what its own
//! encoder puts down: on other bytes a sum of clocks can overflow, a text can be
//! something other than UTF-8, and a few bytes can announce more than any memory
//! holds. Here the same columns are gone through in the same order, so that such
//! bytes are told apart before they are decoded.
//!
//! [`readable`] says which bytes can be decoded. Lists and maps that lie too deep in
//! each other for a decoder have no bearing on the clocks: [`flatten`] blanks them, so
//! that what is left can be decoded.

use vstd::prelude::*;

use crate::wire_laws::{in_order, law_what_is_read_can_be_decoded, lies_in};

verus! {

/// How deep lists and maps may lie in each other. The decoder goes down one call for
/// each level, and where the stack ends it does not come back: how deep that is
/// depends on the machine, the build and the thread. This many levels are within what
/// every one of them has; what lies deeper is blanked before it is decoded.
pub const DEPTH: u32 = 128;

/// How many blocks and stored texts a diff may have. A few bytes can announce any
/// number of them. The decoder asks for room for all of them and fails where it gets
/// none. So many take up what a machine of thirty-two bits can address: of more, it
/// would depend on the machine whether they can be decoded.
pub const UNITS: u32 = 16777216;

// ---------------------------------------------------------------------------
// Numbers
// ---------------------------------------------------------------------------

/// The byte at `at`, if it lies before `end`.
pub open spec fn byte_at(bytes: Seq<u8>, at: usize, end: usize) -> Option<u8> {
    if at < end && at < bytes.len() {
        Some(bytes[at as int])
    } else {
        None
    }
}

fn get_byte(bytes: &[u8], at: usize, end: usize) -> (byte: Option<u8>)
    ensures
        byte == byte_at(bytes@, at, end),
{
    if at < end && at < bytes.len() {
        Some(bytes[at])
    } else {
        None
    }
}

/// A length in front of a part, of which the bits below `shift` are `sum`: the
/// length, and where it ends. Seven bits per byte, smallest first; the highest bit
/// says that another byte follows. It has at most thirty-two bits in five bytes:
/// beyond these, machines differ in what they make of it.
pub open spec fn length_at(
    bytes: Seq<u8>,
    at: usize,
    end: usize,
    shift: u32,
    sum: u32,
) -> Option<(u32, usize)>
    decreases end - at,
{
    match byte_at(bytes, at, end) {
        Some(b) => if shift >= 28 && b >= 16 {
            None
        } else {
            let sum = sum | (((b & 127) as u32) << shift);
            if b < 128 {
                Some((sum, (at + 1) as usize))
            } else {
                length_at(bytes, (at + 1) as usize, end, (shift + 7) as u32, sum)
            }
        },
        None => None,
    }
}

fn get_length(bytes: &[u8], at: usize, end: usize, shift: u32, sum: u32) -> (read: Option<
    (u32, usize),
>)
    requires
        shift <= 28,
        shift % 7 == 0,
    ensures
        read == length_at(bytes@, at, end, shift, sum),
    decreases end - at,
{
    match get_byte(bytes, at, end) {
        Some(b) => {
            if shift >= 28 && b >= 16 {
                return None;
            }
            let sum: u32 = sum | (((b & 127) as u32) << shift);
            if b < 128 {
                Some((sum, at + 1))
            } else {
                get_length(bytes, at + 1, end, shift + 7, sum)
            }
        },
        None => None,
    }
}

/// A 32-bit number. Bits past the highest one come in again from below, and there
/// are at most eleven bytes.
pub open spec fn var32(
    bytes: Seq<u8>,
    at: usize,
    end: usize,
    shift: u32,
    sum: u32,
) -> Option<(u32, usize)>
    decreases end - at,
{
    match byte_at(bytes, at, end) {
        Some(b) => {
            let sum = sum | (((b & 127) as u32) << (shift % 32));
            if b < 128 {
                Some((sum, (at + 1) as usize))
            } else if shift + 7 > 70 {
                None
            } else {
                var32(bytes, (at + 1) as usize, end, (shift + 7) as u32, sum)
            }
        },
        None => None,
    }
}

fn get_var32(bytes: &[u8], at: usize, end: usize, shift: u32, sum: u32) -> (read: Option<
    (u32, usize),
>)
    requires
        shift <= 70,
    ensures
        read == var32(bytes@, at, end, shift, sum),
    decreases end - at,
{
    match get_byte(bytes, at, end) {
        Some(b) => {
            let sum: u32 = sum | (((b & 127) as u32) << (shift % 32));
            if b < 128 {
                Some((sum, at + 1))
            } else if shift + 7 > 70 {
                None
            } else {
                get_var32(bytes, at + 1, end, shift + 7, sum)
            }
        },
        None => None,
    }
}

/// A 64-bit number, written like a 32-bit one.
pub open spec fn var64(
    bytes: Seq<u8>,
    at: usize,
    end: usize,
    shift: u32,
    sum: u64,
) -> Option<(u64, usize)>
    decreases end - at,
{
    match byte_at(bytes, at, end) {
        Some(b) => {
            let sum = sum | (((b & 127) as u64) << ((shift % 64) as u64));
            if b < 128 {
                Some((sum, (at + 1) as usize))
            } else if shift + 7 > 70 {
                None
            } else {
                var64(bytes, (at + 1) as usize, end, (shift + 7) as u32, sum)
            }
        },
        None => None,
    }
}

fn get_var64(bytes: &[u8], at: usize, end: usize, shift: u32, sum: u64) -> (read: Option<
    (u64, usize),
>)
    requires
        shift <= 70,
    ensures
        read == var64(bytes@, at, end, shift, sum),
    decreases end - at,
{
    match get_byte(bytes, at, end) {
        Some(b) => {
            let sum: u64 = sum | (((b & 127) as u64) << ((shift % 64) as u64));
            if b < 128 {
                Some((sum, at + 1))
            } else if shift + 7 > 70 {
                None
            } else {
                get_var64(bytes, at + 1, end, shift + 7, sum)
            }
        },
        None => None,
    }
}

/// The rest of a signed number, of which the bits below `shift` are `sum`.
pub open spec fn signed_rest(
    bytes: Seq<u8>,
    at: usize,
    end: usize,
    shift: u32,
    sum: u64,
) -> Option<(u64, usize)>
    decreases end - at,
{
    match byte_at(bytes, at, end) {
        Some(b) => if shift > 62 {
            None
        } else {
            let sum = sum | (((b & 127) as u64) << (shift as u64));
            if b < 128 {
                Some((sum, (at + 1) as usize))
            } else {
                signed_rest(bytes, (at + 1) as usize, end, (shift + 7) as u32, sum)
            }
        },
        None => None,
    }
}

fn get_signed_rest(bytes: &[u8], at: usize, end: usize, shift: u32, sum: u64) -> (read: Option<
    (u64, usize),
>)
    requires
        shift <= 69,
    ensures
        read == signed_rest(bytes@, at, end, shift, sum),
    decreases end - at,
{
    match get_byte(bytes, at, end) {
        Some(b) => {
            if shift > 62 {
                return None;
            }
            let sum: u64 = sum | (((b & 127) as u64) << (shift as u64));
            if b < 128 {
                Some((sum, at + 1))
            } else {
                get_signed_rest(bytes, at + 1, end, shift + 7, sum)
            }
        },
        None => None,
    }
}

/// A signed number: its bits, whether it has a minus sign, and where it ends. The
/// lowest number has no opposite, so that a minus sign in front of it is not taken.
pub open spec fn signed(bytes: Seq<u8>, at: usize, end: usize) -> Option<(u64, bool, usize)> {
    match byte_at(bytes, at, end) {
        Some(b) => {
            let minus = b & 64 != 0;
            if b < 128 {
                Some(((b & 63) as u64, minus, (at + 1) as usize))
            } else {
                match signed_rest(bytes, (at + 1) as usize, end, 6, (b & 63) as u64) {
                    Some((bits, next)) => if minus && bits == 0x8000_0000_0000_0000 {
                        None
                    } else {
                        Some((bits, minus, next))
                    },
                    None => None,
                }
            }
        },
        None => None,
    }
}

fn get_signed(bytes: &[u8], at: usize, end: usize) -> (read: Option<(u64, bool, usize)>)
    ensures
        read == signed(bytes@, at, end),
{
    match get_byte(bytes, at, end) {
        Some(b) => {
            let minus = b & 64 != 0;
            if b < 128 {
                Some(((b & 63) as u64, minus, at + 1))
            } else {
                match get_signed_rest(bytes, at + 1, end, 6, (b & 63) as u64) {
                    Some((bits, next)) => if minus && bits == 0x8000_0000_0000_0000 {
                        None
                    } else {
                        Some((bits, minus, next))
                    },
                    None => None,
                }
            }
        },
        None => None,
    }
}

/// The number that sixty-four bits and a sign stand for.
pub open spec fn signed_value(bits: u64, minus: bool) -> int {
    let value = if bits < 0x8000_0000_0000_0000 {
        bits as int
    } else {
        bits - 0x1_0000_0000_0000_0000
    };
    if minus {
        -value
    } else {
        value
    }
}

/// A signed number of thirty-two bits.
pub open spec fn signed32(bytes: Seq<u8>, at: usize, end: usize) -> Option<(i32, usize)> {
    match signed(bytes, at, end) {
        Some((bits, minus, next)) => {
            let value = signed_value(bits, minus);
            if i32::MIN <= value <= i32::MAX {
                Some((value as i32, next))
            } else {
                None
            }
        },
        None => None,
    }
}

fn get_signed32(bytes: &[u8], at: usize, end: usize) -> (read: Option<(i32, usize)>)
    ensures
        read == signed32(bytes@, at, end),
{
    match get_signed(bytes, at, end) {
        Some((bits, minus, next)) => {
            let plain: i128 = if bits < 0x8000_0000_0000_0000 {
                bits as i128
            } else {
                bits as i128 - 0x1_0000_0000_0000_0000
            };
            let value: i128 = if minus {
                -plain
            } else {
                plain
            };
            if -0x8000_0000 <= value && value <= 0x7fff_ffff {
                Some((value as i32, next))
            } else {
                None
            }
        },
        None => None,
    }
}

// ---------------------------------------------------------------------------
// Columns
// ---------------------------------------------------------------------------

/// A column of numbers in which a number with a minus sign is followed by how often
/// it occurs.
#[derive(Clone, Copy)]
pub struct Runs {
    pub at: usize,
    pub end: usize,
    /// The number read last.
    pub last: u64,
    /// How often it is still to come.
    pub count: u32,
}

/// The column after its next number was read.
pub open spec fn run_next(bytes: Seq<u8>, runs: Runs) -> Option<Runs> {
    if runs.count > 0 {
        Some(Runs { count: (runs.count - 1) as u32, ..runs })
    } else {
        match signed(bytes, runs.at, runs.end) {
            Some((bits, minus, next)) => if minus {
                match var32(bytes, next, runs.end, 0, 0) {
                    Some((n, at)) => if n > u32::MAX - 2 {
                        None
                    } else {
                        Some(Runs { at, end: runs.end, last: bits, count: (n + 1) as u32 })
                    },
                    None => None,
                }
            } else {
                Some(Runs { at: next, end: runs.end, last: bits, count: 0 })
            },
            None => None,
        }
    }
}

fn get_run(bytes: &[u8], runs: Runs) -> (next: Option<Runs>)
    ensures
        next == run_next(bytes@, runs),
{
    if runs.count > 0 {
        return Some(Runs { at: runs.at, end: runs.end, last: runs.last, count: runs.count - 1 });
    }
    match get_signed(bytes, runs.at, runs.end) {
        Some((bits, minus, next)) => if minus {
            match get_var32(bytes, next, runs.end, 0, 0) {
                Some((n, at)) => if n > u32::MAX - 2 {
                    None
                } else {
                    Some(Runs { at, end: runs.end, last: bits, count: n + 1 })
                },
                None => None,
            }
        } else {
            Some(Runs { at: next, end: runs.end, last: bits, count: 0 })
        },
        None => None,
    }
}

/// A column of clocks, written as differences. The lowest bit of a difference says
/// whether it is followed by how often it occurs.
#[derive(Clone, Copy)]
pub struct Steps {
    pub at: usize,
    pub end: usize,
    /// The clock read last.
    pub last: i32,
    pub diff: i32,
    /// How often the difference is still to come.
    pub count: u32,
}

/// The column with a difference to go on with, if it can be read.
pub open spec fn step_loaded(bytes: Seq<u8>, steps: Steps) -> Option<Steps> {
    if steps.count > 0 {
        Some(steps)
    } else {
        match signed32(bytes, steps.at, steps.end) {
            Some((coded, next)) => {
                let diff = (coded as int / 2) as i32;
                if coded as int % 2 == 1 {
                    match var32(bytes, next, steps.end, 0, 0) {
                        Some((n, at)) => if n > u32::MAX - 2 {
                            None
                        } else {
                            Some(Steps { at, diff, count: (n + 2) as u32, ..steps })
                        },
                        None => None,
                    }
                } else {
                    Some(Steps { at: next, diff, count: 1, ..steps })
                }
            },
            None => None,
        }
    }
}

fn load_step(bytes: &[u8], steps: Steps) -> (next: Option<Steps>)
    ensures
        next == step_loaded(bytes@, steps),
        next matches Some(next) ==> next.count > 0,
{
    if steps.count > 0 {
        return Some(steps);
    }
    match get_signed32(bytes, steps.at, steps.end) {
        Some((coded, next)) => {
            let lifted: u64 = (coded as i64 + 0x8000_0000) as u64;
            let half: i64 = (lifted / 2) as i64 - 0x4000_0000;
            let diff: i32 = half as i32;
            assert(half == coded as int / 2 && lifted % 2 == coded as int % 2);
            if lifted % 2 == 1 {
                match get_var32(bytes, next, steps.end, 0, 0) {
                    Some((n, at)) => if n > u32::MAX - 2 {
                        None
                    } else {
                        Some(Steps { at, end: steps.end, last: steps.last, diff, count: n + 2 })
                    },
                    None => None,
                }
            } else {
                Some(Steps { at: next, end: steps.end, last: steps.last, diff, count: 1 })
            }
        },
        None => None,
    }
}

/// The column after its next clock was read. Clocks stay within thirty-two bits.
pub open spec fn step_next(bytes: Seq<u8>, steps: Steps) -> Option<Steps> {
    match step_loaded(bytes, steps) {
        Some(steps) => if i32::MIN <= steps.last + steps.diff <= i32::MAX {
            Some(
                Steps {
                    last: (steps.last + steps.diff) as i32,
                    count: (steps.count - 1) as u32,
                    ..steps
                },
            )
        } else {
            None
        },
        None => None,
    }
}

fn get_step(bytes: &[u8], steps: Steps) -> (next: Option<Steps>)
    ensures
        next == step_next(bytes@, steps),
{
    match load_step(bytes, steps) {
        Some(steps) => {
            let sum: i64 = steps.last as i64 + steps.diff as i64;
            if -0x8000_0000 <= sum && sum <= 0x7fff_ffff {
                Some(
                    Steps {
                        at: steps.at,
                        end: steps.end,
                        last: sum as i32,
                        diff: steps.diff,
                        count: steps.count - 1,
                    },
                )
            } else {
                None
            }
        },
        None => None,
    }
}

/// A column of bytes, each followed by how often it occurs; the last one occurs for
/// ever.
#[derive(Clone, Copy)]
pub struct Repeats {
    pub at: usize,
    pub end: usize,
    /// The byte read last.
    pub last: u8,
    /// How often it is still to come; less than none stands for ever.
    pub count: i32,
}

/// Thirty-two bits as a signed number.
pub open spec fn as_signed(n: u32) -> int {
    if n < 0x8000_0000 {
        n as int
    } else {
        n - 0x1_0000_0000
    }
}

/// The column with a byte to go on with, if it can be read.
pub open spec fn repeat_loaded(bytes: Seq<u8>, repeats: Repeats) -> Option<Repeats> {
    if repeats.count != 0 {
        Some(repeats)
    } else {
        match byte_at(bytes, repeats.at, repeats.end) {
            Some(last) => {
                let next = (repeats.at + 1) as usize;
                if next < repeats.end {
                    match var32(bytes, next, repeats.end, 0, 0) {
                        Some((n, at)) => if as_signed(n) == i32::MAX {
                            None
                        } else {
                            Some(
                                Repeats {
                                    at,
                                    end: repeats.end,
                                    last,
                                    count: (as_signed(n) + 1) as i32,
                                },
                            )
                        },
                        None => None,
                    }
                } else {
                    Some(Repeats { at: next, end: repeats.end, last, count: (-1) as i32 })
                }
            },
            None => None,
        }
    }
}

fn load_repeat(bytes: &[u8], repeats: Repeats) -> (next: Option<Repeats>)
    ensures
        next == repeat_loaded(bytes@, repeats),
{
    if repeats.count != 0 {
        return Some(repeats);
    }
    match get_byte(bytes, repeats.at, repeats.end) {
        Some(last) => {
            let next: usize = repeats.at + 1;
            if next < repeats.end {
                match get_var32(bytes, next, repeats.end, 0, 0) {
                    Some((n, at)) => {
                        let plain: i64 = if n < 0x8000_0000 {
                            n as i64
                        } else {
                            n as i64 - 0x1_0000_0000
                        };
                        if plain == 0x7fff_ffff {
                            None
                        } else {
                            Some(Repeats { at, end: repeats.end, last, count: (plain + 1) as i32 })
                        }
                    },
                    None => None,
                }
            } else {
                Some(Repeats { at: next, end: repeats.end, last, count: -1 })
            }
        },
        None => None,
    }
}

/// The column after its next byte was read.
pub open spec fn repeat_next(bytes: Seq<u8>, repeats: Repeats) -> Option<Repeats> {
    match repeat_loaded(bytes, repeats) {
        Some(repeats) => if repeats.count == i32::MIN {
            None
        } else {
            Some(Repeats { count: (repeats.count - 1) as i32, ..repeats })
        },
        None => None,
    }
}

fn get_repeat(bytes: &[u8], repeats: Repeats) -> (next: Option<Repeats>)
    ensures
        next == repeat_next(bytes@, repeats),
{
    match load_repeat(bytes, repeats) {
        Some(repeats) => if repeats.count == i32::MIN {
            None
        } else {
            Some(
                Repeats {
                    at: repeats.at,
                    end: repeats.end,
                    last: repeats.last,
                    count: repeats.count - 1,
                },
            )
        },
        None => None,
    }
}

// ---------------------------------------------------------------------------
// Texts
// ---------------------------------------------------------------------------

/// A byte within a character, after its first one.
pub open spec fn goes_on(bytes: Seq<u8>, at: int, end: int, low: u8, high: u8) -> bool {
    at < end && at < bytes.len() && low <= bytes[at] <= high
}

/// How many bytes the character at `at` has, if there is one.
pub open spec fn char_len(bytes: Seq<u8>, at: usize, end: usize) -> Option<usize> {
    let second = at + 1;
    let third = goes_on(bytes, at + 2, end as int, 0x80, 0xbf);
    let fourth = goes_on(bytes, at + 3, end as int, 0x80, 0xbf);
    match byte_at(bytes, at, end) {
        Some(b) => if b < 0x80 {
            Some(1)
        } else if 0xc2 <= b <= 0xdf && goes_on(bytes, second, end as int, 0x80, 0xbf) {
            Some(2)
        } else if third && (b == 0xe0 && goes_on(bytes, second, end as int, 0xa0, 0xbf) || b == 0xed
            && goes_on(bytes, second, end as int, 0x80, 0x9f) || 0xe1 <= b <= 0xef && b != 0xed
            && goes_on(bytes, second, end as int, 0x80, 0xbf)) {
            Some(3)
        } else if third && fourth && (b == 0xf0 && goes_on(bytes, second, end as int, 0x90, 0xbf)
            || b == 0xf4 && goes_on(bytes, second, end as int, 0x80, 0x8f) || 0xf1 <= b <= 0xf3
            && goes_on(bytes, second, end as int, 0x80, 0xbf)) {
            Some(4)
        } else {
            None
        },
        None => None,
    }
}

fn get_going_on(bytes: &[u8], at: usize, more: usize, end: usize, low: u8, high: u8) -> (yes: bool)
    requires
        at < end,
        more <= 3,
    ensures
        yes == goes_on(bytes@, at + more, end as int, low, high),
{
    if end - at <= more || bytes.len() <= more || bytes.len() - more <= at {
        return false;
    }
    low <= bytes[at + more] && bytes[at + more] <= high
}

fn get_char_len(bytes: &[u8], at: usize, end: usize) -> (len: Option<usize>)
    ensures
        len == char_len(bytes@, at, end),
        len matches Some(n) ==> 1 <= n <= 4 && at + n <= end,
{
    match get_byte(bytes, at, end) {
        Some(b) => {
            if b < 0x80 {
                return Some(1);
            }
            if 0xc2 <= b && b <= 0xdf && get_going_on(bytes, at, 1, end, 0x80, 0xbf) {
                return Some(2);
            }
            let third = get_going_on(bytes, at, 2, end, 0x80, 0xbf);
            let fourth = get_going_on(bytes, at, 3, end, 0x80, 0xbf);
            if third && (b == 0xe0 && get_going_on(bytes, at, 1, end, 0xa0, 0xbf) || b == 0xed
                && get_going_on(bytes, at, 1, end, 0x80, 0x9f) || 0xe1 <= b && b <= 0xef && b != 0xed
                && get_going_on(bytes, at, 1, end, 0x80, 0xbf)) {
                return Some(3);
            }
            if third && fourth && (b == 0xf0 && get_going_on(bytes, at, 1, end, 0x90, 0xbf) || b
                == 0xf4 && get_going_on(bytes, at, 1, end, 0x80, 0x8f) || 0xf1 <= b && b <= 0xf3
                && get_going_on(bytes, at, 1, end, 0x80, 0xbf)) {
                return Some(4);
            }
            None
        },
        None => None,
    }
}

/// The bytes from `at` to `end` are UTF-8.
pub open spec fn utf8(bytes: Seq<u8>, at: usize, end: usize) -> bool
    decreases end - at,
{
    if at >= end {
        at == end
    } else {
        match char_len(bytes, at, end) {
            Some(n) => at + n <= end && n > 0 && utf8(bytes, (at + n) as usize, end),
            None => false,
        }
    }
}

fn is_utf8(bytes: &[u8], at: usize, end: usize) -> (yes: bool)
    ensures
        yes == utf8(bytes@, at, end),
{
    let mut now: usize = at;
    while now < end
        invariant
            utf8(bytes@, at, end) == utf8(bytes@, now, end),
        decreases end - now,
    {
        match get_char_len(bytes, now, end) {
            Some(n) => {
                now += n;
            },
            None => {
                return false;
            },
        }
    }
    now == end
}

/// How many UTF-16 units a character of that many bytes has.
pub open spec fn units(len: usize) -> u64 {
    if len == 4 {
        2
    } else {
        1
    }
}

/// Reading up to `left` more units of text: where that ends, and how many units are
/// read together with the `done` ones. A character is not taken apart.
pub open spec fn units_read(
    bytes: Seq<u8>,
    at: usize,
    end: usize,
    left: u64,
    done: u64,
) -> Option<(usize, u64)>
    decreases end - at,
{
    if left == 0 || at >= end {
        Some((at, done))
    } else {
        match char_len(bytes, at, end) {
            Some(n) => if at + n <= end && 0 < n && units(n) <= left && done + units(n)
                <= u32::MAX {
                units_read(
                    bytes,
                    (at + n) as usize,
                    end,
                    (left - units(n)) as u64,
                    (done + units(n)) as u64,
                )
            } else {
                None
            },
            None => None,
        }
    }
}

fn read_units(bytes: &[u8], at: usize, end: usize, left: u64) -> (read: Option<(usize, u64)>)
    ensures
        read == units_read(bytes@, at, end, left, 0),
{
    let mut now: usize = at;
    let mut rest: u64 = left;
    let mut done: u64 = 0;
    while rest > 0 && now < end
        invariant
            units_read(bytes@, at, end, left, 0) == units_read(bytes@, now, end, rest, done),
            done <= u32::MAX,
        decreases end - now,
    {
        match get_char_len(bytes, now, end) {
            Some(n) => {
                let width: u64 = if n == 4 {
                    2
                } else {
                    1
                };
                if width > rest || done + width > u32::MAX as u64 {
                    return None;
                }
                now += n;
                rest -= width;
                done += width;
            },
            None => {
                return None;
            },
        }
    }
    Some((now, done))
}

/// The texts, one after the other, and their lengths in UTF-16 units.
#[derive(Clone, Copy)]
pub struct Texts {
    pub at: usize,
    pub end: usize,
    pub lens: Runs,
}

/// The texts after the next one was read, and how many units it has. A length has
/// at most thirty-two bits: beyond these, machines differ in what they make of it.
pub open spec fn text_next(bytes: Seq<u8>, texts: Texts) -> Option<(Texts, u64)> {
    match run_next(bytes, texts.lens) {
        Some(lens) => if lens.last > u32::MAX {
            None
        } else {
            match units_read(bytes, texts.at, texts.end, lens.last, 0) {
                Some((at, n)) => Some((Texts { at, end: texts.end, lens }, n)),
                None => None,
            }
        },
        None => None,
    }
}

fn get_text(bytes: &[u8], texts: Texts) -> (next: Option<(Texts, u64)>)
    ensures
        next == text_next(bytes@, texts),
{
    match get_run(bytes, texts.lens) {
        Some(lens) => if lens.last > u32::MAX as u64 {
            None
        } else {
            match read_units(bytes, texts.at, texts.end, lens.last) {
                Some((at, n)) => Some((Texts { at, end: texts.end, lens }, n)),
                None => None,
            }
        },
        None => None,
    }
}

// ---------------------------------------------------------------------------
// Values
// ---------------------------------------------------------------------------

/// The place `n` bytes further, if it lies not past `end`.
pub open spec fn skipped(at: usize, n: int, end: usize) -> Option<usize> {
    if at + n <= end {
        Some((at + n) as usize)
    } else {
        None
    }
}

fn skip(at: usize, n: usize, end: usize) -> (next: Option<usize>)
    ensures
        next == skipped(at, n as int, end),
{
    if at <= end && n <= end - at {
        Some(at + n)
    } else {
        None
    }
}

/// Bytes with their number in front: where they start and where they end.
pub open spec fn buffer(bytes: Seq<u8>, at: usize, end: usize) -> Option<(usize, usize)> {
    match var32(bytes, at, end, 0, 0) {
        Some((n, start)) => match skipped(start, n as int, end) {
            Some(stop) => Some((start, stop)),
            None => None,
        },
        None => None,
    }
}

fn get_buffer(bytes: &[u8], at: usize, end: usize) -> (read: Option<(usize, usize)>)
    ensures
        read == buffer(bytes@, at, end),
{
    match get_var32(bytes, at, end, 0, 0) {
        Some((n, start)) => match skip(start, n as usize, end) {
            Some(stop) => Some((start, stop)),
            None => None,
        },
        None => None,
    }
}

/// A text with the number of its bytes in front: where it ends.
pub open spec fn inline_text(bytes: Seq<u8>, at: usize, end: usize) -> Option<usize> {
    match buffer(bytes, at, end) {
        Some((start, stop)) => if utf8(bytes, start, stop) {
            Some(stop)
        } else {
            None
        },
        None => None,
    }
}

fn get_inline_text(bytes: &[u8], at: usize, end: usize) -> (next: Option<usize>)
    ensures
        next == inline_text(bytes@, at, end),
{
    match get_buffer(bytes, at, end) {
        Some((start, stop)) => if is_utf8(bytes, start, stop) {
            Some(stop)
        } else {
            None
        },
        None => None,
    }
}

/// One list or map that is being read: how many items are still to come, and whether
/// each of them has a key in front.
#[derive(Clone, Copy)]
pub struct Level {
    pub left: u64,
    pub keyed: bool,
}

/// A value, or only the start of it where it is a list or a map: where that ends, and
/// what it is a list or a map of.
pub open spec fn item(bytes: Seq<u8>, at: usize, end: usize) -> Option<(usize, Option<Level>)> {
    let next = (at + 1) as usize;
    match byte_at(bytes, at, end) {
        Some(tag) => if tag == 127 || tag == 126 || tag == 121 || tag == 120 {
            Some((next, None))
        } else if tag == 125 {
            match signed(bytes, next, end) {
                Some((_, _, next)) => Some((next, None)),
                None => None,
            }
        } else if tag == 124 || tag == 123 || tag == 122 {
            match skipped(next, if tag == 124 {
                4
            } else {
                8
            }, end) {
                Some(next) => Some((next, None)),
                None => None,
            }
        } else if tag == 119 {
            match inline_text(bytes, next, end) {
                Some(next) => Some((next, None)),
                None => None,
            }
        } else if tag == 116 {
            match buffer(bytes, next, end) {
                Some((_, stop)) => Some((stop, None)),
                None => None,
            }
        } else if tag == 118 || tag == 117 {
            match var64(bytes, next, end, 0, 0) {
                Some((left, next)) => Some((next, Some(Level { left, keyed: tag == 118 }))),
                None => None,
            }
        } else {
            None
        },
        None => None,
    }
}

fn get_item(bytes: &[u8], at: usize, end: usize) -> (read: Option<(usize, Option<Level>)>)
    ensures
        read == item(bytes@, at, end),
{
    match get_byte(bytes, at, end) {
        Some(tag) => {
            let next: usize = at + 1;
            if tag == 127 || tag == 126 || tag == 121 || tag == 120 {
                Some((next, None))
            } else if tag == 125 {
                match get_signed(bytes, next, end) {
                    Some((_, _, next)) => Some((next, None)),
                    None => None,
                }
            } else if tag == 124 || tag == 123 || tag == 122 {
                match skip(next, if tag == 124 {
                    4
                } else {
                    8
                }, end) {
                    Some(next) => Some((next, None)),
                    None => None,
                }
            } else if tag == 119 {
                match get_inline_text(bytes, next, end) {
                    Some(next) => Some((next, None)),
                    None => None,
                }
            } else if tag == 116 {
                match get_buffer(bytes, next, end) {
                    Some((_, stop)) => Some((stop, None)),
                    None => None,
                }
            } else if tag == 118 || tag == 117 {
                match get_var64(bytes, next, end, 0, 0) {
                    Some((left, next)) => Some((next, Some(Level { left, keyed: tag == 118 }))),
                    None => None,
                }
            } else {
                None
            }
        },
        None => None,
    }
}

pub(crate) proof fn lemma_var32_moves(bytes: Seq<u8>, at: usize, end: usize, shift: u32, sum: u32)
    ensures
        var32(bytes, at, end, shift, sum) matches Some((_, next)) ==> at < next <= end,
    decreases end - at,
{
    match byte_at(bytes, at, end) {
        Some(b) => {
            let more = sum | (((b & 127) as u32) << (shift % 32));
            if b >= 128 && shift + 7 <= 70 {
                lemma_var32_moves(bytes, (at + 1) as usize, end, (shift + 7) as u32, more);
            }
        },
        None => {},
    }
}

pub(crate) proof fn lemma_var64_moves(bytes: Seq<u8>, at: usize, end: usize, shift: u32, sum: u64)
    ensures
        var64(bytes, at, end, shift, sum) matches Some((_, next)) ==> at < next <= end,
    decreases end - at,
{
    match byte_at(bytes, at, end) {
        Some(b) => {
            let more = sum | (((b & 127) as u64) << ((shift % 64) as u64));
            if b >= 128 && shift + 7 <= 70 {
                lemma_var64_moves(bytes, (at + 1) as usize, end, (shift + 7) as u32, more);
            }
        },
        None => {},
    }
}

pub(crate) proof fn lemma_signed_moves(bytes: Seq<u8>, at: usize, end: usize, shift: u32, sum: u64)
    ensures
        signed_rest(bytes, at, end, shift, sum) matches Some((_, next)) ==> at < next <= end,
    decreases end - at,
{
    match byte_at(bytes, at, end) {
        Some(b) => {
            let more = sum | (((b & 127) as u64) << (shift as u64));
            if b >= 128 && shift <= 62 {
                lemma_signed_moves(bytes, (at + 1) as usize, end, (shift + 7) as u32, more);
            }
        },
        None => {},
    }
}

/// Reading goes forward, and stays before the end.
pub proof fn lemma_item_moves(bytes: Seq<u8>, at: usize, end: usize)
    ensures
        inline_text(bytes, at, end) matches Some(next) ==> at < next <= end,
        item(bytes, at, end) matches Some((next, _)) ==> at < next <= end,
        item(bytes, at, end) matches Some((next, Some(_))) ==> at + 2 <= next,
{
    lemma_var32_moves(bytes, at, end, 0, 0);
    match byte_at(bytes, at, end) {
        Some(_) => {
            let next = (at + 1) as usize;
            lemma_var32_moves(bytes, next, end, 0, 0);
            lemma_var64_moves(bytes, next, end, 0, 0);
            match byte_at(bytes, next, end) {
                Some(b) => {
                    lemma_signed_moves(bytes, (next + 1) as usize, end, 6, (b & 63) as u64);
                },
                None => {},
            }
        },
        None => {},
    }
}

/// The lists and maps in `open`, each within the one before, were read to their ends:
/// where the first of them ends. To `deep` is added where each list and map starts and
/// ends that lies deeper than a decoder can go, but for those within it; `from` is
/// where the one that is being read starts. Such a one has a length of at most
/// thirty-two bits.
pub open spec fn levels_read(
    bytes: Seq<u8>,
    at: usize,
    end: usize,
    open: Seq<Level>,
    from: usize,
    deep: Seq<(usize, usize)>,
) -> Option<(usize, Seq<(usize, usize)>)>
    decreases end - at, open.len(),
{
    if open.len() == 0 {
        Some((at, deep))
    } else if open.last().left == 0 {
        if open.len() != DEPTH + 2 {
            levels_read(bytes, at, end, open.drop_last(), from, deep)
        } else if at - from > u32::MAX {
            None
        } else {
            levels_read(bytes, at, end, open.drop_last(), from, deep.push((from, at)))
        }
    } else {
        proof {
            lemma_item_moves(bytes, at, end);
        }
        let level = open.last();
        match (if level.keyed {
            inline_text(bytes, at, end)
        } else {
            Some(at)
        }) {
            Some(start) => {
                proof {
                    lemma_item_moves(bytes, start, end);
                }
                let outer = open.drop_last().push(Level { left: (level.left - 1) as u64, ..level });
                match item(bytes, start, end) {
                    Some((next, Some(inner))) => levels_read(
                        bytes,
                        next,
                        end,
                        outer.push(inner),
                        if open.len() == DEPTH + 1 {
                            start
                        } else {
                            from
                        },
                        deep,
                    ),
                    Some((next, None)) => levels_read(bytes, next, end, outer, from, deep),
                    None => None,
                }
            },
            None => None,
        }
    }
}

/// `count` values were read: where they end, and what lies too deep in them.
pub open spec fn values(
    bytes: Seq<u8>,
    at: usize,
    end: usize,
    count: u64,
    deep: Seq<(usize, usize)>,
) -> Option<(usize, Seq<(usize, usize)>)> {
    levels_read(bytes, at, end, seq![Level { left: count, keyed: false }], 0, deep)
}

fn get_values(bytes: &[u8], at: usize, end: usize, count: u64, deep: &mut Vec<(usize, usize)>) -> (next:
    Option<usize>)
    ensures
        match values(bytes@, at, end, count, old(deep)@) {
            Some((stop, found)) => next == Some(stop) && final(deep)@ == found,
            None => next is None,
        },
{
    let mut now: usize = at;
    let mut from: usize = 0;
    let mut open: Vec<Level> = Vec::new();
    open.push(Level { left: count, keyed: false });
    assert(open@ =~= seq![Level { left: count, keyed: false }]);
    while open.len() > 0
        invariant
            values(bytes@, at, end, count, old(deep)@) == levels_read(
                bytes@,
                now,
                end,
                open@,
                from,
                deep@,
            ),
        decreases end - now, open.len(),
    {
        let depth: usize = open.len();
        let level = open[depth - 1];
        if level.left == 0 {
            if depth == DEPTH as usize + 2 {
                if now >= from && (now - from) as u64 > u32::MAX as u64 {
                    return None;
                }
                deep.push((from, now));
            }
            let ghost before = open@;
            let _last = open.pop();
            assert(open@ =~= before.drop_last());
        } else {
            proof {
                lemma_item_moves(bytes@, now, end);
            }
            let start: Option<usize> = if level.keyed {
                get_inline_text(bytes, now, end)
            } else {
                Some(now)
            };
            match start {
                Some(start) => {
                    proof {
                        lemma_item_moves(bytes@, start, end);
                    }
                    match get_item(bytes, start, end) {
                        Some((next, inner)) => {
                            let ghost before = open@;
                            let fewer = Level { left: level.left - 1, keyed: level.keyed };
                            open.set(depth - 1, fewer);
                            assert(open@ =~= before.drop_last().push(fewer));
                            if let Some(inner) = inner {
                                if depth == DEPTH as usize + 1 {
                                    from = start;
                                }
                                open.push(inner);
                            }
                            now = next;
                        },
                        None => {
                            return None;
                        },
                    }
                },
                None => {
                    return None;
                },
            }
        }
    }
    Some(now)
}

// ---------------------------------------------------------------------------
// Blocks
// ---------------------------------------------------------------------------

/// How far a diff has been read.
#[derive(Clone, Copy)]
pub struct Reader {
    pub key_clocks: Steps,
    pub clients: Runs,
    pub lefts: Steps,
    pub rights: Steps,
    pub infos: Repeats,
    pub texts: Texts,
    pub parents: Repeats,
    pub types: Runs,
    pub lens: Runs,
    /// What is not column-wise.
    pub at: usize,
    pub end: usize,
    /// How many keys were read in full.
    pub keys: u32,
    /// How many more blocks and stored texts are taken.
    pub room: u32,
    /// Where the lists and maps start and end that lie too deep.
    pub deep: Ghost<Seq<(usize, usize)>>,
}

/// The low thirty-two bits.
pub open spec fn low32(n: u64) -> u32 {
    (n % 0x1_0000_0000) as u32
}

/// One block or stored text more.
pub open spec fn taken(r: Reader) -> Option<Reader> {
    if r.room == 0 {
        None
    } else {
        Some(Reader { room: (r.room - 1) as u32, ..r })
    }
}

fn take(r: Reader) -> (next: Option<Reader>)
    ensures
        next == taken(r),
{
    if r.room == 0 {
        None
    } else {
        Some(Reader { room: r.room - 1, ..r })
    }
}

/// A text was read, and has that many units.
pub open spec fn text_read(bytes: Seq<u8>, r: Reader) -> Option<(Reader, u64)> {
    match text_next(bytes, r.texts) {
        Some((texts, n)) => Some((Reader { texts, ..r }, n)),
        None => None,
    }
}

fn read_text(bytes: &[u8], r: Reader) -> (next: Option<(Reader, u64)>)
    ensures
        next == text_read(bytes@, r),
{
    match get_text(bytes, r.texts) {
        Some((texts, n)) => Some((Reader { texts, ..r }, n)),
        None => None,
    }
}

/// As [`text_read`], whatever the text.
pub open spec fn text_passed(bytes: Seq<u8>, r: Reader) -> Option<Reader> {
    match text_read(bytes, r) {
        Some((r, _)) => Some(r),
        None => None,
    }
}

fn pass_text(bytes: &[u8], r: Reader) -> (next: Option<Reader>)
    ensures
        next == text_passed(bytes@, r),
{
    match read_text(bytes, r) {
        Some((r, _)) => Some(r),
        None => None,
    }
}

/// The id of a left neighbour or a parent was read.
pub open spec fn left_read(bytes: Seq<u8>, r: Reader) -> Option<Reader> {
    match run_next(bytes, r.clients) {
        Some(clients) => match step_next(bytes, r.lefts) {
            Some(lefts) => Some(Reader { clients, lefts, ..r }),
            None => None,
        },
        None => None,
    }
}

fn read_left(bytes: &[u8], r: Reader) -> (next: Option<Reader>)
    ensures
        next == left_read(bytes@, r),
{
    match get_run(bytes, r.clients) {
        Some(clients) => match get_step(bytes, r.lefts) {
            Some(lefts) => Some(Reader { clients, lefts, ..r }),
            None => None,
        },
        None => None,
    }
}

/// The id of a right neighbour was read.
pub open spec fn right_read(bytes: Seq<u8>, r: Reader) -> Option<Reader> {
    match run_next(bytes, r.clients) {
        Some(clients) => match step_next(bytes, r.rights) {
            Some(rights) => Some(Reader { clients, rights, ..r }),
            None => None,
        },
        None => None,
    }
}

fn read_right(bytes: &[u8], r: Reader) -> (next: Option<Reader>)
    ensures
        next == right_read(bytes@, r),
{
    match get_run(bytes, r.clients) {
        Some(clients) => match get_step(bytes, r.rights) {
            Some(rights) => Some(Reader { clients, rights, ..r }),
            None => None,
        },
        None => None,
    }
}

/// A key was read: one of those before, by its number, or a new one in full.
pub open spec fn key_read(bytes: Seq<u8>, r: Reader) -> Option<Reader> {
    match step_next(bytes, r.key_clocks) {
        Some(key_clocks) => {
            let r = Reader { key_clocks, ..r };
            if 0 <= key_clocks.last < r.keys {
                Some(r)
            } else if r.keys == u32::MAX {
                None
            } else {
                text_passed(bytes, Reader { keys: (r.keys + 1) as u32, ..r })
            }
        },
        None => None,
    }
}

fn read_key(bytes: &[u8], r: Reader) -> (next: Option<Reader>)
    ensures
        next == key_read(bytes@, r),
{
    match get_step(bytes, r.key_clocks) {
        Some(key_clocks) => {
            let r = Reader { key_clocks, ..r };
            if 0 <= key_clocks.last && (key_clocks.last as i64) < (r.keys as i64) {
                Some(r)
            } else if r.keys == u32::MAX {
                None
            } else {
                pass_text(bytes, Reader { keys: r.keys + 1, ..r })
            }
        },
        None => None,
    }
}

/// `count` values were read.
pub open spec fn values_read(bytes: Seq<u8>, r: Reader, count: u64) -> Option<Reader> {
    match values(bytes, r.at, r.end, count, r.deep@) {
        Some((at, deep)) => Some(Reader { at, deep: Ghost(deep), ..r }),
        None => None,
    }
}

fn read_values(bytes: &[u8], r: Reader, count: u64, deep: &mut Vec<(usize, usize)>) -> (next: Option<
    Reader,
>)
    requires
        old(deep)@ == r.deep@,
    ensures
        next == values_read(bytes@, r, count),
        next matches Some(next) ==> final(deep)@ == next.deep@,
{
    match get_values(bytes, r.at, r.end, count, deep) {
        Some(at) => Some(Reader { at, deep: Ghost(deep@), ..r }),
        None => None,
    }
}

/// `count` stored texts were read.
pub open spec fn texts_read(bytes: Seq<u8>, r: Reader, count: u32) -> Option<Reader>
    decreases count,
{
    if count == 0 {
        Some(r)
    } else {
        match taken(r) {
            Some(r) => match text_passed(bytes, r) {
                Some(r) => texts_read(bytes, r, (count - 1) as u32),
                None => None,
            },
            None => None,
        }
    }
}

fn read_texts(bytes: &[u8], r: Reader, count: u32) -> (next: Option<Reader>)
    ensures
        next == texts_read(bytes@, r, count),
        next matches Some(next) ==> next.deep == r.deep,
{
    let mut now = r;
    let mut left: u32 = count;
    while left > 0
        invariant
            texts_read(bytes@, r, count) == texts_read(bytes@, now, left),
            now.deep == r.deep,
        decreases left,
    {
        match take(now) {
            Some(next) => match pass_text(bytes, next) {
                Some(next) => {
                    now = next;
                },
                None => {
                    return None;
                },
            },
            None => {
                return None;
            },
        }
        left -= 1;
    }
    Some(now)
}

/// A client and a clock were read, off what is not column-wise.
pub open spec fn id_passed(bytes: Seq<u8>, r: Reader) -> Option<Reader> {
    match var64(bytes, r.at, r.end, 0, 0) {
        Some((_, at)) => match var32(bytes, at, r.end, 0, 0) {
            Some((_, at)) => Some(Reader { at, ..r }),
            None => None,
        },
        None => None,
    }
}

fn pass_id(bytes: &[u8], r: Reader) -> (next: Option<Reader>)
    ensures
        next == id_passed(bytes@, r),
{
    match get_var64(bytes, r.at, r.end, 0, 0) {
        Some((_, at)) => match get_var32(bytes, at, r.end, 0, 0) {
            Some((_, at)) => Some(Reader { at, ..r }),
            None => None,
        },
        None => None,
    }
}

/// A move was read: flags, and one id or two.
pub open spec fn move_read(bytes: Seq<u8>, r: Reader) -> Option<Reader> {
    match signed32(bytes, r.at, r.end) {
        Some((flags, at)) => match id_passed(bytes, Reader { at, ..r }) {
            Some(r) => if flags as int % 2 == 1 {
                Some(r)
            } else {
                id_passed(bytes, r)
            },
            None => None,
        },
        None => None,
    }
}

fn read_move(bytes: &[u8], r: Reader) -> (next: Option<Reader>)
    ensures
        next == move_read(bytes@, r),
{
    match get_signed32(bytes, r.at, r.end) {
        Some((flags, at)) => match pass_id(bytes, Reader { at, ..r }) {
            Some(r) => {
                let lifted: u64 = (flags as i64 + 0x8000_0000) as u64;
                assert(lifted % 2 == flags as int % 2);
                if lifted % 2 == 1 {
                    Some(r)
                } else {
                    pass_id(bytes, r)
                }
            },
            None => None,
        },
        None => None,
    }
}

/// A nested type was read.
pub open spec fn type_read(bytes: Seq<u8>, r: Reader) -> Option<Reader> {
    match run_next(bytes, r.types) {
        Some(types) => {
            let r = Reader { types, ..r };
            let kind = types.last % 256;
            if kind == 3 {
                key_read(bytes, r)
            } else if kind <= 6 || kind == 9 || kind == 15 {
                Some(r)
            } else {
                None
            }
        },
        None => None,
    }
}

fn read_type(bytes: &[u8], r: Reader) -> (next: Option<Reader>)
    ensures
        next == type_read(bytes@, r),
{
    match get_run(bytes, r.types) {
        Some(types) => {
            let r = Reader { types, ..r };
            let kind: u64 = types.last % 256;
            if kind == 3 {
                read_key(bytes, r)
            } else if kind <= 6 || kind == 9 || kind == 15 {
                Some(r)
            } else {
                None
            }
        },
        None => None,
    }
}

/// A length was read off its column.
pub open spec fn len_read(bytes: Seq<u8>, r: Reader) -> Option<(Reader, u32)> {
    match run_next(bytes, r.lens) {
        Some(lens) => Some((Reader { lens, ..r }, low32(lens.last))),
        None => None,
    }
}

fn read_len(bytes: &[u8], r: Reader) -> (next: Option<(Reader, u32)>)
    ensures
        next == len_read(bytes@, r),
{
    match get_run(bytes, r.lens) {
        Some(lens) => Some((Reader { lens, ..r }, (lens.last % 0x1_0000_0000) as u32)),
        None => None,
    }
}

/// Something of length one.
pub open spec fn single(r: Option<Reader>) -> Option<(Reader, u32)> {
    match r {
        Some(r) => Some((r, 1)),
        None => None,
    }
}

fn as_single(r: Option<Reader>) -> (next: Option<(Reader, u32)>)
    ensures
        next == single(r),
{
    match r {
        Some(r) => Some((r, 1)),
        None => None,
    }
}

/// The content of a block was read, and has that length.
pub open spec fn content_read(bytes: Seq<u8>, r: Reader, kind: u8) -> Option<(Reader, u32)> {
    if kind == 1 {
        // deleted content: only its length is left
        len_read(bytes, r)
    } else if kind == 2 {
        // a list of texts, one more than announced
        match len_read(bytes, r) {
            Some((r, n)) => if n >= 0x7fff_ffff {
                None
            } else {
                match texts_read(bytes, r, (n + 1) as u32) {
                    Some(r) => Some((r, (n + 1) as u32)),
                    None => None,
                }
            },
            None => None,
        }
    } else if kind == 3 {
        // bytes
        match buffer(bytes, r.at, r.end) {
            Some((_, at)) => Some((Reader { at, ..r }, 1)),
            None => None,
        }
    } else if kind == 4 {
        // text
        match text_read(bytes, r) {
            Some((r, n)) => Some((r, low32(n))),
            None => None,
        }
    } else if kind == 5 {
        // an embedded value
        single(values_read(bytes, r, 1))
    } else if kind == 6 {
        // formatting: a key and its value
        match key_read(bytes, r) {
            Some(r) => single(values_read(bytes, r, 1)),
            None => None,
        }
    } else if kind == 7 {
        // a nested type
        single(type_read(bytes, r))
    } else if kind == 8 {
        // a list of values
        match len_read(bytes, r) {
            Some((r, n)) => match values_read(bytes, r, n as u64) {
                Some(r) => Some((r, n)),
                None => None,
            },
            None => None,
        }
    } else if kind == 9 {
        // a nested document: its name and its options
        match text_passed(bytes, r) {
            Some(r) => single(values_read(bytes, r, 1)),
            None => None,
        }
    } else if kind == 11 {
        single(move_read(bytes, r))
    } else {
        None
    }
}

fn read_content(bytes: &[u8], r: Reader, kind: u8, deep: &mut Vec<(usize, usize)>) -> (next: Option<
    (Reader, u32),
>)
    requires
        old(deep)@ == r.deep@,
    ensures
        next == content_read(bytes@, r, kind),
        next matches Some((next, _)) ==> final(deep)@ == next.deep@,
{
    if kind == 1 {
        read_len(bytes, r)
    } else if kind == 2 {
        match read_len(bytes, r) {
            Some((r, n)) => if n >= 0x7fff_ffff {
                None
            } else {
                match read_texts(bytes, r, n + 1) {
                    Some(r) => Some((r, n + 1)),
                    None => None,
                }
            },
            None => None,
        }
    } else if kind == 3 {
        match get_buffer(bytes, r.at, r.end) {
            Some((_, at)) => Some((Reader { at, ..r }, 1)),
            None => None,
        }
    } else if kind == 4 {
        match read_text(bytes, r) {
            Some((r, n)) => Some((r, (n % 0x1_0000_0000) as u32)),
            None => None,
        }
    } else if kind == 5 {
        as_single(read_values(bytes, r, 1, deep))
    } else if kind == 6 {
        match read_key(bytes, r) {
            Some(r) => as_single(read_values(bytes, r, 1, deep)),
            None => None,
        }
    } else if kind == 7 {
        as_single(read_type(bytes, r))
    } else if kind == 8 {
        match read_len(bytes, r) {
            Some((r, n)) => match read_values(bytes, r, n as u64, deep) {
                Some(r) => Some((r, n)),
                None => None,
            },
            None => None,
        }
    } else if kind == 9 {
        match pass_text(bytes, r) {
            Some(r) => as_single(read_values(bytes, r, 1, deep)),
            None => None,
        }
    } else if kind == 11 {
        as_single(read_move(bytes, r))
    } else {
        None
    }
}

/// What a block without neighbours hangs on was read: its parent, and its key where it
/// has one.
pub open spec fn parent_read(bytes: Seq<u8>, r: Reader, info: u8) -> Option<Reader> {
    match repeat_next(bytes, r.parents) {
        Some(parents) => {
            let r = Reader { parents, ..r };
            match (if parents.last == 1 {
                text_passed(bytes, r)
            } else {
                left_read(bytes, r)
            }) {
                Some(r) => if info & 0x20 != 0 {
                    text_passed(bytes, r)
                } else {
                    Some(r)
                },
                None => None,
            }
        },
        None => None,
    }
}

fn read_parent(bytes: &[u8], r: Reader, info: u8) -> (next: Option<Reader>)
    ensures
        next == parent_read(bytes@, r, info),
{
    match get_repeat(bytes, r.parents) {
        Some(parents) => {
            let r = Reader { parents, ..r };
            let parent = if parents.last == 1 {
                pass_text(bytes, r)
            } else {
                read_left(bytes, r)
            };
            match parent {
                Some(r) => if info & 0x20 != 0 {
                    pass_text(bytes, r)
                } else {
                    Some(r)
                },
                None => None,
            }
        },
        None => None,
    }
}

/// What a block hangs on was read: its neighbours, or else its parent.
pub open spec fn links_read(bytes: Seq<u8>, r: Reader, info: u8) -> Option<Reader> {
    match (if info & 0x80 != 0 {
        left_read(bytes, r)
    } else {
        Some(r)
    }) {
        Some(r) => match (if info & 0x40 != 0 {
            right_read(bytes, r)
        } else {
            Some(r)
        }) {
            Some(r) => if info & 0xc0 != 0 {
                Some(r)
            } else {
                parent_read(bytes, r, info)
            },
            None => None,
        },
        None => None,
    }
}

fn read_links(bytes: &[u8], r: Reader, info: u8) -> (next: Option<Reader>)
    ensures
        next == links_read(bytes@, r, info),
{
    let first = if info & 0x80 != 0 {
        read_left(bytes, r)
    } else {
        Some(r)
    };
    match first {
        Some(r) => {
            let second = if info & 0x40 != 0 {
                read_right(bytes, r)
            } else {
                Some(r)
            };
            match second {
                Some(r) => if info & 0xc0 != 0 {
                    Some(r)
                } else {
                    read_parent(bytes, r, info)
                },
                None => None,
            }
        },
        None => None,
    }
}

/// A block was read, and covers that many clocks.
pub open spec fn block_read(bytes: Seq<u8>, r: Reader) -> Option<(Reader, u32)> {
    match taken(r) {
        Some(r) => match repeat_next(bytes, r.infos) {
            Some(infos) => {
                let r = Reader { infos, ..r };
                let info = infos.last;
                if info == 10 {
                    match var32(bytes, r.at, r.end, 0, 0) {
                        Some((n, at)) => Some((Reader { at, ..r }, n)),
                        None => None,
                    }
                } else if info == 0 {
                    len_read(bytes, r)
                } else {
                    match links_read(bytes, r, info) {
                        Some(r) => content_read(bytes, r, info & 15),
                        None => None,
                    }
                }
            },
            None => None,
        },
        None => None,
    }
}

fn read_block(bytes: &[u8], r: Reader, deep: &mut Vec<(usize, usize)>) -> (next: Option<
    (Reader, u32),
>)
    requires
        old(deep)@ == r.deep@,
    ensures
        next == block_read(bytes@, r),
        next matches Some((next, _)) ==> final(deep)@ == next.deep@,
{
    match take(r) {
        Some(r) => match get_repeat(bytes, r.infos) {
            Some(infos) => {
                let r = Reader { infos, ..r };
                let info: u8 = infos.last;
                if info == 10 {
                    match get_var32(bytes, r.at, r.end, 0, 0) {
                        Some((n, at)) => Some((Reader { at, ..r }, n)),
                        None => None,
                    }
                } else if info == 0 {
                    read_len(bytes, r)
                } else {
                    match read_links(bytes, r, info) {
                        Some(r) => read_content(bytes, r, info & 15, deep),
                        None => None,
                    }
                }
            },
            None => None,
        },
        None => None,
    }
}

/// `count` blocks were read, the first of them at `clock`. Clocks stay within
/// thirty-two bits.
pub open spec fn blocks_read(bytes: Seq<u8>, r: Reader, clock: u32, count: u32) -> Option<Reader>
    decreases count,
{
    if count == 0 {
        Some(r)
    } else {
        match block_read(bytes, r) {
            Some((r, len)) => if clock + len > u32::MAX {
                None
            } else {
                blocks_read(bytes, r, (clock + len) as u32, (count - 1) as u32)
            },
            None => None,
        }
    }
}

fn read_blocks(
    bytes: &[u8],
    r: Reader,
    clock: u32,
    count: u32,
    deep: &mut Vec<(usize, usize)>,
) -> (next: Option<Reader>)
    requires
        old(deep)@ == r.deep@,
    ensures
        next == blocks_read(bytes@, r, clock, count),
        next matches Some(next) ==> final(deep)@ == next.deep@,
{
    let mut now = r;
    let mut at: u32 = clock;
    let mut left: u32 = count;
    while left > 0
        invariant
            blocks_read(bytes@, r, clock, count) == blocks_read(bytes@, now, at, left),
            deep@ == now.deep@,
        decreases left,
    {
        match read_block(bytes, now, deep) {
            Some((next, len)) => {
                if len > u32::MAX - at {
                    return None;
                }
                now = next;
                at += len;
            },
            None => {
                return None;
            },
        }
        left -= 1;
    }
    Some(now)
}

/// The blocks of one client were read.
pub open spec fn client_read(bytes: Seq<u8>, r: Reader) -> Option<Reader> {
    match var32(bytes, r.at, r.end, 0, 0) {
        Some((count, at)) => match run_next(bytes, r.clients) {
            Some(clients) => match var32(bytes, at, r.end, 0, 0) {
                Some((clock, at)) => blocks_read(
                    bytes,
                    Reader { clients, at, ..r },
                    clock,
                    count,
                ),
                None => None,
            },
            None => None,
        },
        None => None,
    }
}

fn read_client(bytes: &[u8], r: Reader, deep: &mut Vec<(usize, usize)>) -> (next: Option<Reader>)
    requires
        old(deep)@ == r.deep@,
    ensures
        next == client_read(bytes@, r),
        next matches Some(next) ==> final(deep)@ == next.deep@,
{
    match get_var32(bytes, r.at, r.end, 0, 0) {
        Some((count, at)) => match get_run(bytes, r.clients) {
            Some(clients) => match get_var32(bytes, at, r.end, 0, 0) {
                Some((clock, at)) => read_blocks(
                    bytes,
                    Reader { clients, at, ..r },
                    clock,
                    count,
                    deep,
                ),
                None => None,
            },
            None => None,
        },
        None => None,
    }
}

/// The blocks of `count` clients were read.
pub open spec fn clients_read(bytes: Seq<u8>, r: Reader, count: u32) -> Option<Reader>
    decreases count,
{
    if count == 0 {
        Some(r)
    } else {
        match client_read(bytes, r) {
            Some(r) => clients_read(bytes, r, (count - 1) as u32),
            None => None,
        }
    }
}

fn read_clients(bytes: &[u8], r: Reader, count: u32, deep: &mut Vec<(usize, usize)>) -> (next: Option<
    Reader,
>)
    requires
        old(deep)@ == r.deep@,
    ensures
        next == clients_read(bytes@, r, count),
        next matches Some(next) ==> final(deep)@ == next.deep@,
{
    let mut now = r;
    let mut left: u32 = count;
    while left > 0
        invariant
            clients_read(bytes@, r, count) == clients_read(bytes@, now, left),
            deep@ == now.deep@,
        decreases left,
    {
        match read_client(bytes, now, deep) {
            Some(next) => {
                now = next;
            },
            None => {
                return None;
            },
        }
        left -= 1;
    }
    Some(now)
}

// ---------------------------------------------------------------------------
// Deletions
// ---------------------------------------------------------------------------

/// `count` ranges were read, each as its distance from `clock`, where the one before
/// ended, and its length less one. Clocks stay within thirty-two bits.
pub open spec fn ranges_read(
    bytes: Seq<u8>,
    at: usize,
    end: usize,
    clock: u32,
    count: u32,
) -> Option<usize>
    decreases count,
{
    if count == 0 {
        Some(at)
    } else {
        match var32(bytes, at, end, 0, 0) {
            Some((gap, at)) => match var32(bytes, at, end, 0, 0) {
                Some((len, at)) => if clock + gap + len + 1 > u32::MAX {
                    None
                } else {
                    ranges_read(
                        bytes,
                        at,
                        end,
                        (clock + gap + len + 1) as u32,
                        (count - 1) as u32,
                    )
                },
                None => None,
            },
            None => None,
        }
    }
}

fn read_ranges(bytes: &[u8], at: usize, end: usize, count: u32) -> (next: Option<usize>)
    ensures
        next == ranges_read(bytes@, at, end, 0, count),
{
    let mut now: usize = at;
    let mut clock: u32 = 0;
    let mut left: u32 = count;
    while left > 0
        invariant
            ranges_read(bytes@, at, end, 0, count) == ranges_read(bytes@, now, end, clock, left),
        decreases left,
    {
        match get_var32(bytes, now, end, 0, 0) {
            Some((gap, next)) => match get_var32(bytes, next, end, 0, 0) {
                Some((len, next)) => {
                    let sum: u64 = clock as u64 + gap as u64 + len as u64 + 1;
                    if sum > u32::MAX as u64 {
                        return None;
                    }
                    now = next;
                    clock = sum as u32;
                },
                None => {
                    return None;
                },
            },
            None => {
                return None;
            },
        }
        left -= 1;
    }
    Some(now)
}

/// The deleted ranges of `count` clients were read.
pub open spec fn deletions_read(bytes: Seq<u8>, at: usize, end: usize, count: u32) -> Option<usize>
    decreases count,
{
    if count == 0 {
        Some(at)
    } else {
        match var32(bytes, at, end, 0, 0) {
            Some((_, at)) => match var32(bytes, at, end, 0, 0) {
                Some((n, at)) => match ranges_read(bytes, at, end, 0, n) {
                    Some(at) => deletions_read(bytes, at, end, (count - 1) as u32),
                    None => None,
                },
                None => None,
            },
            None => None,
        }
    }
}

fn read_deletions(bytes: &[u8], at: usize, end: usize, count: u32) -> (next: Option<usize>)
    ensures
        next == deletions_read(bytes@, at, end, count),
{
    let mut now: usize = at;
    let mut left: u32 = count;
    while left > 0
        invariant
            deletions_read(bytes@, at, end, count) == deletions_read(bytes@, now, end, left),
        decreases left,
    {
        match get_var32(bytes, now, end, 0, 0) {
            Some((_, next)) => match get_var32(bytes, next, end, 0, 0) {
                Some((n, next)) => match read_ranges(bytes, next, end, n) {
                    Some(next) => {
                        now = next;
                    },
                    None => {
                        return None;
                    },
                },
                None => {
                    return None;
                },
            },
            None => {
                return None;
            },
        }
        left -= 1;
    }
    Some(now)
}

// ---------------------------------------------------------------------------
// The whole diff
// ---------------------------------------------------------------------------

/// The part with a length in front that starts at `at`: where its content starts
/// and where it ends.
pub open spec fn part(bytes: Seq<u8>, at: usize, end: usize) -> Option<(usize, usize)> {
    match length_at(bytes, at, end, 0, 0) {
        Some((n, start)) => match skipped(start, n as int, end) {
            Some(stop) => Some((start, stop)),
            None => None,
        },
        None => None,
    }
}

fn get_part(bytes: &[u8], at: usize, end: usize) -> (read: Option<(usize, usize)>)
    ensures
        read == part(bytes@, at, end),
{
    match get_length(bytes, at, end, 0, 0) {
        Some((n, start)) => match skip(start, n as usize, end) {
            Some(stop) => Some((start, stop)),
            None => None,
        },
        None => None,
    }
}

/// `count` parts in a row, the first of them at `at`.
pub open spec fn parts(bytes: Seq<u8>, at: usize, end: usize, count: nat) -> Option<
    Seq<(usize, usize)>,
>
    decreases count,
{
    if count == 0 {
        Some(Seq::empty())
    } else {
        match parts(bytes, at, end, (count - 1) as nat) {
            Some(list) => match part(
                bytes,
                if list.len() == 0 {
                    at
                } else {
                    list.last().1
                },
                end,
            ) {
                Some(next) => Some(list.push(next)),
                None => None,
            },
            None => None,
        }
    }
}

proof fn lemma_parts_stop(bytes: Seq<u8>, at: usize, end: usize, few: nat, many: nat)
    requires
        few <= many,
        parts(bytes, at, end, few) is None,
    ensures
        parts(bytes, at, end, many) is None,
    decreases many,
{
    if few < many {
        lemma_parts_stop(bytes, at, end, few, (many - 1) as nat);
    }
}

fn get_parts(bytes: &[u8], at: usize, end: usize) -> (list: Option<Vec<(usize, usize)>>)
    ensures
        match list {
            Some(list) => list.len() == 9 && parts(bytes@, at, end, 9) == Some(list@),
            None => parts(bytes@, at, end, 9) is None,
        },
{
    let mut list: Vec<(usize, usize)> = Vec::new();
    while list.len() < 9
        invariant
            list.len() <= 9,
            parts(bytes@, at, end, list@.len()) == Some(list@),
        decreases 9 - list.len(),
    {
        let from: usize = if list.len() == 0 {
            at
        } else {
            list[list.len() - 1].1
        };
        match get_part(bytes, from, end) {
            Some(next) => {
                list.push(next);
            },
            None => {
                proof {
                    lemma_parts_stop(bytes@, at, end, (list@.len() + 1) as nat, 9);
                }
                return None;
            },
        }
    }
    Some(list)
}

pub open spec fn runs_in(place: (usize, usize)) -> Runs {
    Runs { at: place.0, end: place.1, last: 0, count: 0 }
}

pub open spec fn steps_in(place: (usize, usize)) -> Steps {
    Steps { at: place.0, end: place.1, last: 0, diff: 0, count: 0 }
}

pub open spec fn repeats_in(place: (usize, usize)) -> Repeats {
    Repeats { at: place.0, end: place.1, last: 0, count: 0 }
}

/// The start of reading, with the nine columns in their places, the texts among
/// them at `text`, and the rest of the diff behind the last column.
pub open spec fn opened(list: Seq<(usize, usize)>, text: (usize, usize), end: usize) -> Reader {
    Reader {
        key_clocks: steps_in(list[0]),
        clients: runs_in(list[1]),
        lefts: steps_in(list[2]),
        rights: steps_in(list[3]),
        infos: repeats_in(list[4]),
        texts: Texts { at: text.0, end: text.1, lens: runs_in((text.1, list[5].1)) },
        parents: repeats_in(list[6]),
        types: runs_in(list[7]),
        lens: runs_in(list[8]),
        at: list[8].1,
        end,
        keys: 0,
        room: UNITS,
        deep: Ghost(Seq::empty()),
    }
}

fn start_runs(at: usize, end: usize) -> (runs: Runs)
    ensures
        runs == runs_in((at, end)),
{
    Runs { at, end, last: 0, count: 0 }
}

fn start_steps(at: usize, end: usize) -> (steps: Steps)
    ensures
        steps == steps_in((at, end)),
{
    Steps { at, end, last: 0, diff: 0, count: 0 }
}

fn start_repeats(at: usize, end: usize) -> (repeats: Repeats)
    ensures
        repeats == repeats_in((at, end)),
{
    Repeats { at, end, last: 0, count: 0 }
}

fn open(list: &Vec<(usize, usize)>, text: (usize, usize), end: usize) -> (r: Reader)
    requires
        list.len() == 9,
    ensures
        r == opened(list@, text, end),
{
    Reader {
        key_clocks: start_steps(list[0].0, list[0].1),
        clients: start_runs(list[1].0, list[1].1),
        lefts: start_steps(list[2].0, list[2].1),
        rights: start_steps(list[3].0, list[3].1),
        infos: start_repeats(list[4].0, list[4].1),
        texts: Texts { at: text.0, end: text.1, lens: start_runs(text.1, list[5].1) },
        parents: start_repeats(list[6].0, list[6].1),
        types: start_runs(list[7].0, list[7].1),
        lens: start_runs(list[8].0, list[8].1),
        at: list[8].1,
        end,
        keys: 0,
        room: UNITS,
        deep: Ghost(Seq::empty()),
    }
}

/// The blocks of every client were read, and the deletions behind them: what lies too
/// deep in them.
pub open spec fn body_read(bytes: Seq<u8>, r: Reader) -> Option<Seq<(usize, usize)>> {
    match var32(bytes, r.at, r.end, 0, 0) {
        Some((clients, at)) => match clients_read(bytes, Reader { at, ..r }, clients) {
            Some(r) => match var32(bytes, r.at, r.end, 0, 0) {
                Some((count, at)) => match deletions_read(bytes, at, r.end, count) {
                    Some(_) => Some(r.deep@),
                    None => None,
                },
                None => None,
            },
            None => None,
        },
        None => None,
    }
}

fn read_body(bytes: &[u8], r: Reader) -> (deep: Option<Vec<(usize, usize)>>)
    requires
        r.deep@ == Seq::<(usize, usize)>::empty(),
    ensures
        match deep {
            Some(deep) => body_read(bytes@, r) == Some(deep@),
            None => body_read(bytes@, r) is None,
        },
{
    let mut deep: Vec<(usize, usize)> = Vec::new();
    match get_var32(bytes, r.at, r.end, 0, 0) {
        Some((clients, at)) => match read_clients(bytes, Reader { at, ..r }, clients, &mut deep) {
            Some(r) => match get_var32(bytes, r.at, r.end, 0, 0) {
                Some((count, at)) => match read_deletions(bytes, at, r.end, count) {
                    Some(_) => Some(deep),
                    None => None,
                },
                None => None,
            },
            None => None,
        },
        None => None,
    }
}

/// The bytes were read from the start to the end: after one byte of flags come nine
/// columns, of which the sixth holds texts in UTF-8 and then their lengths, and with
/// them every block and every deletion can be read. The result says where the lists
/// and maps start and end that lie deeper than a decoder can go.
pub open spec fn whole_read(bytes: Seq<u8>) -> Option<Seq<(usize, usize)>> {
    let end = bytes.len() as usize;
    match parts(bytes, 1, end, 9) {
        Some(list) => match part(bytes, list[5].0, list[5].1) {
            Some(text) => if utf8(bytes, text.0, text.1) {
                body_read(bytes, opened(list, text, end))
            } else {
                None
            },
            None => None,
        },
        None => None,
    }
}

fn read_whole(bytes: &[u8]) -> (deep: Option<Vec<(usize, usize)>>)
    ensures
        match deep {
            Some(deep) => whole_read(bytes@) == Some(deep@),
            None => whole_read(bytes@) is None,
        },
{
    let end: usize = bytes.len();
    match get_parts(bytes, 1, end) {
        Some(list) => match get_part(bytes, list[5].0, list[5].1) {
            Some(text) => if is_utf8(bytes, text.0, text.1) {
                read_body(bytes, open(&list, text, end))
            } else {
                None
            },
            None => None,
        },
        None => None,
    }
}

/// The bytes can be decoded: they can be read to the end, and nothing lies too deep.
pub open spec fn readable(bytes: Seq<u8>) -> bool {
    whole_read(bytes) == Some(Seq::<(usize, usize)>::empty())
}

// ---------------------------------------------------------------------------
// What lies too deep
// ---------------------------------------------------------------------------

/// The bytes with a buffer in place of the value at `place`, of the same length. Only
/// the start is written over: what says that it is a buffer, and its length, in one
/// byte or in five.
pub open spec fn blanked_at(bytes: Seq<u8>, place: (usize, usize)) -> Seq<u8> {
    let start = place.0 as int;
    let len = place.1 - place.0;
    if len < 130 {
        bytes.update(start, 116).update(start + 1, (len - 2) as u8)
    } else {
        let rest = (len - 6) as u32;
        bytes.update(start, 116).update(start + 1, (rest % 128 + 128) as u8).update(
            start + 2,
            (rest / 128 % 128 + 128) as u8,
        ).update(start + 3, (rest / 16384 % 128 + 128) as u8).update(
            start + 4,
            (rest / 2097152 % 128 + 128) as u8,
        ).update(start + 5, (rest / 268435456) as u8)
    }
}

/// The bytes with buffers in all of the places.
pub open spec fn blanked(bytes: Seq<u8>, places: Seq<(usize, usize)>) -> Seq<u8>
    decreases places.len(),
{
    if places.len() == 0 {
        bytes
    } else {
        blanked_at(blanked(bytes, places.drop_last()), places.last())
    }
}

fn blank_at(bytes: &mut Vec<u8>, place: (usize, usize))
    requires
        lies_in(place, 0, old(bytes)@.len() as int),
    ensures
        final(bytes)@ == blanked_at(old(bytes)@, place),
{
    let start: usize = place.0;
    let len: usize = place.1 - place.0;
    bytes.set(start, 116);
    if len < 130 {
        bytes.set(start + 1, (len - 2) as u8);
    } else {
        let rest: u32 = (len - 6) as u32;
        bytes.set(start + 1, (rest % 128 + 128) as u8);
        bytes.set(start + 2, (rest / 128 % 128 + 128) as u8);
        bytes.set(start + 3, (rest / 16384 % 128 + 128) as u8);
        bytes.set(start + 4, (rest / 2097152 % 128 + 128) as u8);
        bytes.set(start + 5, (rest / 268435456) as u8);
    }
}

fn blank(bytes: &[u8], places: &Vec<(usize, usize)>) -> (flat: Vec<u8>)
    requires
        in_order(places@, 0, 0, bytes@.len() as int),
    ensures
        flat@ == blanked(bytes@, places@),
{
    let mut flat: Vec<u8> = vstd::slice::slice_to_vec(bytes);
    let mut i: usize = 0;
    assert(places@.take(0) =~= Seq::<(usize, usize)>::empty());
    while i < places.len()
        invariant
            i <= places.len(),
            in_order(places@, 0, 0, bytes@.len() as int),
            flat@ == blanked(bytes@, places@.take(i as int)),
            flat@.len() == bytes@.len(),
        decreases places.len() - i,
    {
        assert(places@.take(i + 1).drop_last() =~= places@.take(i as int));
        assert(lies_in(places@[i as int], 0, bytes@.len() as int));
        blank_at(&mut flat, places[i]);
        i += 1;
    }
    assert(places@.take(i as int) =~= places@);
    flat
}

/// The bytes with buffers in place of all that lies too deep, if they can be read to
/// the end. Which clocks the blocks cover does not depend on the values in them.
pub open spec fn flattened(bytes: Seq<u8>) -> Seq<u8> {
    match whole_read(bytes) {
        Some(deep) => blanked(bytes, deep),
        None => bytes,
    }
}

/// Bytes that can be decoded and say the same, if the bytes can be read to the end.
pub fn flatten(bytes: &[u8]) -> (flat: Option<Vec<u8>>)
    ensures
        match flat {
            Some(flat) => whole_read(bytes@) is Some && flat@ == flattened(bytes@) && readable(flat@),
            None => whole_read(bytes@) is None,
        },
{
    match read_whole(bytes) {
        Some(deep) => {
            proof {
                assert(bytes@.len() == bytes.len());
                law_what_is_read_can_be_decoded(bytes@);
            }
            Some(blank(bytes, &deep))
        },
        None => None,
    }
}

} // verus!
