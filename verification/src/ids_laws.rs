//! How ids are written, how counts start over, and what counts as white space.

use vstd::prelude::*;

use crate::ids::{base64, last_six, letter, six_bits};
use crate::text::{white_space, word, word64};

verus! {

/// The sixty-four letters of URL-safe base64, in order.
pub open spec fn alphabet() -> Seq<char> {
    "ABCDEFGHIJKLMNOPQRSTUVWXYZabcdefghijklmnopqrstuvwxyz0123456789-_"@
}

/// Every six bits have a letter of their own.
pub proof fn law_letters_stand_for_six_bits(six: int)
    requires
        0 <= six < 64,
    ensures
        alphabet().len() == 64,
        letter(six) == alphabet()[six],
        forall|other: int|
            0 <= other < 64 && other != six ==> #[trigger] letter(other) != letter(six),
{
    reveal_strlit("ABCDEFGHIJKLMNOPQRSTUVWXYZabcdefghijklmnopqrstuvwxyz0123456789-_");
}

/// Four letters hold three bytes, the highest bits first.
pub proof fn law_four_letters_hold_three_bytes(bytes: Seq<u8>, k: int)
    requires
        0 <= k,
        3 * k + 2 < bytes.len(),
    ensures
        bytes[3 * k] as int * 65536 + bytes[3 * k + 1] as int * 256 + bytes[3 * k + 2] as int
            == six_bits(bytes, 4 * k) * 262144 + six_bits(bytes, 4 * k + 1) * 4096 + six_bits(
            bytes,
            4 * k + 2,
        ) * 64 + six_bits(bytes, 4 * k + 3),
        forall|i: int|
            4 * k <= i < 4 * k + 4 ==> 0 <= #[trigger] six_bits(bytes, i) < 64 && base64(bytes)[i]
                == letter(six_bits(bytes, i)),
{
    assert(6 * (4 * k) / 8 == 3 * k && 6 * (4 * k) % 8 == 0);
    assert(6 * (4 * k + 1) / 8 == 3 * k && 6 * (4 * k + 1) % 8 == 6);
    assert(6 * (4 * k + 2) / 8 == 3 * k + 1 && 6 * (4 * k + 2) % 8 == 4);
    assert(6 * (4 * k + 3) / 8 == 3 * k + 2 && 6 * (4 * k + 3) % 8 == 2);
}

/// What does not fill three bytes is written with zeros behind it: one byte in two
/// letters, two in three.
pub proof fn law_what_is_left_is_written_with_zeros(bytes: Seq<u8>, k: int)
    requires
        0 <= k,
        bytes.len() == 3 * k + 1 || bytes.len() == 3 * k + 2,
    ensures
        base64(bytes).len() == 4 * k + (if bytes.len() == 3 * k + 1 {
            2int
        } else {
            3int
        }),
        bytes.len() == 3 * k + 1 ==> bytes[3 * k] as int * 16 == six_bits(bytes, 4 * k) * 64
            + six_bits(bytes, 4 * k + 1),
        bytes.len() == 3 * k + 2 ==> (bytes[3 * k] as int * 256 + bytes[3 * k + 1] as int) * 4
            == six_bits(bytes, 4 * k) * 4096 + six_bits(bytes, 4 * k + 1) * 64 + six_bits(
            bytes,
            4 * k + 2,
        ),
        forall|i: int|
            4 * k <= i < base64(bytes).len() ==> 0 <= #[trigger] six_bits(bytes, i) < 64 && base64(
                bytes,
            )[i] == letter(six_bits(bytes, i)),
{
    assert(6 * (4 * k) / 8 == 3 * k && 6 * (4 * k) % 8 == 0);
    assert(6 * (4 * k + 1) / 8 == 3 * k && 6 * (4 * k + 1) % 8 == 6);
    assert(6 * (4 * k + 2) / 8 == 3 * k + 1 && 6 * (4 * k + 2) % 8 == 4);
}

/// An event's id has forty-three letters, an entity's twenty-two, and the short form of
/// either is its last six.
pub proof fn law_ids_have_their_lengths(bytes: Seq<u8>)
    ensures
        bytes.len() == 32 ==> base64(bytes).len() == 43,
        bytes.len() == 16 ==> base64(bytes).len() == 22,
        bytes.len() >= 6 ==> last_six(base64(bytes)).len() == 6 && forall|i: int|
            0 <= i < 6 ==> #[trigger] last_six(base64(bytes))[i] == base64(bytes)[base64(
                bytes,
            ).len() - 6 + i],
{
}

/// A counter shows a count as it is while it fits, and the same again once it has gone
/// round.
pub proof fn law_counters_start_over(n: nat)
    ensures
        n <= usize::MAX ==> word(n) == n,
        word(n + (usize::MAX + 1) as nat) == word(n),
        n <= u64::MAX ==> word64(n) == n,
        word64(n + 0x1_0000_0000_0000_0000) == word64(n),
{
    vstd::arithmetic::div_mod::lemma_mod_add_multiples_vanish(n as int, usize::MAX + 1);
}

/// White space is what Unicode calls so, and nothing else.
pub proof fn law_what_counts_as_white_space(c: char)
    ensures
        white_space(c) <==> (c == '\t' || c == '\n' || c == '\u{b}' || c == '\u{c}' || c == '\r' || c == ' '
            || c == '\u{85}' || c == '\u{a0}' || c == '\u{1680}' || c == '\u{2000}'
            || c == '\u{2001}' || c == '\u{2002}' || c == '\u{2003}' || c == '\u{2004}'
            || c == '\u{2005}' || c == '\u{2006}' || c == '\u{2007}' || c == '\u{2008}'
            || c == '\u{2009}' || c == '\u{200a}' || c == '\u{2028}' || c == '\u{2029}'
            || c == '\u{202f}' || c == '\u{205f}' || c == '\u{3000}'),
{
}

} // verus!
