//! Small text helpers with exact contracts: decimal numerals, joining, and
//! trimming. Every label the panel shows is put together from these.

use vstd::prelude::*;

verus! {

// ---------------------------------------------------------------------------
// Counters
// ---------------------------------------------------------------------------

/// What a counter of the width of `usize` shows of `n`: it starts over past the
/// largest one.
pub open spec fn word(n: nat) -> nat {
    n % ((usize::MAX + 1) as nat)
}

/// What a 64-bit counter shows of `n`.
pub open spec fn word64(n: nat) -> nat {
    n % 0x1_0000_0000_0000_0000
}

/// Counting one further.
pub proof fn lemma_word_step(n: nat)
    ensures
        word(n) <= usize::MAX,
        word(n + 1) == if word(n) == usize::MAX {
            0
        } else {
            word(n) + 1
        },
        n <= usize::MAX ==> word(n) == n,
{
    lemma_word_plus(n, 1);
}

/// Adding to a counter.
pub proof fn lemma_word_plus(n: nat, k: nat)
    requires
        k <= usize::MAX,
    ensures
        word(n) <= usize::MAX,
        word(n + k) == if word(n) + k > usize::MAX {
            (word(n) + k - usize::MAX - 1) as nat
        } else {
            word(n) + k
        },
        n <= usize::MAX ==> word(n) == n,
{
    let m = usize::MAX + 1;
    assert(word(n + k) == if word(n) + k > usize::MAX {
        (word(n) + k - usize::MAX - 1) as nat
    } else {
        word(n) + k
    }) by (nonlinear_arith)
        requires
            m == usize::MAX + 1,
            k < m,
            m > 0,
            word(n) == n as int % m,
            word(n + k) == (n + k) as int % m,
    ;
}

/// Adding to a 64-bit counter.
pub proof fn lemma_word64_plus(n: nat, k: nat)
    requires
        k <= u64::MAX,
    ensures
        word64(n) <= u64::MAX,
        word64(n + k) == if word64(n) + k > u64::MAX {
            (word64(n) + k - u64::MAX - 1) as nat
        } else {
            word64(n) + k
        },
        n <= u64::MAX ==> word64(n) == n,
{
}

// ---------------------------------------------------------------------------
// Equality
// ---------------------------------------------------------------------------

/// Whether two texts are the same.
pub fn same_text(a: &str, b: &str) -> (yes: bool)
    ensures
        yes == (a@ == b@),
{
    a.to_owned() == b.to_owned()
}

// ---------------------------------------------------------------------------
// Decimal numerals
// ---------------------------------------------------------------------------

/// The character of one decimal digit.
pub open spec fn digit(d: nat) -> char {
    if d == 0 {
        '0'
    } else if d == 1 {
        '1'
    } else if d == 2 {
        '2'
    } else if d == 3 {
        '3'
    } else if d == 4 {
        '4'
    } else if d == 5 {
        '5'
    } else if d == 6 {
        '6'
    } else if d == 7 {
        '7'
    } else if d == 8 {
        '8'
    } else {
        '9'
    }
}

/// `n` in decimal, without leading zeros.
pub open spec fn decimal(n: nat) -> Seq<char>
    decreases n,
{
    if n < 10 {
        seq![digit(n)]
    } else {
        decimal(n / 10).push(digit(n % 10))
    }
}

fn digit_text(d: u8) -> (text: &'static str)
    requires
        d < 10,
    ensures
        text@ == seq![digit(d as nat)],
{
    proof {
        reveal_strlit("0");
        reveal_strlit("1");
        reveal_strlit("2");
        reveal_strlit("3");
        reveal_strlit("4");
        reveal_strlit("5");
        reveal_strlit("6");
        reveal_strlit("7");
        reveal_strlit("8");
        reveal_strlit("9");
    }
    match d {
        0 => "0",
        1 => "1",
        2 => "2",
        3 => "3",
        4 => "4",
        5 => "5",
        6 => "6",
        7 => "7",
        8 => "8",
        _ => "9",
    }
}

/// `n` in decimal.
pub fn decimal_text(n: u128) -> (text: String)
    ensures
        text@ == decimal(n as nat),
    decreases n,
{
    if n < 10 {
        digit_text(n as u8).to_owned()
    } else {
        let mut text = decimal_text(n / 10);
        text.append(digit_text((n % 10) as u8));
        text
    }
}

/// `n` in decimal, padded to two digits with a leading zero.
pub open spec fn two_digits(n: nat) -> Seq<char> {
    if n < 10 {
        seq!['0'] + decimal(n)
    } else {
        decimal(n)
    }
}

/// `n` in decimal, at least two digits wide.
pub fn two_digits_text(n: u64) -> (text: String)
    ensures
        text@ == two_digits(n as nat),
{
    if n < 10 {
        proof {
            reveal_strlit("0");
        }
        let mut text = "0".to_owned();
        text.append(decimal_text(n as u128).as_str());
        assert("0"@ =~= seq!['0']);
        text
    } else {
        decimal_text(n as u128)
    }
}

// ---------------------------------------------------------------------------
// Joining
// ---------------------------------------------------------------------------

/// The contents of a list of strings.
pub open spec fn texts(list: Seq<String>) -> Seq<Seq<char>> {
    Seq::new(list.len(), |i: int| list[i]@)
}

/// The pieces in order, with `sep` between neighbours.
pub open spec fn joined(pieces: Seq<Seq<char>>, sep: Seq<char>) -> Seq<char>
    decreases pieces.len(),
{
    if pieces.len() == 0 {
        Seq::empty()
    } else if pieces.len() == 1 {
        pieces[0]
    } else {
        joined(pieces.drop_last(), sep) + sep + pieces.last()
    }
}

/// Join `pieces` with `sep` between neighbours.
pub fn join(pieces: &Vec<String>, sep: &str) -> (text: String)
    ensures
        text@ == joined(texts(pieces@), sep@),
{
    let mut text = String::new();
    let mut i: usize = 0;
    while i < pieces.len()
        invariant
            i <= pieces.len(),
            text@ == joined(texts(pieces@).take(i as int), sep@),
        decreases pieces.len() - i,
    {
        let ghost before = texts(pieces@).take(i as int);
        let ghost after = texts(pieces@).take(i + 1);
        if i > 0 {
            text.append(sep);
        }
        text.append(pieces[i].as_str());
        proof {
            assert(after.drop_last() =~= before);
            assert(after.last() == pieces@[i as int]@);
            if i == 0 {
                assert(text@ =~= after[0]);
            }
        }
        i += 1;
    }
    assert(texts(pieces@).take(i as int) =~= texts(pieces@));
    text
}

// ---------------------------------------------------------------------------
// Whitespace
// ---------------------------------------------------------------------------

/// White space: the characters that have the Unicode property of that name.
pub open spec fn white_space(c: char) -> bool {
    let n = c as u32;
    ||| 0x9 <= n <= 0xd
    ||| n == 0x20
    ||| n == 0x85
    ||| n == 0xa0
    ||| n == 0x1680
    ||| 0x2000 <= n <= 0x200a
    ||| n == 0x2028
    ||| n == 0x2029
    ||| n == 0x202f
    ||| n == 0x205f
    ||| n == 0x3000
}

/// Whether a character is white space.
pub fn is_white_space(c: char) -> (yes: bool)
    ensures
        yes == white_space(c),
{
    let n: u32 = c as u32;
    0x9 <= n && n <= 0xd || n == 0x20 || n == 0x85 || n == 0xa0 || n == 0x1680 || 0x2000 <= n && n
        <= 0x200a || n == 0x2028 || n == 0x2029 || n == 0x202f || n == 0x205f || n == 0x3000
}

/// `middle` is what is left of `text` once the white space at both ends is gone.
pub open spec fn is_trimmed(text: Seq<char>, middle: Seq<char>) -> bool {
    exists|from: int, to: int| #[trigger] is_trimmed_to(text, middle, from, to)
}

/// As [`is_trimmed`], with the ends of the middle part spelled out.
pub open spec fn is_trimmed_to(text: Seq<char>, middle: Seq<char>, from: int, to: int) -> bool {
    &&& 0 <= from <= to <= text.len()
    &&& middle == text.subrange(from, to)
    &&& forall|i: int| 0 <= i < from ==> white_space(#[trigger] text[i])
    &&& forall|i: int| to <= i < text.len() ==> white_space(#[trigger] text[i])
    &&& middle.len() > 0 ==> !white_space(middle[0]) && !white_space(middle.last())
}

/// Only one text is left of another once the white space at both ends is gone.
pub proof fn law_trimming_is_unambiguous(text: Seq<char>, a: Seq<char>, b: Seq<char>)
    requires
        is_trimmed(text, a),
        is_trimmed(text, b),
    ensures
        a == b,
{
    let (from, to) = choose|from: int, to: int| #[trigger] is_trimmed_to(text, a, from, to);
    let (start, end) = choose|from: int, to: int| #[trigger] is_trimmed_to(text, b, from, to);
    if a.len() > 0 {
        assert(a[0] == text[from] && a.last() == text[to - 1]);
    }
    if b.len() > 0 {
        assert(b[0] == text[start] && b.last() == text[end - 1]);
    }
    assert(a =~= b);
}

/// Drop leading and trailing white space.
pub fn trimmed(text: &str) -> (middle: String)
    ensures
        is_trimmed(text@, middle@),
{
    let len = text.unicode_len();
    let mut from: usize = 0;
    while from < len && is_white_space(text.get_char(from))
        invariant
            len == text@.len(),
            from <= len,
            forall|i: int| 0 <= i < from ==> white_space(#[trigger] text@[i]),
        ensures
            from < len ==> !white_space(text@[from as int]),
        decreases len - from,
    {
        from += 1;
    }
    let mut to: usize = len;
    while from < to && is_white_space(text.get_char(to - 1))
        invariant
            len == text@.len(),
            from <= to <= len,
            forall|i: int| to <= i < len ==> white_space(#[trigger] text@[i]),
        ensures
            from < to ==> !white_space(text@[to - 1]),
        decreases to - from,
    {
        to -= 1;
    }
    let middle = text.substring_char(from, to).to_owned();
    proof {
        assert(is_trimmed_to(text@, middle@, from as int, to as int));
    }
    middle
}

} // verus!
