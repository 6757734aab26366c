//! What the bytes and the digits of numbers mean.

use vstd::prelude::*;

use crate::bytes::{le_bytes, le_number, lex, Order};
use crate::text::{decimal, digits_number, parsed, signed_decimal, trimmed, trimmed_of};

verus! {

// ── Bytes ────────────────────────────────────────────────────────────────────

/// The number that two bytes stand for, the first the lowest.
pub open spec fn two_bytes(b: Seq<u8>) -> int {
    b[0] + 0x100 * b[1]
}

/// The number that four bytes stand for, the first the lowest.
pub open spec fn four_bytes(b: Seq<u8>) -> int {
    b[0] + 0x100 * b[1] + 0x1_0000 * b[2] + 0x100_0000 * b[3]
}

/// The number that eight bytes stand for, the first the lowest.
pub open spec fn eight_bytes(b: Seq<u8>) -> int {
    four_bytes(b) + 0x1_0000_0000 * four_bytes(b.skip(4))
}

/// Bytes read as a number are its digits to the base 256, the lowest first.
pub proof fn lemma_bytes_read(b: Seq<u8>)
    ensures
        b.len() == 2 ==> le_number(b) == two_bytes(b),
        b.len() == 4 ==> le_number(b) == four_bytes(b),
        b.len() == 8 ==> le_number(b) == eight_bytes(b),
    decreases b.len(),
{
    reveal_with_fuel(le_number, 5);
    if b.len() == 8 {
        let r = b.drop_first().drop_first().drop_first().drop_first();
        assert(r =~= b.skip(4));
        lemma_bytes_read(r);
    }
}

/// The bytes of a number are its digits to the base 256, the lowest first: read back they
/// give the number, where it has no more digits than there are bytes.
pub proof fn lemma_bytes_written(n: nat)
    ensures
        le_bytes(n, 2).len() == 2,
        le_bytes(n, 4).len() == 4,
        le_bytes(n, 8).len() == 8,
        n < 0x1_0000 ==> two_bytes(le_bytes(n, 2)) == n,
        n < 0x1_0000_0000 ==> four_bytes(le_bytes(n, 4)) == n,
        n < 0x1_0000_0000_0000_0000 ==> eight_bytes(le_bytes(n, 8)) == n,
{
    crate::bytes::lemma_pow256();
    crate::bytes::lemma_le_bytes_len(n, 2);
    crate::bytes::lemma_le_bytes_len(n, 4);
    crate::bytes::lemma_le_bytes_len(n, 8);
    lemma_bytes_read(le_bytes(n, 2));
    lemma_bytes_read(le_bytes(n, 4));
    lemma_bytes_read(le_bytes(n, 8));
    if n < 0x1_0000 {
        crate::bytes::lemma_le_round_trip(n, 2);
    }
    if n < 0x1_0000_0000 {
        crate::bytes::lemma_le_round_trip(n, 4);
    }
    if n < 0x1_0000_0000_0000_0000 {
        crate::bytes::lemma_le_round_trip(n, 8);
    }
}

/// Up to place `i` the byte strings agree, and there the first has the lower byte, or is at
/// its end while the second is not.
pub open spec fn lower_at(a: Seq<u8>, b: Seq<u8>, i: int) -> bool {
    &&& 0 <= i < b.len()
    &&& i <= a.len()
    &&& forall|j: int| 0 <= j < i ==> #[trigger] a[j] == b[j]
    &&& i == a.len() || a[i] < b[i]
}

/// One byte string is below another: it is lower at the first place where they differ.
pub open spec fn bytes_below(a: Seq<u8>, b: Seq<u8>) -> bool {
    exists|i: int| #[trigger] lower_at(a, b, i)
}

/// The order of byte strings is the lexicographic one.
pub proof fn lemma_lex_means(a: Seq<u8>, b: Seq<u8>)
    ensures
        lex(a, b) == Order::Less <==> bytes_below(a, b),
        lex(a, b) == Order::Greater <==> bytes_below(b, a),
        lex(a, b) == Order::Equal <==> a == b,
        !(bytes_below(a, b) && bytes_below(b, a)),
        bytes_below(a, b) || bytes_below(b, a) || a == b,
{
    crate::bytes::lemma_lex_flip(a, b);
    lemma_lex_below(a, b);
    lemma_lex_below(b, a);
}

proof fn lemma_lex_below(a: Seq<u8>, b: Seq<u8>)
    ensures
        lex(a, b) == Order::Less <==> bytes_below(a, b),
    decreases a.len(),
{
    if b.len() > 0 {
        if a.len() == 0 || a[0] < b[0] {
            assert(lower_at(a, b, 0));
        } else if a[0] == b[0] {
            let (x, y) = (a.drop_first(), b.drop_first());
            lemma_lex_below(x, y);
            if bytes_below(x, y) {
                let i = choose|i: int| #[trigger] lower_at(x, y, i);
                assert forall|j: int| 0 <= j < i + 1 implies #[trigger] a[j] == b[j] by {
                    if j > 0 {
                        assert(x[j - 1] == y[j - 1]);
                    }
                }
                assert(lower_at(a, b, i + 1));
            }
            if bytes_below(a, b) {
                let i = choose|i: int| #[trigger] lower_at(a, b, i);
                assert forall|j: int| 0 <= j < i - 1 implies #[trigger] x[j] == y[j] by {
                    assert(a[j + 1] == b[j + 1]);
                }
                assert(lower_at(x, y, i - 1));
            }
        } else if bytes_below(a, b) {
            let i = choose|i: int| #[trigger] lower_at(a, b, i);
            if i > 0 {
                assert(a[0] == b[0]);
            }
        }
    }
}

// ── Digits ───────────────────────────────────────────────────────────────────

/// A character from '0' to '9'.
pub open spec fn is_digit(c: char) -> bool {
    '0' <= c <= '9'
}

/// All characters are digits, there is one, and the first is no zero that could be left out.
pub open spec fn plain_number(s: Seq<char>) -> bool {
    &&& s.len() > 0
    &&& forall|i: int| 0 <= i < s.len() ==> is_digit(#[trigger] s[i])
    &&& s.len() > 1 ==> s[0] != '0'
}

/// The number that digits stand for: the last counts once, each before it ten times as much
/// as the one behind.
pub open spec fn number_read(s: Seq<char>) -> int
    decreases s.len(),
{
    if s.len() == 0 {
        0
    } else {
        10 * number_read(s.drop_last()) + (s.last() as int - '0' as int)
    }
}

/// The text of a number is its digits: read back they give the number.
pub proof fn lemma_decimal_read(n: nat)
    ensures
        plain_number(decimal(n)),
        number_read(decimal(n)) == n,
        n > 0 ==> decimal(n)[0] != '0',
    decreases n,
{
    if n < 10 {
        let s = decimal(n);
        assert(s.drop_last() =~= Seq::<char>::empty());
        assert(number_read(s.drop_last()) == 0);
    } else {
        lemma_decimal_read(n / 10);
        let front = decimal(n / 10);
        let s = decimal(n);
        assert(s.drop_last() =~= front);
        assert forall|i: int| 0 <= i < s.len() implies is_digit(#[trigger] s[i]) by {
            if i < front.len() {
                assert(s[i] == front[i]);
            }
        }
        assert(s[0] == front[0]);
    }
}

/// A text is that of a signed number: a minus sign exactly where the number is negative, and
/// then the digits of its size.
pub open spec fn reads_as(s: Seq<char>, n: int) -> bool {
    if n < 0 {
        &&& s.len() > 1
        &&& s[0] == '-'
        &&& plain_number(s.skip(1))
        &&& number_read(s.skip(1)) == -n
    } else {
        plain_number(s) && number_read(s) == n
    }
}

/// The text of a signed number reads as the number.
pub proof fn lemma_signed_read(n: int)
    ensures
        reads_as(signed_decimal(n), n),
{
    if n < 0 {
        lemma_decimal_read((-n) as nat);
        assert(signed_decimal(n).skip(1) =~= decimal((-n) as nat));
    } else {
        lemma_decimal_read(n as nat);
    }
}

// ── Lines ────────────────────────────────────────────────────────────────────

/// The number that bytes stand for as digits.
pub open spec fn bytes_number_read(s: Seq<u8>) -> int
    decreases s.len(),
{
    if s.len() == 0 {
        0
    } else {
        10 * bytes_number_read(s.drop_last()) + (s.last() - 48)
    }
}

/// All bytes are digits.
pub open spec fn all_digits(s: Seq<u8>) -> bool {
    forall|i: int| 0 <= i < s.len() ==> 48 <= #[trigger] s[i] <= 57
}

proof fn lemma_digits_read(s: Seq<u8>)
    ensures
        match digits_number(s) {
            Some(n) => all_digits(s) && bytes_number_read(s) == n,
            None => !all_digits(s),
        },
    decreases s.len(),
{
    if s.len() > 0 {
        let front = s.drop_last();
        lemma_digits_read(front);
        if digits_number(front) is Some && 48 <= s.last() <= 57 {
            assert forall|i: int| 0 <= i < s.len() implies 48 <= #[trigger] s[i] <= 57 by {
                if i < front.len() {
                    assert(s[i] == front[i]);
                }
            }
        } else if all_digits(s) {
            assert(48 <= s[s.len() - 1] <= 57);
            assert forall|i: int| 0 <= i < front.len() implies 48 <= #[trigger] front[i] <= 57 by {
                assert(s[i] == front[i]);
            }
        }
    }
}

/// A text is taken for a number exactly where it is digits, with at most a plus sign before
/// them, and 64 bits hold what the digits stand for; and for no other number.
pub proof fn lemma_parsed_means(s: Seq<u8>)
    ensures
        ({
            let digits = if s.len() > 0 && s[0] == 0x2b {
                s.skip(1)
            } else {
                s
            };
            let n = bytes_number_read(digits);
            if digits.len() > 0 && all_digits(digits) && n <= 0xffff_ffff_ffff_ffff {
                parsed(s) matches Some(m) && m == n
            } else {
                parsed(s) is None
            }
        }),
{
    let digits = if s.len() > 0 && s[0] == 0x2b {
        s.skip(1)
    } else {
        s
    };
    lemma_digits_read(digits);
}

proof fn lemma_trimmed_of_means(s: Seq<u8>, b: u8) -> (n: int)
    ensures
        0 <= n <= s.len(),
        trimmed_of(s, b) == s.take(n),
        n > 0 ==> s[n - 1] != b,
        forall|i: int| n <= i < s.len() ==> #[trigger] s[i] == b,
    decreases s.len(),
{
    if s.len() > 0 && s.last() == b {
        let front = s.drop_last();
        let n = lemma_trimmed_of_means(front, b);
        assert(front.take(n) =~= s.take(n));
        assert forall|i: int| n <= i < s.len() implies #[trigger] s[i] == b by {
            if i < front.len() {
                assert(front[i] == s[i]);
            }
        }
        n
    } else {
        assert(s.take(s.len() as int) =~= s);
        s.len() as int
    }
}

/// What is taken from a line is its end alone: carriage returns, and behind them newlines. It
/// is all of those there: what is left ends in no carriage return, and in a newline only
/// before a carriage return that was taken.
pub proof fn lemma_trimmed_means(line: Seq<u8>) -> (ends: (int, int))
    ensures
        ({
            let (n, m) = ends;
            &&& 0 <= n <= m <= line.len()
            &&& trimmed(line) == line.take(n)
            &&& forall|i: int| n <= i < m ==> #[trigger] line[i] == 13
            &&& forall|i: int| m <= i < line.len() ==> #[trigger] line[i] == 10
            &&& n > 0 ==> line[n - 1] != 13
            &&& m > 0 ==> line[m - 1] != 10
        }),
{
    let m = lemma_trimmed_of_means(line, 10);
    let front = line.take(m);
    let n = lemma_trimmed_of_means(front, 13);
    assert(front.take(n) =~= line.take(n));
    assert forall|i: int| n <= i < m implies #[trigger] line[i] == 13 by {
        assert(front[i] == line[i]);
    }
    if n > 0 {
        assert(front[n - 1] == line[n - 1]);
    }
    if m > 0 {
        assert(line[m - 1] != 10);
    }
    (n, m)
}

} // verus!
