//! Numbers as decimal text.

use vstd::prelude::*;
use vstd::string::StringExecFns;

use crate::numberlaws::{lemma_signed_read, reads_as};

verus! {

/// The digit of a number below ten.
pub open spec fn digit(d: nat) -> char {
    if d == 0 {
        '0'
    } else if d == 1 {
        '1'
    } else if d == 2 {
        '2'
    } else if d == 3 {
        '3'
    } else if d == 4 {
        '4'
    } else if d == 5 {
        '5'
    } else if d == 6 {
        '6'
    } else if d == 7 {
        '7'
    } else if d == 8 {
        '8'
    } else {
        '9'
    }
}

/// A number in decimal, without leading zeros.
pub open spec fn decimal(n: nat) -> Seq<char>
    decreases n,
{
    if n < 10 {
        seq![digit(n)]
    } else {
        decimal(n / 10).push(digit(n % 10))
    }
}

/// A number in decimal, with a minus sign if it is negative.
pub open spec fn signed_decimal(n: int) -> Seq<char> {
    if n < 0 {
        seq!['-'] + decimal((-n) as nat)
    } else {
        decimal(n as nat)
    }
}

fn digit_text(d: u64) -> (r: &'static str)
    requires
        d < 10,
    ensures
        r@ == seq![digit(d as nat)],
{
    proof {
        reveal_strlit("0");
        reveal_strlit("1");
        reveal_strlit("2");
        reveal_strlit("3");
        reveal_strlit("4");
        reveal_strlit("5");
        reveal_strlit("6");
        reveal_strlit("7");
        reveal_strlit("8");
        reveal_strlit("9");
    }
    let r = if d == 0 {
        "0"
    } else if d == 1 {
        "1"
    } else if d == 2 {
        "2"
    } else if d == 3 {
        "3"
    } else if d == 4 {
        "4"
    } else if d == 5 {
        "5"
    } else if d == 6 {
        "6"
    } else if d == 7 {
        "7"
    } else if d == 8 {
        "8"
    } else {
        "9"
    };
    proof {
        assert(r@ =~= seq![digit(d as nat)]);
    }
    r
}

/// Appends a number in decimal.
pub fn push_decimal(out: &mut String, n: u64)
    ensures
        final(out)@ == old(out)@ + decimal(n as nat),
    decreases n,
{
    if n >= 10 {
        push_decimal(out, n / 10);
    }
    let d = digit_text(n % 10);
    out.append(d);
    proof {
        assert(final(out)@ =~= old(out)@ + decimal(n as nat));
    }
}

/// Appends a signed number in decimal.
pub fn push_signed(out: &mut String, n: i64)
    ensures
        final(out)@ == old(out)@ + signed_decimal(n as int),
        reads_as(final(out)@.skip(old(out)@.len() as int), n as int),
{
    proof {
        let text = signed_decimal(n as int);
        lemma_signed_read(n as int);
        assert((old(out)@ + text).skip(old(out)@.len() as int) =~= text);
    }
    if n < 0 {
        proof {
            reveal_strlit("-");
        }
        out.append("-");
        let m: u64 = (-(n as i128)) as u64;
        push_decimal(out, m);
        proof {
            assert("-"@ =~= seq!['-']);
            assert(final(out)@ =~= old(out)@ + signed_decimal(n as int));
        }
    } else {
        push_decimal(out, n as u64);
    }
}

/// The number that a string of digits stands for.
pub open spec fn digits_number(s: Seq<u8>) -> Option<nat>
    decreases s.len(),
{
    if s.len() == 0 {
        Some(0)
    } else {
        match digits_number(s.drop_last()) {
            Some(n) => if 48 <= s.last() <= 57 {
                Some(10 * n + (s.last() - 48) as nat)
            } else {
                None
            },
            None => None,
        }
    }
}

/// A number that 64 bits hold.
pub open spec fn in_64_bits(n: Option<nat>) -> Option<u64> {
    match n {
        Some(k) => if k <= u64::MAX {
            Some(k as u64)
        } else {
            None
        },
        None => None,
    }
}

/// The number that a text stands for: an optional plus sign, then digits only, and no
/// more than 64 bits hold.
pub open spec fn parsed(s: Seq<u8>) -> Option<u64> {
    let digits = if s.len() > 0 && s[0] == 43 {
        s.skip(1)
    } else {
        s
    };
    if digits.len() == 0 {
        None
    } else {
        in_64_bits(digits_number(digits))
    }
}

/// Text without the given byte at its end.
pub open spec fn trimmed_of(s: Seq<u8>, b: u8) -> Seq<u8>
    decreases s.len(),
{
    if s.len() > 0 && s.last() == b {
        trimmed_of(s.drop_last(), b)
    } else {
        s
    }
}

/// A line without its end: no newlines, and before those no carriage returns.
pub open spec fn trimmed(line: Seq<u8>) -> Seq<u8> {
    trimmed_of(trimmed_of(line, 10), 13)
}

/// Once the front of a text is no number, or one too large, neither is the whole.
proof fn lemma_digits_bad(s: Seq<u8>, n: int)
    requires
        0 <= n <= s.len(),
        digits_number(s.take(n)) matches Some(k) ==> k > u64::MAX,
    ensures
        digits_number(s) matches Some(k) ==> k > u64::MAX,
    decreases s.len(),
{
    if n < s.len() {
        assert(s.drop_last().take(n) =~= s.take(n));
        lemma_digits_bad(s.drop_last(), n);
    } else {
        assert(s.take(n) =~= s);
    }
}

fn trim_byte(line: &[u8], len: usize, b: u8) -> (r: usize)
    requires
        len <= line@.len(),
    ensures
        r <= len,
        line@.take(r as int) == trimmed_of(line@.take(len as int), b),
{
    let mut n: usize = len;
    while n > 0 && line[n - 1] == b
        invariant
            n <= len,
            len <= line@.len(),
            trimmed_of(line@.take(len as int), b) == trimmed_of(line@.take(n as int), b),
        decreases n,
    {
        proof {
            assert(line@.take(n as int).drop_last() =~= line@.take(n - 1));
        }
        n -= 1;
    }
    n
}

/// The number that `line[start..end]` stands for, where it is digits only and 64 bits
/// hold it.
fn parse_digits(line: &[u8], start: usize, end: usize) -> (r: Option<u64>)
    requires
        start <= end <= line@.len(),
    ensures
        r == in_64_bits(digits_number(line@.subrange(start as int, end as int))),
{
    let ghost digits = line@.subrange(start as int, end as int);
    let mut i: usize = start;
    let mut value: u64 = 0;
    proof {
        assert(digits.take(0) =~= Seq::<u8>::empty());
    }
    while i < end
        invariant
            start <= i <= end,
            end <= line@.len(),
            digits == line@.subrange(start as int, end as int),
            digits_number(digits.take(i - start)) == Some(value as nat),
        decreases end - i,
    {
        let b = line[i];
        let ghost k = i - start;
        proof {
            assert(digits.take(k + 1).drop_last() =~= digits.take(k));
            assert(digits.take(k + 1).last() == b);
        }
        if b < 48 || b > 57 {
            proof {
                lemma_digits_bad(digits, k + 1);
            }
            return None;
        }
        let d: u64 = (b - 48) as u64;
        if value > (u64::MAX - d) / 10 {
            proof {
                lemma_digits_bad(digits, k + 1);
            }
            return None;
        }
        value = 10 * value + d;
        i += 1;
    }
    proof {
        assert(digits.take(end - start) =~= digits);
    }
    Some(value)
}

/// Reads the number on a line.
pub fn parse_line(line: &[u8]) -> (r: Option<u64>)
    ensures
        r == parsed(trimmed(line@)),
{
    proof {
        assert(line@.take(line@.len() as int) =~= line@);
    }
    let n = trim_byte(line, line.len(), 10);
    let n = trim_byte(line, n, 13);
    let ghost text = trimmed(line@);
    assert(text == line@.take(n as int));
    if n > 0 && line[0] == 43 {
        proof {
            assert(text.skip(1) =~= line@.subrange(1, n as int));
        }
        if n == 1 {
            return None;
        }
        parse_digits(line, 1, n)
    } else {
        proof {
            assert(text =~= line@.subrange(0, n as int));
        }
        if n == 0 {
            return None;
        }
        parse_digits(line, 0, n)
    }
}

} // verus!
