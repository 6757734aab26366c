//! Byte strings: their order, and fixed-width integers written as bytes.

use vstd::prelude::*;

verus! {

/// How one value stands to another.
#[derive(Clone, Copy, Debug, PartialEq, Eq, Structural)]
pub enum Order {
    Less,
    Equal,
    Greater,
}

impl Order {
    pub open spec fn flip(self) -> Order {
        match self {
            Order::Less => Order::Greater,
            Order::Equal => Order::Equal,
            Order::Greater => Order::Less,
        }
    }

    pub fn reverse(self) -> (r: Order)
        ensures
            r == self.flip(),
    {
        match self {
            Order::Less => Order::Greater,
            Order::Equal => Order::Equal,
            Order::Greater => Order::Less,
        }
    }
}

/// The order of two integers.
pub open spec fn int_order(a: int, b: int) -> Order {
    if a < b {
        Order::Less
    } else if a == b {
        Order::Equal
    } else {
        Order::Greater
    }
}

/// The lexicographic order of two byte strings.
pub open spec fn lex(a: Seq<u8>, b: Seq<u8>) -> Order
    decreases a.len(),
{
    if a.len() == 0 {
        if b.len() == 0 {
            Order::Equal
        } else {
            Order::Less
        }
    } else if b.len() == 0 {
        Order::Greater
    } else if a[0] < b[0] {
        Order::Less
    } else if a[0] > b[0] {
        Order::Greater
    } else {
        lex(a.drop_first(), b.drop_first())
    }
}

/// Compares two byte strings lexicographically.
pub fn compare_bytes(a: &[u8], b: &[u8]) -> (r: Order)
    ensures
        r == lex(a@, b@),
{
    let mut i: usize = 0;
    proof {
        assert(a@.skip(0) =~= a@);
        assert(b@.skip(0) =~= b@);
    }
    while i < a.len() && i < b.len()
        invariant
            i <= a@.len(),
            i <= b@.len(),
            lex(a@, b@) == lex(a@.skip(i as int), b@.skip(i as int)),
        decreases a@.len() - i,
    {
        if a[i] < b[i] {
            return Order::Less;
        }
        if a[i] > b[i] {
            return Order::Greater;
        }
        proof {
            assert(a@.skip(i as int).drop_first() =~= a@.skip(i + 1));
            assert(b@.skip(i as int).drop_first() =~= b@.skip(i + 1));
        }
        i += 1;
    }
    if i < a.len() {
        Order::Greater
    } else if i < b.len() {
        Order::Less
    } else {
        Order::Equal
    }
}

/// Only equal byte strings compare equal, and swapping the two flips the order.
pub proof fn lemma_lex_flip(a: Seq<u8>, b: Seq<u8>)
    ensures
        lex(b, a) == lex(a, b).flip(),
        lex(a, b) == Order::Equal <==> a == b,
    decreases a.len(),
{
    if a.len() > 0 && b.len() > 0 {
        lemma_lex_flip(a.drop_first(), b.drop_first());
        if a[0] == b[0] && a.drop_first() == b.drop_first() {
            assert(a =~= seq![a[0]] + a.drop_first());
            assert(b =~= seq![b[0]] + b.drop_first());
        }
    } else if a.len() == 0 && b.len() == 0 {
        assert(a =~= b);
    }
}

/// The order of byte strings is transitive.
pub proof fn lemma_lex_transitive(a: Seq<u8>, b: Seq<u8>, c: Seq<u8>)
    requires
        lex(a, b) != Order::Greater,
        lex(b, c) != Order::Greater,
    ensures
        lex(a, c) != Order::Greater,
        lex(a, b) == Order::Less || lex(b, c) == Order::Less ==> lex(a, c) == Order::Less,
    decreases a.len(),
{
    if a.len() > 0 && b.len() > 0 && c.len() > 0 {
        if a[0] == b[0] && b[0] == c[0] {
            lemma_lex_transitive(a.drop_first(), b.drop_first(), c.drop_first());
        }
    }
}

/// A common front does not change the order.
pub proof fn lemma_lex_front(front: Seq<u8>, a: Seq<u8>, b: Seq<u8>)
    ensures
        lex(front + a, front + b) == lex(a, b),
    decreases front.len(),
{
    if front.len() == 0 {
        assert(front + a =~= a);
        assert(front + b =~= b);
    } else {
        lemma_lex_front(front.drop_first(), a, b);
        assert((front + a).drop_first() =~= front.drop_first() + a);
        assert((front + b).drop_first() =~= front.drop_first() + b);
    }
}

/// Strings that first differ at a place both have are ordered by the bytes there,
/// whatever follows.
pub proof fn lemma_lex_differ(a: Seq<u8>, b: Seq<u8>, i: int)
    requires
        0 <= i < a.len(),
        i < b.len(),
        a.take(i) == b.take(i),
        a[i] != b[i],
    ensures
        lex(a, b) == int_order(a[i] as int, b[i] as int),
    decreases i,
{
    if i > 0 {
        assert(a[0] == a.take(i)[0] && b[0] == b.take(i)[0]);
        assert(a.drop_first().take(i - 1) =~= a.take(i).drop_first());
        assert(b.drop_first().take(i - 1) =~= b.take(i).drop_first());
        lemma_lex_differ(a.drop_first(), b.drop_first(), i - 1);
    }
}

/// The `width` lowest base-256 digits of `n`, lowest first.
pub open spec fn le_bytes(n: nat, width: nat) -> Seq<u8>
    decreases width,
{
    if width == 0 {
        Seq::empty()
    } else {
        seq![(n % 256) as u8] + le_bytes(n / 256, (width - 1) as nat)
    }
}

/// The number whose base-256 digits, lowest first, are `b`.
pub open spec fn le_number(b: Seq<u8>) -> nat
    decreases b.len(),
{
    if b.len() == 0 {
        0
    } else {
        b[0] as nat + 256 * le_number(b.drop_first())
    }
}

/// The digits of [`le_bytes`], highest first.
pub open spec fn be_bytes(n: nat, width: nat) -> Seq<u8>
    decreases width,
{
    if width == 0 {
        Seq::empty()
    } else {
        be_bytes(n / 256, (width - 1) as nat).push((n % 256) as u8)
    }
}

pub open spec fn pow256(width: nat) -> nat
    decreases width,
{
    if width == 0 {
        1
    } else {
        256 * pow256((width - 1) as nat)
    }
}

pub proof fn lemma_pow256()
    ensures
        pow256(2) == 0x1_0000,
        pow256(4) == 0x1_0000_0000,
        pow256(8) == 0x1_0000_0000_0000_0000,
{
    reveal_with_fuel(pow256, 9);
}

pub proof fn lemma_le_bytes_len(n: nat, width: nat)
    ensures
        le_bytes(n, width).len() == width,
    decreases width,
{
    if width > 0 {
        lemma_le_bytes_len(n / 256, (width - 1) as nat);
    }
}

/// Reading the digits of a number that fits gives the number back.
pub proof fn lemma_le_round_trip(n: nat, width: nat)
    requires
        n < pow256(width),
    ensures
        le_bytes(n, width).len() == width,
        le_number(le_bytes(n, width)) == n,
    decreases width,
{
    if width > 0 {
        lemma_le_round_trip(n / 256, (width - 1) as nat);
        assert(le_bytes(n, width).drop_first() =~= le_bytes(n / 256, (width - 1) as nat));
    }
}

/// A number read from `b` is below 256 to the length of `b`.
pub proof fn lemma_le_number_bound(b: Seq<u8>)
    ensures
        le_number(b) < pow256(b.len()),
    decreases b.len(),
{
    if b.len() > 0 {
        lemma_le_number_bound(b.drop_first());
    }
}

pub proof fn lemma_be_bytes_len(n: nat, width: nat)
    ensures
        be_bytes(n, width).len() == width,
    decreases width,
{
    if width > 0 {
        lemma_be_bytes_len(n / 256, (width - 1) as nat);
    }
}

/// Numbers written highest digit first in the same width compare as byte strings do.
pub proof fn lemma_be_order(a: nat, b: nat, width: nat)
    requires
        a < pow256(width),
        b < pow256(width),
    ensures
        be_bytes(a, width).len() == width,
        be_bytes(b, width).len() == width,
        lex(be_bytes(a, width), be_bytes(b, width)) == int_order(a as int, b as int),
    decreases width,
{
    if width > 0 {
        let w = (width - 1) as nat;
        lemma_be_order(a / 256, b / 256, w);
        let x = be_bytes(a / 256, w);
        let y = be_bytes(b / 256, w);
        let p = seq![(a % 256) as u8];
        let q = seq![(b % 256) as u8];
        assert(be_bytes(a, width) =~= x + p);
        assert(be_bytes(b, width) =~= y + q);
        lemma_lex_flip(x, y);
        if x == y {
            lemma_lex_front(x, p, q);
            assert(lex(p.drop_first(), q.drop_first()) == Order::Equal);
        } else {
            lemma_lex_tail(x, y, p, q);
        }
    }
}

/// Among strings of one length that differ, what is appended does not matter.
pub proof fn lemma_lex_tail(x: Seq<u8>, y: Seq<u8>, p: Seq<u8>, q: Seq<u8>)
    requires
        x.len() == y.len(),
        x != y,
    ensures
        lex(x + p, y + q) == lex(x, y),
    decreases x.len(),
{
    if x.len() == 0 {
        assert(x =~= y);
    } else {
        assert((x + p).drop_first() =~= x.drop_first() + p);
        assert((y + q).drop_first() =~= y.drop_first() + q);
        if x[0] == y[0] {
            if x.drop_first() == y.drop_first() {
                assert(x =~= seq![x[0]] + x.drop_first());
                assert(y =~= seq![y[0]] + y.drop_first());
            }
            lemma_lex_tail(x.drop_first(), y.drop_first(), p, q);
        }
    }
}

/// Appends the `width` lowest base-256 digits of `n`, lowest first.
pub fn push_le(out: &mut Vec<u8>, n: u64, width: usize)
    requires
        width <= 8,
    ensures
        final(out)@ == old(out)@ + le_bytes(n as nat, width as nat),
    decreases width,
{
    if width > 0 {
        let digit: u8 = (n % 256) as u8;
        out.push(digit);
        push_le(out, n / 256, width - 1);
        proof {
            assert(final(out)@ =~= old(out)@ + le_bytes(n as nat, width as nat));
        }
    } else {
        proof {
            assert(final(out)@ =~= old(out)@ + le_bytes(n as nat, width as nat));
        }
    }
}

/// Appends the `width` lowest base-256 digits of `n`, highest first.
pub fn push_be(out: &mut Vec<u8>, n: u64, width: usize)
    requires
        width <= 8,
    ensures
        final(out)@ == old(out)@ + be_bytes(n as nat, width as nat),
    decreases width,
{
    if width > 0 {
        push_be(out, n / 256, width - 1);
        let digit: u8 = (n % 256) as u8;
        out.push(digit);
    }
    proof {
        assert(final(out)@ =~= old(out)@ + be_bytes(n as nat, width as nat));
    }
}

/// Reads `width` bytes at `at`, lowest first, as a number.
pub fn read_le(data: &[u8], at: usize, width: usize) -> (n: u64)
    requires
        width <= 8,
        at + width <= data@.len(),
    ensures
        n == le_number(data@.subrange(at as int, at + width)),
    decreases width,
{
    if width == 0 {
        0
    } else {
        proof {
            assert(at + width <= data.len());
            let s = data@.subrange(at as int, at + width);
            lemma_le_number_bound(s.drop_first());
            assert(s.drop_first() =~= data@.subrange(at + 1, at + width));
            lemma_pow256_mono((width - 1) as nat, 7);
            lemma_pow256();
        }
        let rest = read_le(data, at + 1, width - 1);
        data[at] as u64 + 256 * rest
    }
}

pub proof fn lemma_pow256_mono(a: nat, b: nat)
    requires
        a <= b,
    ensures
        pow256(a) <= pow256(b),
        pow256(7) == 0x100_0000_0000_0000,
    decreases b,
{
    reveal_with_fuel(pow256, 8);
    if a < b {
        lemma_pow256_mono(a, (b - 1) as nat);
    }
}

} // verus!
