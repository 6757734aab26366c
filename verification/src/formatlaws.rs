//! What the text of values and rows says.

use vstd::arithmetic::power2::{lemma_pow2_adds, lemma_pow2_pos, lemma_pow2_strictly_increases,
    lemma_pow2_unfold, pow2};
use vstd::prelude::*;

use crate::data::{is_nan32, is_nan64, magnitude32, magnitude64, Value};
use crate::format::{halved, row_text, two_to, value_text, whole32, whole64};
use crate::numberlaws::{lemma_decimal_read, lemma_signed_read, number_read, plain_number, reads_as};
use crate::row::RowModel;
use crate::text::decimal;
use crate::valuelaws::{no_number, scaled, size32, size64};

verus! {

/// The text of a whole number or of a text: digits that read as the number, with a minus
/// sign exactly where it is negative, and the text itself.
pub proof fn lemma_plain_text(v: Value, shown: Seq<char>)
    ensures
        v matches Value::Int32(n) ==> reads_as(value_text(v, shown), n as int),
        v matches Value::Int64(n) ==> reads_as(value_text(v, shown), n as int),
        v matches Value::Text(s) ==> value_text(v, shown) == s,
{
    match v {
        Value::Int32(n) => lemma_signed_read(n as int),
        Value::Int64(n) => lemma_signed_read(n as int),
        _ => {},
    }
}

proof fn lemma_two_to_pow2(k: nat)
    ensures
        two_to(k) == pow2(k),
        pow2(k) > 0,
    decreases k,
{
    lemma_pow2_pos(k);
    if k > 0 {
        lemma_two_to_pow2((k - 1) as nat);
        lemma_pow2_unfold(k);
    } else {
        vstd::arithmetic::power2::lemma2_to64();
    }
}

/// A float is so many times one, where one is `pow2(bias)` units.
pub open spec fn is_whole(size: int, n: int, bias: nat) -> bool {
    size == n * pow2(bias)
}

proof fn lemma_halved(sig: nat, times: nat, n: int)
    requires
        sig > 0,
    ensures
        sig == n * pow2(times) <==> halved(sig, times) == Some(n as nat) && n >= 0,
{
    lemma_two_to_pow2(times);
    let p = pow2(times) as int;
    vstd::arithmetic::div_mod::lemma_fundamental_div_mod(sig as int, p);
    if sig == n * p {
        assert(n > 0) by (nonlinear_arith)
            requires
                n * p > 0,
                p > 0,
        ;
        vstd::arithmetic::div_mod::lemma_div_multiples_vanish(n, p);
        vstd::arithmetic::div_mod::lemma_mod_multiples_basic(n, p);
        assert(p * n == n * p) by (nonlinear_arith);
    } else if sig % two_to(times) == 0 {
        assert(sig as int == (sig as int / p) * p) by (nonlinear_arith)
            requires
                sig as int == p * (sig as int / p) + 0,
        ;
    }
}

/// With an exponent, a size is whole where its significand is a multiple of the steps that
/// the exponent is short of one.
proof fn lemma_scaled_whole(e: int, f: int, one: int, bias: nat, short: nat, n: int)
    requires
        e >= 1,
        0 <= f < one,
        e - 1 + short == bias,
    ensures
        is_whole(scaled(e, f, one), n, bias) <==> one + f == n * pow2(short),
{
    let q = pow2((e - 1) as nat) as int;
    let p = pow2(short) as int;
    lemma_pow2_pos((e - 1) as nat);
    lemma_pow2_adds((e - 1) as nat, short);
    assert(pow2(bias) == q * p);
    assert(((one + f) * q == n * (q * p)) <==> (one + f == n * p)) by (nonlinear_arith)
        requires
            q > 0,
    ;
}

proof fn lemma_scaled_long(e: int, f: int, one: int, bias: nat, long: nat, n: int)
    requires
        e >= 1,
        0 <= f < one,
        e - 1 == bias + long,
    ensures
        is_whole(scaled(e, f, one), n, bias) <==> n == (one + f) * pow2(long),
{
    let q = pow2(bias) as int;
    let p = pow2(long) as int;
    lemma_pow2_pos(bias);
    lemma_pow2_adds(bias, long);
    assert(pow2((e - 1) as nat) == q * p);
    assert(((one + f) * (q * p) == n * q) <==> (n == (one + f) * p)) by (nonlinear_arith)
        requires
            q > 0,
    ;
}

proof fn lemma_small_not_whole(x: int, n: int, k: nat)
    requires
        0 < x < pow2(k),
    ensures
        x != n * pow2(k),
{
    let p = pow2(k) as int;
    lemma_pow2_pos(k);
    if x == n * p {
        assert(false) by (nonlinear_arith)
            requires
                0 < n * p < p,
                p > 0,
        ;
    }
}

proof fn lemma_whole32(m: nat, n: int)
    requires
        m < 0x7f80_0000,
    ensures
        (is_whole(scaled(m as int / 0x80_0000, m as int % 0x80_0000, 0x80_0000), n, 149) && n
            < 999_999_986_991_104) <==> (whole32(m) == Some(n as nat) && n >= 0),
{
    let e = m as int / 0x80_0000;
    let f = m as int % 0x80_0000;
    let one = 0x80_0000int;
    vstd::arithmetic::power2::lemma2_to64();
    vstd::arithmetic::power2::lemma2_to64_rest();
    lemma_pow2_pos(149);
    if e == 0 {
        lemma_pow2_strictly_increases(23, 149);
        if f > 0 {
            lemma_small_not_whole(f, n, 149);
        } else {
            assert(0 == n * pow2(149) <==> n == 0) by (nonlinear_arith)
                requires
                    pow2(149) > 0,
            ;
        }
    } else if e < 150 {
        let short = (150 - e) as nat;
        lemma_scaled_whole(e, f, one, 149, short, n);
        lemma_halved((one + f) as nat, short, n);
        lemma_pow2_pos(short);
        if e < 127 {
            if short > 24 {
                lemma_pow2_strictly_increases(24, short);
            }
            lemma_small_not_whole(one + f, n, short);
        } else if one + f == n * pow2(short) {
            assert(n <= one + f) by (nonlinear_arith)
                requires
                    one + f == n * pow2(short),
                    one + f > 0,
                    pow2(short) >= 1,
            ;
        }
    } else {
        let long = (e - 150) as nat;
        lemma_scaled_long(e, f, one, 149, long, n);
        lemma_two_to_pow2(long);
        let p = pow2(long) as int;
        if long < 26 {
            lemma_pow2_strictly_increases(long, 26);
            assert(2 * p <= 0x400_0000) by {
                lemma_pow2_unfold(long + 1);
                if long + 1 < 26 {
                    lemma_pow2_strictly_increases(long + 1, 26);
                }
            }
            assert((one + f) * p <= 0xff_ffff * 0x200_0000) by (nonlinear_arith)
                requires
                    0 <= one + f <= 0xff_ffff,
                    0 <= p <= 0x200_0000,
            ;
        } else if long > 26 {
            lemma_pow2_strictly_increases(26, long);
            assert(p >= 0x800_0000) by {
                lemma_pow2_unfold(27);
                if long > 27 {
                    lemma_pow2_strictly_increases(27, long);
                }
            }
            assert((one + f) * p >= 0x80_0000 * 0x800_0000) by (nonlinear_arith)
                requires
                    one + f >= 0x80_0000,
                    p >= 0x800_0000,
            ;
        } else {
            assert((one + f) * p == 0x400_0000 * (one + f)) by (nonlinear_arith)
                requires
                    p == 0x400_0000,
            ;
        }
        assert((one + f) * p >= 0) by (nonlinear_arith)
            requires
                one + f >= 0,
                p >= 0,
        ;
    }
}

proof fn lemma_whole64(m: nat, n: int)
    requires
        m < 0x7ff0_0000_0000_0000,
    ensures
        (is_whole(
            scaled(
                m as int / 0x10_0000_0000_0000,
                m as int % 0x10_0000_0000_0000,
                0x10_0000_0000_0000,
            ),
            n,
            1074,
        ) && n < 1_000_000_000_000_000) <==> (whole64(m) == Some(n as nat) && n >= 0),
{
    let one = 0x10_0000_0000_0000int;
    let e = m as int / one;
    let f = m as int % one;
    vstd::arithmetic::power2::lemma2_to64();
    vstd::arithmetic::power2::lemma2_to64_rest();
    lemma_pow2_pos(1074);
    if e == 0 {
        lemma_pow2_strictly_increases(52, 1074);
        if f > 0 {
            lemma_small_not_whole(f, n, 1074);
        } else {
            assert(0 == n * pow2(1074) <==> n == 0) by (nonlinear_arith)
                requires
                    pow2(1074) > 0,
            ;
        }
    } else if e <= 1075 {
        let short = (1075 - e) as nat;
        lemma_scaled_whole(e, f, one, 1074, short, n);
        lemma_halved((one + f) as nat, short, n);
        lemma_pow2_pos(short);
        if e < 1023 {
            if short > 53 {
                lemma_pow2_strictly_increases(53, short);
            }
            lemma_small_not_whole(one + f, n, short);
        }
    } else {
        let long = (e - 1075) as nat;
        lemma_scaled_long(e, f, one, 1074, long, n);
        let p = pow2(long) as int;
        lemma_pow2_pos(long);
        assert((one + f) * p >= one) by (nonlinear_arith)
            requires
                one + f >= one,
                one > 0,
                p > 0,
        ;
    }
}

/// The text of a whole float: its digits and ".0", with a minus sign where the sign bit is
/// set.
pub open spec fn whole_text(text: Seq<char>, negative: bool, n: int) -> bool {
    exists|digits: Seq<char>|
        {
            &&& #[trigger] plain_number(digits)
            &&& number_read(digits) == n
            &&& text == (if negative {
                seq!['-'] + digits
            } else {
                digits
            }) + seq!['.', '0']
        }
}

proof fn lemma_whole_text(text: Seq<char>, negative: bool, n: nat)
    requires
        text == (if negative {
            "-"@
        } else {
            ""@
        }) + decimal(n) + ".0"@,
    ensures
        whole_text(text, negative, n as int),
{
    reveal_strlit("-");
    reveal_strlit("");
    reveal_strlit(".0");
    lemma_decimal_read(n);
    let digits = decimal(n);
    assert(text =~= (if negative {
        seq!['-'] + digits
    } else {
        digits
    }) + seq!['.', '0']);
}

/// The text of a number: where it is whole and below the limit its digits and ".0", and else
/// the one that was handed over.
pub open spec fn number_text(
    text: Seq<char>,
    negative: bool,
    size: int,
    bias: nat,
    limit: int,
    shown: Seq<char>,
) -> bool {
    ||| exists|n: int| #[trigger]
        is_whole(size, n, bias) && n < limit && whole_text(text, negative, n)
    ||| {
        &&& text == shown
        &&& forall|n: int| #[trigger] is_whole(size, n, bias) ==> n >= limit
    }
}

/// The text of a 32-bit float. What is not a number is "NaN", and what has no end is "Inf"
/// with its sign. A whole number below the float that is nearest to 10^15 is its digits and
/// ".0", and of any other float the text is the one that was handed over.
pub proof fn lemma_float32_text(bits: u32, shown: Seq<char>)
    ensures
        ({
            let text = value_text(Value::Float32(bits), shown);
            let negative = bits as int / 0x8000_0000 == 1;
            let highest = (bits as int / 0x80_0000) % 0x100 == 0xff;
            if no_number(Value::Float32(bits)) {
                text == seq!['N', 'a', 'N']
            } else if highest {
                text == (if negative {
                    seq!['-', 'I', 'n', 'f']
                } else {
                    seq!['I', 'n', 'f']
                })
            } else {
                number_text(text, negative, size32(bits), 149, 999_999_986_991_104, shown)
            }
        }),
{
    let text = value_text(Value::Float32(bits), shown);
    let m = magnitude32(bits);
    let (e, f) = (m / 0x80_0000, m % 0x80_0000);
    assert((bits as int / 0x80_0000) % 0x100 == e);
    assert(bits as int % 0x80_0000 == f);
    reveal_strlit("NaN");
    reveal_strlit("Inf");
    reveal_strlit("-");
    reveal_strlit("");
    if is_nan32(bits) {
        assert(text =~= seq!['N', 'a', 'N']);
    } else if m == 0x7f80_0000 {
        assert(text =~= (if bits >= 0x8000_0000 {
            seq!['-', 'I', 'n', 'f']
        } else {
            seq!['I', 'n', 'f']
        }));
    } else {
        assert(size32(bits) == scaled(e, f, 0x80_0000));
        match whole32(m as nat) {
            Some(n) => {
                lemma_whole32(m as nat, n as int);
                lemma_whole_text(text, bits >= 0x8000_0000, n);
                assert(is_whole(size32(bits), n as int, 149));
            },
            None => {
                assert forall|n: int| #[trigger] is_whole(size32(bits), n, 149) implies n
                    >= 999_999_986_991_104 by {
                    lemma_whole32(m as nat, n);
                }
            },
        }
    }
}

/// The text of a 64-bit float. What is not a number is "NaN", and what has no end is "Inf"
/// with its sign. A whole number below 10^15 is its digits and ".0", and of any other float
/// the text is the one that was handed over.
pub proof fn lemma_float64_text(bits: u64, shown: Seq<char>)
    ensures
        ({
            let text = value_text(Value::Float64(bits), shown);
            let negative = bits as int / 0x8000_0000_0000_0000 == 1;
            let highest = (bits as int / 0x10_0000_0000_0000) % 0x800 == 0x7ff;
            if no_number(Value::Float64(bits)) {
                text == seq!['N', 'a', 'N']
            } else if highest {
                text == (if negative {
                    seq!['-', 'I', 'n', 'f']
                } else {
                    seq!['I', 'n', 'f']
                })
            } else {
                number_text(text, negative, size64(bits), 1074, 1_000_000_000_000_000, shown)
            }
        }),
{
    let text = value_text(Value::Float64(bits), shown);
    let m = magnitude64(bits);
    let one = 0x10_0000_0000_0000int;
    let (e, f) = (m / one, m % one);
    assert((bits as int / one) % 0x800 == e);
    assert(bits as int % one == f);
    reveal_strlit("NaN");
    reveal_strlit("Inf");
    reveal_strlit("-");
    reveal_strlit("");
    if is_nan64(bits) {
        assert(text =~= seq!['N', 'a', 'N']);
    } else if m == 0x7ff0_0000_0000_0000 {
        assert(text =~= (if bits >= 0x8000_0000_0000_0000 {
            seq!['-', 'I', 'n', 'f']
        } else {
            seq!['I', 'n', 'f']
        }));
    } else {
        assert(size64(bits) == scaled(e, f, one));
        match whole64(m as nat) {
            Some(n) => {
                lemma_whole64(m as nat, n as int);
                lemma_whole_text(text, bits >= 0x8000_0000_0000_0000, n);
                assert(is_whole(size64(bits), n as int, 1074));
            },
            None => {
                assert forall|n: int| #[trigger] is_whole(size64(bits), n, 1074) implies n
                    >= 1_000_000_000_000_000 by {
                    lemma_whole64(m as nat, n);
                }
            },
        }
    }
}

/// The text of a row is those of its values one after the other, with a bar behind each.
pub proof fn lemma_row_text(row: RowModel, shown: Seq<Seq<char>>)
    requires
        row.len() == shown.len(),
    ensures
        row_text(row, shown) == Seq::new(
            row.len(),
            |i: int| value_text(row[i], shown[i]) + seq!['|'],
        ).flatten(),
    decreases row.len(),
{
    let texts = Seq::new(row.len(), |i: int| value_text(row[i], shown[i]) + seq!['|']);
    reveal_strlit("|");
    assert("|"@ =~= seq!['|']);
    if row.len() > 0 {
        let (r, w) = (row.drop_last(), shown.drop_last());
        let front = Seq::new(r.len(), |i: int| value_text(r[i], w[i]) + seq!['|']);
        lemma_row_text(r, w);
        lemma_shown_front(r, shown, w);
        assert(texts =~= front.push(texts.last()));
        front.lemma_flatten_push(texts.last());
        assert(row_text(row, shown) =~= texts.flatten());
    } else {
        assert(texts =~= Seq::<Seq<char>>::empty());
        assert(row_text(row, shown) =~= texts.flatten());
    }
}

proof fn lemma_shown_front(row: RowModel, a: Seq<Seq<char>>, b: Seq<Seq<char>>)
    requires
        row.len() <= a.len(),
        row.len() <= b.len(),
        forall|i: int| 0 <= i < row.len() ==> a[i] == #[trigger] b[i],
    ensures
        row_text(row, a) == row_text(row, b),
    decreases row.len(),
{
    if row.len() > 0 {
        lemma_shown_front(row.drop_last(), a, b);
        assert(a[row.len() - 1] == b[row.len() - 1]);
    }
}

} // verus!
