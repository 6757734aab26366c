//! What the order and the text of values mean.

use vstd::arithmetic::power2::{lemma_pow2_pos, lemma_pow2_unfold, pow2};
use vstd::prelude::*;
use vstd::utf8::*;

use crate::bytes::Order;
use crate::data::{is_nan, magnitude32, magnitude64, rank32, rank64, value_equal, value_order,
    Value};
use crate::numberlaws::{bytes_below, lemma_lex_means};

verus! {

// ── What the bits of a float stand for ───────────────────────────────────────

/// The size of a number with the given exponent and fraction, in units of the least there
/// is: without an exponent it is the fraction, and else `one` more than the fraction, doubled
/// for every step of the exponent behind the first.
pub open spec fn scaled(exponent: int, fraction: int, one: int) -> int {
    if exponent == 0 {
        fraction
    } else {
        (one + fraction) * pow2((exponent - 1) as nat)
    }
}

/// The size of a 32-bit float, in units of the least above zero.
pub open spec fn size32(bits: u32) -> int {
    scaled((bits as int / 0x80_0000) % 0x100, bits as int % 0x80_0000, 0x80_0000)
}

/// The size of a 64-bit float, in units of the least above zero.
pub open spec fn size64(bits: u64) -> int {
    scaled(
        (bits as int / 0x10_0000_0000_0000) % 0x800,
        bits as int % 0x10_0000_0000_0000,
        0x10_0000_0000_0000,
    )
}

/// What the bits of a 32-bit float stand for, in units of the least above zero.
pub open spec fn real32(bits: u32) -> int {
    if bits as int / 0x8000_0000 == 1 {
        -size32(bits)
    } else {
        size32(bits)
    }
}

/// What the bits of a 64-bit float stand for, in units of the least above zero.
pub open spec fn real64(bits: u64) -> int {
    if bits as int / 0x8000_0000_0000_0000 == 1 {
        -size64(bits)
    } else {
        size64(bits)
    }
}

/// The value is not a number: its exponent is the highest, and its fraction is not zero.
pub open spec fn no_number(v: Value) -> bool {
    match v {
        Value::Float32(bits) => (bits as int / 0x80_0000) % 0x100 == 0xff && bits as int % 0x80_0000
            != 0,
        Value::Float64(bits) => (bits as int / 0x10_0000_0000_0000) % 0x800 == 0x7ff && bits as int
            % 0x10_0000_0000_0000 != 0,
        _ => false,
    }
}

proof fn lemma_scaled_grows(e: int, f: int, e2: int, f2: int, one: int)
    requires
        0 <= e,
        0 <= f < one,
        0 <= f2 < one,
        e < e2 || (e == e2 && f < f2),
    ensures
        0 <= scaled(e, f, one) < scaled(e2, f2, one),
{
    if e == e2 {
        if e > 0 {
            let p = pow2((e - 1) as nat) as int;
            lemma_pow2_pos((e - 1) as nat);
            assert(0 <= (one + f) * p < (one + f2) * p) by (nonlinear_arith)
                requires
                    0 <= f < f2,
                    0 < one,
                    p > 0,
            ;
        }
    } else {
        let p = pow2((e2 - 1) as nat) as int;
        lemma_pow2_pos((e2 - 1) as nat);
        assert((one + f2) * p >= one * p) by (nonlinear_arith)
            requires
                0 <= f2,
                p > 0,
        ;
        assert(one * p >= one) by (nonlinear_arith)
            requires
                p > 0,
                one > 0,
        ;
        if e > 0 {
            let q = pow2((e - 1) as nat) as int;
            lemma_pow2_pos((e - 1) as nat);
            lemma_pow2_unfold(e as nat);
            if (e2 - 1) as nat > e as nat {
                vstd::arithmetic::power2::lemma_pow2_strictly_increases(e as nat, (e2 - 1) as nat);
            }
            assert(p >= 2 * q);
            assert(0 <= (one + f) * q < one * p) by (nonlinear_arith)
                requires
                    0 <= f < one,
                    q > 0,
                    p >= 2 * q,
            ;
        }
    }
}

proof fn lemma_real32_grows(x: u32, y: u32)
    requires
        rank32(x) < rank32(y),
    ensures
        real32(x) < real32(y),
{
    let (a, b) = (magnitude32(x), magnitude32(y));
    lemma_real32_parts(x);
    lemma_real32_parts(y);
    let (ea, fa) = (a / 0x80_0000, a % 0x80_0000);
    let (eb, fb) = (b / 0x80_0000, b % 0x80_0000);
    if a < b {
        lemma_scaled_grows(ea, fa, eb, fb, 0x80_0000);
    } else if b < a {
        lemma_scaled_grows(eb, fb, ea, fa, 0x80_0000);
    } else if a > 0 {
        lemma_scaled_grows(0, 0, ea, fa, 0x80_0000);
    }
}

proof fn lemma_real32_parts(x: u32)
    ensures
        ({
            let m = magnitude32(x);
            let size = scaled(m / 0x80_0000, m % 0x80_0000, 0x80_0000);
            &&& 0 <= m < 0x8000_0000
            &&& size >= 0
            &&& real32(x) == if x >= 0x8000_0000 {
                -size
            } else {
                size
            }
        }),
{
    let m = magnitude32(x);
    let (e, f) = (m / 0x80_0000, m % 0x80_0000);
    assert((x as int / 0x80_0000) % 0x100 == e);
    assert(x as int % 0x80_0000 == f);
    if m > 0 {
        lemma_scaled_grows(0, 0, e, f, 0x80_0000);
    }
}

proof fn lemma_real64_grows(x: u64, y: u64)
    requires
        rank64(x) < rank64(y),
    ensures
        real64(x) < real64(y),
{
    let (a, b) = (magnitude64(x), magnitude64(y));
    let one = 0x10_0000_0000_0000int;
    lemma_real64_parts(x);
    lemma_real64_parts(y);
    let (ea, fa) = (a / one, a % one);
    let (eb, fb) = (b / one, b % one);
    if a < b {
        lemma_scaled_grows(ea, fa, eb, fb, one);
    } else if b < a {
        lemma_scaled_grows(eb, fb, ea, fa, one);
    } else if a > 0 {
        lemma_scaled_grows(0, 0, ea, fa, one);
    }
}

proof fn lemma_real64_parts(x: u64)
    ensures
        ({
            let m = magnitude64(x);
            let one = 0x10_0000_0000_0000int;
            let size = scaled(m / one, m % one, one);
            &&& 0 <= m < 0x8000_0000_0000_0000
            &&& size >= 0
            &&& real64(x) == if x >= 0x8000_0000_0000_0000 {
                -size
            } else {
                size
            }
        }),
{
    let m = magnitude64(x);
    let one = 0x10_0000_0000_0000int;
    let (e, f) = (m / one, m % one);
    assert((x as int / one) % 0x800 == e);
    assert(x as int % one == f);
    if m > 0 {
        lemma_scaled_grows(0, 0, e, f, one);
    }
}

// ── Order ────────────────────────────────────────────────────────────────────

/// The place of the type of a value among the types.
pub open spec fn type_place(v: Value) -> int {
    match v {
        Value::Int32(_) => 1,
        Value::Int64(_) => 2,
        Value::Float32(_) => 3,
        Value::Float64(_) => 4,
        Value::Text(_) => 5,
    }
}

/// One value is below another: a lower number, a text whose UTF-8 bytes come first, or a
/// value of an earlier type.
pub open spec fn below(a: Value, b: Value) -> bool {
    match (a, b) {
        (Value::Int32(x), Value::Int32(y)) => x < y,
        (Value::Int64(x), Value::Int64(y)) => x < y,
        (Value::Float32(x), Value::Float32(y)) => real32(x) < real32(y),
        (Value::Float64(x), Value::Float64(y)) => real64(x) < real64(y),
        (Value::Text(x), Value::Text(y)) => bytes_below(encode_utf8(x), encode_utf8(y)),
        _ => type_place(a) < type_place(b),
    }
}

/// Two values can be compared: they are not two floats of one type of which one is not a
/// number.
pub open spec fn comparable(a: Value, b: Value) -> bool {
    type_place(a) == type_place(b) ==> !no_number(a) && !no_number(b)
}

/// Values are ordered as the numbers and texts that they stand for. Where one is not a
/// number, two floats have no order.
pub proof fn lemma_order_means(a: Value, b: Value)
    ensures
        value_order(a, b) is Some <==> comparable(a, b),
        comparable(a, b) ==> {
            &&& value_order(a, b) == Some(Order::Less) <==> below(a, b)
            &&& value_order(a, b) == Some(Order::Greater) <==> below(b, a)
            &&& value_order(a, b) == Some(Order::Equal) <==> !below(a, b) && !below(b, a)
            &&& !(below(a, b) && below(b, a))
        },
        is_nan(a) <==> no_number(a),
        is_nan(b) <==> no_number(b),
{
    lemma_nan_means(a);
    lemma_nan_means(b);
    match (a, b) {
        (Value::Float32(x), Value::Float32(y)) => {
            if rank32(x) < rank32(y) {
                lemma_real32_grows(x, y);
            } else if rank32(y) < rank32(x) {
                lemma_real32_grows(y, x);
            } else {
                lemma_real32_parts(x);
                lemma_real32_parts(y);
                assert(magnitude32(x) == magnitude32(y));
            }
        },
        (Value::Float64(x), Value::Float64(y)) => {
            if rank64(x) < rank64(y) {
                lemma_real64_grows(x, y);
            } else if rank64(y) < rank64(x) {
                lemma_real64_grows(y, x);
            } else {
                lemma_real64_parts(x);
                lemma_real64_parts(y);
                assert(magnitude64(x) == magnitude64(y));
            }
        },
        (Value::Text(x), Value::Text(y)) => {
            lemma_lex_means(encode_utf8(x), encode_utf8(y));
        },
        _ => {},
    }
}

proof fn lemma_nan_means(v: Value)
    ensures
        is_nan(v) <==> no_number(v),
{
    match v {
        Value::Float32(x) => {
            let m = magnitude32(x);
            assert((x as int / 0x80_0000) % 0x100 == m / 0x80_0000);
            assert(x as int % 0x80_0000 == m % 0x80_0000);
        },
        Value::Float64(x) => {
            let m = magnitude64(x);
            assert((x as int / 0x10_0000_0000_0000) % 0x800 == m / 0x10_0000_0000_0000);
            assert(x as int % 0x10_0000_0000_0000 == m % 0x10_0000_0000_0000);
        },
        _ => {},
    }
}

/// Whole numbers are equal where they are the same, and texts where they have the same
/// characters.
pub proof fn lemma_equal_means(a: Value, b: Value)
    requires
        type_place(a) == type_place(b),
        !(a is Float32),
        !(a is Float64),
    ensures
        value_equal(a, b) <==> a == b,
{
    broadcast use encode_utf8_decode_utf8;

    if let (Value::Text(x), Value::Text(y)) = (a, b) {
        lemma_lex_means(encode_utf8(x), encode_utf8(y));
        assert(decode_utf8(encode_utf8(x)) == x);
        assert(decode_utf8(encode_utf8(y)) == y);
    }
}

} // verus!
