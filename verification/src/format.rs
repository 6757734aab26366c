//! Rows as text.

use vstd::prelude::*;

use crate::data::{is_nan32, is_nan64, magnitude32, magnitude64, Data, Value};
use crate::formatlaws::{lemma_plain_text, lemma_row_text};
use crate::numberlaws::reads_as;
use crate::row::{Row, RowModel};
use crate::text::{decimal, push_decimal, push_signed, signed_decimal};

verus! {

/// Two to the power of `k`.
pub open spec fn two_to(k: nat) -> nat
    decreases k,
{
    if k == 0 {
        1
    } else {
        2 * two_to((k - 1) as nat)
    }
}

fn power_of_two(k: u64) -> (r: u64)
    requires
        k <= 52,
    ensures
        r == two_to(k as nat),
        0 < r <= 0x10_0000_0000_0000,
    decreases k,
{
    proof {
        lemma_two_to(k as nat);
    }
    if k == 0 {
        1
    } else {
        2 * power_of_two(k - 1)
    }
}

proof fn lemma_two_to(k: nat)
    requires
        k <= 52,
    ensures
        0 < two_to(k) <= 0x10_0000_0000_0000,
{
    lemma_two_to_monotone(k, 52);
    reveal_with_fuel(two_to, 60);
}

proof fn lemma_two_to_monotone(a: nat, b: nat)
    requires
        a <= b,
    ensures
        0 < two_to(a) <= two_to(b),
    decreases b,
{
    if a < b {
        lemma_two_to_monotone(a, (b - 1) as nat);
    } else if b > 0 {
        lemma_two_to_monotone((a - 1) as nat, (b - 1) as nat);
    }
}

/// A number divided by a power of two, where that is whole.
pub open spec fn halved(n: nat, times: nat) -> Option<nat> {
    if n % two_to(times) == 0 {
        Some(n / two_to(times))
    } else {
        None
    }
}

/// The size of a 32-bit float, by its bits without the sign, where it is a whole number
/// under the float that is nearest to 10^15, which has the bits 0x58635fa9.
pub open spec fn whole32(magnitude: nat) -> Option<nat> {
    let exponent = magnitude / 0x80_0000;
    let significand = 0x80_0000 + magnitude % 0x80_0000;
    if magnitude == 0 {
        Some(0)
    } else if exponent < 127 || magnitude >= 0x5863_5fa9 {
        None
    } else if exponent < 150 {
        halved(significand, (150 - exponent) as nat)
    } else {
        Some(significand * two_to((exponent - 150) as nat))
    }
}

/// The size of a 64-bit float, by its bits without the sign, where it is a whole number
/// under 10^15.
pub open spec fn whole64(magnitude: nat) -> Option<nat> {
    let exponent = magnitude / 0x10_0000_0000_0000;
    let significand = 0x10_0000_0000_0000 + magnitude % 0x10_0000_0000_0000;
    if magnitude == 0 {
        Some(0)
    } else if exponent < 1023 || exponent > 1075 {
        None
    } else {
        match halved(significand, (1075 - exponent) as nat) {
            Some(n) => if n < 1_000_000_000_000_000 {
                Some(n)
            } else {
                None
            },
            None => None,
        }
    }
}

/// The text of a float: whole numbers that are not too large end in ".0", and of the
/// others `shown` is the text.
pub open spec fn float_text(
    negative: bool,
    nan: bool,
    infinite: bool,
    whole: Option<nat>,
    shown: Seq<char>,
) -> Seq<char> {
    let sign = if negative {
        "-"@
    } else {
        ""@
    };
    if nan {
        "NaN"@
    } else if infinite {
        sign + "Inf"@
    } else {
        match whole {
            Some(n) => sign + decimal(n) + ".0"@,
            None => shown,
        }
    }
}

/// The text of a value. `shown` is the shortest decimal text of a float, and of use only
/// for one that is neither whole nor special.
pub open spec fn value_text(v: Value, shown: Seq<char>) -> Seq<char> {
    match v {
        Value::Int32(n) => signed_decimal(n as int),
        Value::Int64(n) => signed_decimal(n as int),
        Value::Float32(bits) => float_text(
            bits >= 0x8000_0000,
            is_nan32(bits),
            magnitude32(bits) == 0x7f80_0000,
            whole32(magnitude32(bits) as nat),
            shown,
        ),
        Value::Float64(bits) => float_text(
            bits >= 0x8000_0000_0000_0000,
            is_nan64(bits),
            magnitude64(bits) == 0x7ff0_0000_0000_0000,
            whole64(magnitude64(bits) as nat),
            shown,
        ),
        Value::Text(s) => s,
    }
}

/// The text of a row: that of each value, with a bar behind it.
pub open spec fn row_text(row: RowModel, shown: Seq<Seq<char>>) -> Seq<char>
    decreases row.len(),
{
    if row.len() == 0 {
        Seq::empty()
    } else {
        row_text(row.drop_last(), shown) + value_text(row.last(), shown[row.len() - 1]) + "|"@
    }
}

fn whole_f32(magnitude: u32) -> (r: Option<u64>)
    requires
        magnitude < 0x7f80_0000,
    ensures
        match r {
            Some(n) => whole32(magnitude as nat) == Some(n as nat),
            None => whole32(magnitude as nat) is None,
        },
{
    let exponent: u64 = (magnitude / 0x80_0000) as u64;
    let significand: u64 = 0x80_0000 + (magnitude % 0x80_0000) as u64;
    if magnitude == 0 {
        return Some(0);
    }
    if exponent < 127 || magnitude >= 0x5863_5fa9 {
        return None;
    }
    if exponent < 150 {
        let unit: u64 = power_of_two(150 - exponent);
        if significand % unit == 0 {
            Some(significand / unit)
        } else {
            None
        }
    } else {
        assert(exponent - 150 <= 26);
        let factor: u64 = power_of_two(exponent - 150);
        proof {
            lemma_two_to_monotone((exponent - 150) as nat, 26);
            reveal_with_fuel(two_to, 30);
            assert(significand * factor <= 0x100_0000 * 0x400_0000) by (nonlinear_arith)
                requires
                    0 <= significand <= 0x100_0000,
                    0 <= factor <= 0x400_0000,
            ;
        }
        Some(significand * factor)
    }
}

fn whole_f64(magnitude: u64) -> (r: Option<u64>)
    requires
        magnitude < 0x7ff0_0000_0000_0000,
    ensures
        match r {
            Some(n) => whole64(magnitude as nat) == Some(n as nat),
            None => whole64(magnitude as nat) is None,
        },
{
    let exponent: u64 = magnitude / 0x10_0000_0000_0000;
    let significand: u64 = 0x10_0000_0000_0000 + magnitude % 0x10_0000_0000_0000;
    if magnitude == 0 {
        return Some(0);
    }
    if exponent < 1023 || exponent > 1075 {
        return None;
    }
    let unit: u64 = power_of_two(1075 - exponent);
    if significand % unit == 0 && significand / unit < 1_000_000_000_000_000 {
        Some(significand / unit)
    } else {
        None
    }
}

/// Appends the text of a float.
fn push_float(
    out: &mut String,
    negative: bool,
    nan: bool,
    infinite: bool,
    whole: Option<u64>,
    shown: &String,
)
    ensures
        final(out)@ == old(out)@ + float_text(
            negative,
            nan,
            infinite,
            match whole {
                Some(n) => Some(n as nat),
                None => None,
            },
            shown@,
        ),
{
    let ghost before = out@;
    if nan {
        out.append("NaN");
        return ;
    }
    if whole.is_none() && !infinite {
        out.append(shown.as_str());
        return ;
    }
    if negative {
        out.append("-");
    } else {
        out.append("");
    }
    if infinite {
        out.append("Inf");
    } else {
        match whole {
            Some(n) => {
                push_decimal(out, n);
                out.append(".0");
            },
            None => {},
        }
    }
    proof {
        let sign = if negative {
            "-"@
        } else {
            ""@
        };
        if infinite {
            assert(out@ =~= before + (sign + "Inf"@));
        } else {
            assert(out@ =~= before + (sign + decimal(whole->0 as nat) + ".0"@));
        }
    }
}

/// Appends the text of a value.
fn push_value(out: &mut String, val: &Data, shown: &String)
    ensures
        final(out)@ == old(out)@ + value_text(val.deep_view(), shown@),
{
    match val {
        Data::Int32(n) => push_signed(out, *n as i64),
        Data::Int64(n) => push_signed(out, *n),
        Data::Float32(bits) => {
            let negative = *bits >= 0x8000_0000;
            let magnitude: u32 = if negative { *bits - 0x8000_0000 } else { *bits };
            let whole: Option<u64> = if magnitude < 0x7f80_0000 {
                whole_f32(magnitude)
            } else {
                None
            };
            push_float(
                out,
                negative,
                magnitude > 0x7f80_0000,
                magnitude == 0x7f80_0000,
                whole,
                shown,
            );
        },
        Data::Float64(bits) => {
            let negative = *bits >= 0x8000_0000_0000_0000;
            let magnitude: u64 = if negative { *bits - 0x8000_0000_0000_0000 } else { *bits };
            let whole: Option<u64> = if magnitude < 0x7ff0_0000_0000_0000 {
                whole_f64(magnitude)
            } else {
                None
            };
            push_float(
                out,
                negative,
                magnitude > 0x7ff0_0000_0000_0000,
                magnitude == 0x7ff0_0000_0000_0000,
                whole,
                shown,
            );
        },
        Data::String(s) => out.append(s.as_str()),
    }
}

/// The text of a value. `shown` is the shortest decimal text of a float.
pub fn format_value(val: &Data, shown: &String) -> (r: String)
    ensures
        r@ == value_text(val.deep_view(), shown@),
        match val {
            Data::Int32(n) => reads_as(r@, *n as int),
            Data::Int64(n) => reads_as(r@, *n as int),
            Data::String(s) => r@ == s@,
            _ => true,
        },
{
    proof {
        lemma_plain_text(val.deep_view(), shown@);
    }
    let mut out = String::new();
    push_value(&mut out, val, shown);
    proof {
        assert(out@ =~= value_text(val.deep_view(), shown@));
    }
    out
}

/// The text of a row, with a bar behind each value. `shown` holds a text for each value,
/// that of a float its shortest decimal text.
pub fn format_row(row: &Row, shown: &Vec<String>) -> (r: String)
    requires
        shown@.len() == row@.len(),
    ensures
        r@ == row_text(row.deep_view(), shown.deep_view()),
        r@ == Seq::new(
            row@.len(),
            |i: int| value_text(row@[i].deep_view(), shown@[i]@) + seq!['|'],
        ).flatten(),
{
    proof {
        lemma_row_text(row.deep_view(), shown.deep_view());
        assert(Seq::new(
            row@.len(),
            |i: int| value_text(row@[i].deep_view(), shown@[i]@) + seq!['|'],
        ) =~= Seq::new(
            row@.len(),
            |i: int| value_text(row.deep_view()[i], shown.deep_view()[i]) + seq!['|'],
        ));
    }
    let ghost all = row.deep_view();
    let ghost texts = shown.deep_view();
    let mut out = String::new();
    let mut i: usize = 0;
    proof {
        assert(all.take(0) =~= Seq::<Value>::empty());
        assert(out@ =~= Seq::<char>::empty());
    }
    while i < row.len()
        invariant
            i <= row.len(),
            shown@.len() == row@.len(),
            all == row.deep_view(),
            texts == shown.deep_view(),
            out@ == row_text(all.take(i as int), texts),
        decreases row.len() - i,
    {
        let ghost before = out@;
        push_value(&mut out, &row[i], &shown[i]);
        out.append("|");
        i += 1;
        proof {
            assert(all.take(i as int).drop_last() =~= all.take(i - 1));
            assert(all.take(i as int).last() == all[i - 1]);
            assert(texts[i - 1] == shown@[i - 1]@);
        }
    }
    proof {
        assert(all.take(i as int) =~= all);
    }
    out
}

} // verus!
