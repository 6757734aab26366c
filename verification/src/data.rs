//! Column types and the values that rows are made of.
//!
//! A floating-point value is held as its IEEE-754 bit pattern.

use vstd::prelude::*;
use vstd::utf8::*;

use crate::bytes::{compare_bytes, int_order, lex, Order};
use crate::valuelaws::{below, comparable, lemma_order_means};

verus! {

/// The type of a column.
#[derive(Clone, Copy, Debug, PartialEq, Eq, Structural)]
pub enum DataType {
    Int32,
    Int64,
    Float32,
    Float64,
    String,
}

impl DeepView for DataType {
    type V = DataType;

    open spec fn deep_view(&self) -> DataType {
        *self
    }
}

/// One value of a row. The two float variants hold bit patterns.
#[derive(Debug)]
pub enum Data {
    Int32(i32),
    Int64(i64),
    Float32(u32),
    Float64(u64),
    String(String),
}

/// The value that a [`Data`] stands for.
#[verifier::ext_equal]
pub enum Value {
    Int32(i32),
    Int64(i64),
    Float32(u32),
    Float64(u64),
    Text(Seq<char>),
}

impl DeepView for Data {
    type V = Value;

    open spec fn deep_view(&self) -> Value {
        match self {
            Data::Int32(v) => Value::Int32(*v),
            Data::Int64(v) => Value::Int64(*v),
            Data::Float32(v) => Value::Float32(*v),
            Data::Float64(v) => Value::Float64(*v),
            Data::String(s) => Value::Text(s@),
        }
    }
}

impl Clone for Data {
    fn clone(&self) -> (r: Data)
        ensures
            r.deep_view() == self.deep_view(),
    {
        match self {
            Data::Int32(v) => Data::Int32(*v),
            Data::Int64(v) => Data::Int64(*v),
            Data::Float32(v) => Data::Float32(*v),
            Data::Float64(v) => Data::Float64(*v),
            Data::String(s) => Data::String(s.clone()),
        }
    }
}

impl Value {
    /// The column type that the value belongs to.
    pub open spec fn kind(self) -> DataType {
        match self {
            Value::Int32(_) => DataType::Int32,
            Value::Int64(_) => DataType::Int64,
            Value::Float32(_) => DataType::Float32,
            Value::Float64(_) => DataType::Float64,
            Value::Text(_) => DataType::String,
        }
    }

    /// Text that a terminating zero byte can delimit.
    pub open spec fn storable(self) -> bool {
        self matches Value::Text(s) ==> !encode_utf8(s).contains(0u8)
    }
}

// ── Floating-point order on bit patterns ─────────────────────────────────────

/// The bit pattern without its sign.
pub open spec fn magnitude32(bits: u32) -> int {
    if bits < 0x8000_0000 {
        bits as int
    } else {
        bits - 0x8000_0000
    }
}

pub open spec fn magnitude64(bits: u64) -> int {
    if bits < 0x8000_0000_0000_0000 {
        bits as int
    } else {
        bits - 0x8000_0000_0000_0000
    }
}

/// Not a number: the exponent is all ones and the fraction is not zero.
pub open spec fn is_nan32(bits: u32) -> bool {
    magnitude32(bits) > 0x7f80_0000
}

pub open spec fn is_nan64(bits: u64) -> bool {
    magnitude64(bits) > 0x7ff0_0000_0000_0000
}

/// The signed magnitude, by which floats other than NaN are ordered;
/// the two zeros have the same.
pub open spec fn rank32(bits: u32) -> int {
    if bits < 0x8000_0000 {
        bits as int
    } else {
        0x8000_0000 - bits
    }
}

pub open spec fn rank64(bits: u64) -> int {
    if bits < 0x8000_0000_0000_0000 {
        bits as int
    } else {
        0x8000_0000_0000_0000 - bits
    }
}

// ── Comparison of values ─────────────────────────────────────────────────────

/// The place of a type among the types.
pub open spec fn kind_rank(k: DataType) -> int {
    match k {
        DataType::Int32 => 0,
        DataType::Int64 => 1,
        DataType::Float32 => 2,
        DataType::Float64 => 3,
        DataType::String => 4,
    }
}

/// The order of two values: numbers by size, text by its UTF-8 bytes, values of
/// different types by the place of the type. A NaN has no order.
pub open spec fn value_order(a: Value, b: Value) -> Option<Order> {
    match (a, b) {
        (Value::Int32(x), Value::Int32(y)) => Some(int_order(x as int, y as int)),
        (Value::Int64(x), Value::Int64(y)) => Some(int_order(x as int, y as int)),
        (Value::Float32(x), Value::Float32(y)) => if is_nan32(x) || is_nan32(y) {
            None
        } else {
            Some(int_order(rank32(x), rank32(y)))
        },
        (Value::Float64(x), Value::Float64(y)) => if is_nan64(x) || is_nan64(y) {
            None
        } else {
            Some(int_order(rank64(x), rank64(y)))
        },
        (Value::Text(x), Value::Text(y)) => Some(lex(encode_utf8(x), encode_utf8(y))),
        _ => Some(int_order(kind_rank(a.kind()), kind_rank(b.kind()))),
    }
}

/// Whether two values are equal. A NaN equals nothing, and the two zeros are equal.
pub open spec fn value_equal(a: Value, b: Value) -> bool {
    value_order(a, b) == Some(Order::Equal)
}

/// The value of no kind of float that is not a number.
pub open spec fn is_nan(v: Value) -> bool {
    match v {
        Value::Float32(x) => is_nan32(x),
        Value::Float64(x) => is_nan64(x),
        _ => false,
    }
}

fn order_of_ints(a: i64, b: i64) -> (r: Order)
    ensures
        r == int_order(a as int, b as int),
{
    if a < b {
        Order::Less
    } else if a == b {
        Order::Equal
    } else {
        Order::Greater
    }
}

fn order_of_f32(x: u32, y: u32) -> (r: Option<Order>)
    ensures
        r == value_order(Value::Float32(x), Value::Float32(y)),
{
    let half: u32 = 0x8000_0000;
    let mx: u32 = if x < half { x } else { x - half };
    let my: u32 = if y < half { y } else { y - half };
    if mx > 0x7f80_0000 || my > 0x7f80_0000 {
        return None;
    }
    let rx: i64 = if x < half { mx as i64 } else { -(mx as i64) };
    let ry: i64 = if y < half { my as i64 } else { -(my as i64) };
    Some(order_of_ints(rx, ry))
}

fn order_of_f64(x: u64, y: u64) -> (r: Option<Order>)
    ensures
        r == value_order(Value::Float64(x), Value::Float64(y)),
{
    let half: u64 = 0x8000_0000_0000_0000;
    let mx: u64 = if x < half { x } else { x - half };
    let my: u64 = if y < half { y } else { y - half };
    if mx > 0x7ff0_0000_0000_0000 || my > 0x7ff0_0000_0000_0000 {
        return None;
    }
    let rx: i64 = if x < half { mx as i64 } else { -(mx as i64) };
    let ry: i64 = if y < half { my as i64 } else { -(my as i64) };
    Some(order_of_ints(rx, ry))
}

fn kind_place(k: DataType) -> (r: i64)
    ensures
        r == kind_rank(k),
{
    match k {
        DataType::Int32 => 0,
        DataType::Int64 => 1,
        DataType::Float32 => 2,
        DataType::Float64 => 3,
        DataType::String => 4,
    }
}

impl Data {
    /// The column type that the value belongs to.
    pub fn kind(&self) -> (r: DataType)
        ensures
            r == self.deep_view().kind(),
    {
        match self {
            Data::Int32(_) => DataType::Int32,
            Data::Int64(_) => DataType::Int64,
            Data::Float32(_) => DataType::Float32,
            Data::Float64(_) => DataType::Float64,
            Data::String(_) => DataType::String,
        }
    }

    /// The order of two values, where they have one.
    pub fn compare(&self, other: &Data) -> (r: Option<Order>)
        ensures
            r == value_order(self.deep_view(), other.deep_view()),
            ({
                let (a, b) = (self.deep_view(), other.deep_view());
                if comparable(a, b) {
                    r == Some(
                        if below(a, b) {
                            Order::Less
                        } else if below(b, a) {
                            Order::Greater
                        } else {
                            Order::Equal
                        },
                    )
                } else {
                    r is None
                }
            }),
    {
        proof {
            lemma_order_means(self.deep_view(), other.deep_view());
        }
        match (self, other) {
            (Data::Int32(x), Data::Int32(y)) => Some(order_of_ints(*x as i64, *y as i64)),
            (Data::Int64(x), Data::Int64(y)) => Some(order_of_ints(*x, *y)),
            (Data::Float32(x), Data::Float32(y)) => order_of_f32(*x, *y),
            (Data::Float64(x), Data::Float64(y)) => order_of_f64(*x, *y),
            (Data::String(x), Data::String(y)) => Some(
                compare_bytes(x.as_str().as_bytes(), y.as_str().as_bytes()),
            ),
            _ => Some(order_of_ints(kind_place(self.kind()), kind_place(other.kind()))),
        }
    }

    /// Whether two values are equal.
    pub fn equals(&self, other: &Data) -> (r: bool)
        ensures
            r == value_equal(self.deep_view(), other.deep_view()),
    {
        match self.compare(other) {
            Some(Order::Equal) => true,
            _ => false,
        }
    }
}

} // verus!
