//! Rows, schemas, and the byte form of a row.

use vstd::prelude::*;
use vstd::utf8::*;

use crate::bytes::{le_bytes, le_number, lemma_le_number_bound, lemma_le_round_trip, lemma_pow256,
    push_le, read_le};
use crate::data::{Data, DataType, Value};
use crate::querylaws::{has_column, lemma_column_found, names};
use crate::rowlaws::{lemma_row_found, lemma_row_read, lemma_value_read, lemma_value_written,
    of_type, row_stands, spells, stands_for};

verus! {

/// A single row: one value per column, in schema order.
pub type Row = Vec<Data>;

/// The schema of a relation: name and type of each column, in column order.
pub type Schema = Vec<(String, DataType)>;

/// What a row holds.
pub type RowModel = Seq<Value>;

/// What a schema says.
pub type SchemaModel = Seq<(Seq<char>, DataType)>;

/// The row has a value of the right type for each column, and its text can be stored.
pub open spec fn conforms(row: RowModel, schema: SchemaModel) -> bool {
    &&& row.len() == schema.len()
    &&& forall|i: int|
        0 <= i < row.len() ==> (#[trigger] row[i]).kind() == schema[i].1 && row[i].storable()
}

pub open spec fn all_conform(rows: Seq<RowModel>, schema: SchemaModel) -> bool {
    forall|i: int| 0 <= i < rows.len() ==> conforms(#[trigger] rows[i], schema)
}

/// A copy of a row.
pub fn clone_row(row: &Row) -> (r: Row)
    ensures
        r.deep_view() == row.deep_view(),
{
    let mut out: Row = Vec::new();
    let mut i: usize = 0;
    while i < row.len()
        invariant
            i <= row.len(),
            out.deep_view() == row.deep_view().take(i as int),
        decreases row.len() - i,
    {
        let v = row[i].clone();
        let ghost before = out.deep_view();
        out.push(v);
        i += 1;
        proof {
            assert(out.deep_view() =~= before.push(v.deep_view()));
            assert(out.deep_view() =~= row.deep_view().take(i as int));
        }
    }
    proof {
        assert(row.deep_view().take(i as int) =~= row.deep_view());
    }
    out
}

/// The two rows side by side.
pub fn join_rows(left: &Row, right: &Row) -> (r: Row)
    ensures
        r.deep_view() == left.deep_view() + right.deep_view(),
{
    let mut out = clone_row(left);
    let mut i: usize = 0;
    proof {
        assert(out.deep_view() =~= left.deep_view() + right.deep_view().take(0));
    }
    while i < right.len()
        invariant
            i <= right.len(),
            out.deep_view() == left.deep_view() + right.deep_view().take(i as int),
        decreases right.len() - i,
    {
        let v = right[i].clone();
        let ghost before = out.deep_view();
        out.push(v);
        i += 1;
        proof {
            assert(out.deep_view() =~= before.push(v.deep_view()));
            assert(out.deep_view() =~= left.deep_view() + right.deep_view().take(i as int));
        }
    }
    proof {
        assert(right.deep_view().take(i as int) =~= right.deep_view());
    }
    out
}

/// A copy of a schema.
pub fn clone_schema(schema: &Schema) -> (r: Schema)
    ensures
        r.deep_view() == schema.deep_view(),
{
    let mut out: Schema = Vec::new();
    extend_schema(&mut out, schema);
    proof {
        assert(out.deep_view() =~= schema.deep_view());
    }
    out
}

/// Appends the columns of `more`.
pub fn extend_schema(out: &mut Schema, more: &Schema)
    ensures
        final(out).deep_view() == old(out).deep_view() + more.deep_view(),
{
    let ghost before = out.deep_view();
    let mut i: usize = 0;
    proof {
        assert(out.deep_view() =~= before + more.deep_view().take(0));
    }
    while i < more.len()
        invariant
            i <= more.len(),
            out.deep_view() == before + more.deep_view().take(i as int),
        decreases more.len() - i,
    {
        let name = more[i].0.clone();
        let kind = more[i].1;
        let ghost sofar = out.deep_view();
        out.push((name, kind));
        i += 1;
        proof {
            assert(out.deep_view() =~= sofar.push((name@, kind)));
            assert(out.deep_view() =~= before + more.deep_view().take(i as int));
        }
    }
    proof {
        assert(more.deep_view().take(i as int) =~= more.deep_view());
    }
}

/// The place of the first column of that name.
pub open spec fn column_of(schema: SchemaModel, name: Seq<char>) -> Option<int>
    decreases schema.len(),
{
    if schema.len() == 0 {
        None
    } else {
        match column_of(schema.drop_last(), name) {
            Some(i) => Some(i),
            None => if schema.last().0 == name {
                Some(schema.len() - 1)
            } else {
                None
            },
        }
    }
}

/// A column that is found lies in the schema, has the name, and none before it has.
/// None is found only where no column has the name.
pub proof fn lemma_column_of(schema: SchemaModel, name: Seq<char>)
    ensures
        match column_of(schema, name) {
            Some(i) => {
                &&& 0 <= i < schema.len()
                &&& schema[i].0 == name
                &&& forall|j: int| 0 <= j < i ==> (#[trigger] schema[j]).0 != name
            },
            None => forall|j: int| 0 <= j < schema.len() ==> (#[trigger] schema[j]).0 != name,
        },
    decreases schema.len(),
{
    if schema.len() > 0 {
        let rest = schema.drop_last();
        lemma_column_of(rest, name);
        assert forall|j: int| 0 <= j < rest.len() implies #[trigger] schema[j] == rest[j] by {}
    }
}

/// The place of the first column of that name, if there is one.
pub fn find_column(schema: &Schema, name: &String) -> (r: Option<usize>)
    ensures
        match r {
            Some(i) => {
                &&& column_of(schema.deep_view(), name@) == Some(i as int)
                &&& i < schema.len()
                &&& names(schema.deep_view(), name@, i as int)
            },
            None => {
                &&& column_of(schema.deep_view(), name@) is None
                &&& !has_column(schema.deep_view(), name@)
            },
        },
{
    let mut i: usize = 0;
    proof {
        lemma_column_of(schema.deep_view(), name@);
        lemma_column_found(schema.deep_view(), name@);
    }
    while i < schema.len()
        invariant
            i <= schema.len(),
            forall|j: int| 0 <= j < i ==> (#[trigger] schema.deep_view()[j]).0 != name@,
            match column_of(schema.deep_view(), name@) {
                Some(k) => {
                    &&& 0 <= k < schema.len()
                    &&& schema.deep_view()[k].0 == name@
                    &&& forall|j: int|
                        0 <= j < k ==> (#[trigger] schema.deep_view()[j]).0 != name@
                },
                None => forall|j: int|
                    0 <= j < schema.len() ==> (#[trigger] schema.deep_view()[j]).0 != name@,
            },
        decreases schema.len() - i,
    {
        assert(schema.deep_view()[i as int].0 == schema[i as int].0@);
        if schema[i].0 == *name {
            return Some(i);
        }
        i += 1;
    }
    None
}

// ── Bytes of a value ─────────────────────────────────────────────────────────

/// The 32 bits of a signed number, read without a sign.
pub open spec fn unsigned32(v: i32) -> nat {
    if v >= 0 {
        v as nat
    } else {
        (v + 0x1_0000_0000) as nat
    }
}

pub open spec fn unsigned64(v: i64) -> nat {
    if v >= 0 {
        v as nat
    } else {
        (v + 0x1_0000_0000_0000_0000) as nat
    }
}

/// The signed number with those 32 bits.
pub open spec fn signed32(n: nat) -> i32 {
    if n < 0x8000_0000 {
        n as i32
    } else {
        (n - 0x1_0000_0000) as i32
    }
}

pub open spec fn signed64(n: nat) -> i64 {
    if n < 0x8000_0000_0000_0000 {
        n as i64
    } else {
        (n - 0x1_0000_0000_0000_0000) as i64
    }
}

/// The bytes of a value: numbers lowest byte first, text in UTF-8 with a zero byte
/// after it.
pub open spec fn value_bytes(v: Value) -> Seq<u8> {
    match v {
        Value::Int32(x) => le_bytes(unsigned32(x), 4),
        Value::Int64(x) => le_bytes(unsigned64(x), 8),
        Value::Float32(x) => le_bytes(x as nat, 4),
        Value::Float64(x) => le_bytes(x as nat, 8),
        Value::Text(s) => encode_utf8(s).push(0u8),
    }
}

/// The bytes of a row: its values one after the other.
pub open spec fn row_bytes(row: RowModel) -> Seq<u8>
    decreases row.len(),
{
    if row.len() == 0 {
        Seq::empty()
    } else {
        row_bytes(row.drop_last()) + value_bytes(row.last())
    }
}

/// The place of the first zero byte.
pub open spec fn first_zero(data: Seq<u8>) -> Option<nat>
    decreases data.len(),
{
    if data.len() == 0 {
        None
    } else if data[0] == 0 {
        Some(0)
    } else {
        match first_zero(data.drop_first()) {
            Some(n) => Some(n + 1),
            None => None,
        }
    }
}

/// The value of the given type at the front of `data` and how many bytes it takes;
/// nothing where `data` is too short, text is not ended by a zero byte, or is not UTF-8.
pub open spec fn value_at(data: Seq<u8>, kind: DataType) -> Option<(Value, nat)> {
    match kind {
        DataType::Int32 => if data.len() >= 4 {
            Some((Value::Int32(signed32(le_number(data.take(4)))), 4))
        } else {
            None
        },
        DataType::Int64 => if data.len() >= 8 {
            Some((Value::Int64(signed64(le_number(data.take(8)))), 8))
        } else {
            None
        },
        DataType::Float32 => if data.len() >= 4 {
            Some((Value::Float32(le_number(data.take(4)) as u32), 4))
        } else {
            None
        },
        DataType::Float64 => if data.len() >= 8 {
            Some((Value::Float64(le_number(data.take(8)) as u64), 8))
        } else {
            None
        },
        DataType::String => match first_zero(data) {
            Some(n) => if valid_utf8(data.take(n as int)) {
                Some((Value::Text(decode_utf8(data.take(n as int))), n + 1))
            } else {
                None
            },
            None => None,
        },
    }
}

/// The first `n` columns at the front of `data` and how many bytes they take.
pub open spec fn columns_at(data: Seq<u8>, schema: SchemaModel, n: nat) -> Option<(RowModel, nat)>
    decreases n,
{
    if n == 0 {
        Some((Seq::empty(), 0))
    } else {
        match columns_at(data, schema, (n - 1) as nat) {
            Some((row, used)) => match value_at(data.skip(used as int), schema[n - 1].1) {
                Some((v, more)) => Some((row.push(v), used + more)),
                None => None,
            },
            None => None,
        }
    }
}

/// The row at the front of `data` and how many bytes it takes.
pub open spec fn row_at(data: Seq<u8>, schema: SchemaModel) -> Option<(RowModel, nat)> {
    columns_at(data, schema, schema.len())
}

// ── Reading back what was written ────────────────────────────────────────────

pub proof fn lemma_first_zero(data: Seq<u8>)
    ensures
        match first_zero(data) {
            Some(n) => {
                &&& n < data.len()
                &&& data[n as int] == 0
                &&& forall|j: int| 0 <= j < n ==> #[trigger] data[j] != 0
            },
            None => forall|j: int| 0 <= j < data.len() ==> #[trigger] data[j] != 0,
        },
    decreases data.len(),
{
    if data.len() > 0 && data[0] != 0 {
        let rest = data.drop_first();
        lemma_first_zero(rest);
        assert forall|j: int| 0 < j < data.len() implies #[trigger] data[j] == rest[j - 1] by {}
    }
}

pub proof fn lemma_first_zero_is(data: Seq<u8>, n: nat)
    requires
        n < data.len(),
        data[n as int] == 0,
        forall|j: int| 0 <= j < n ==> #[trigger] data[j] != 0,
    ensures
        first_zero(data) == Some(n),
{
    lemma_first_zero(data);
}

/// A value that a column of its type can store is read back from its bytes,
/// whatever follows them.
pub proof fn lemma_value_round_trip(v: Value, rest: Seq<u8>)
    requires
        v.storable(),
    ensures
        value_at(value_bytes(v) + rest, v.kind()) == Some((v, value_bytes(v).len())),
        value_bytes(v).len() > 0,
{
    broadcast use {encode_utf8_valid_utf8, encode_utf8_decode_utf8};

    lemma_pow256();
    let data = value_bytes(v) + rest;
    match v {
        Value::Int32(x) => {
            lemma_le_round_trip(unsigned32(x), 4);
            assert(data.take(4) =~= value_bytes(v));
        },
        Value::Int64(x) => {
            lemma_le_round_trip(unsigned64(x), 8);
            assert(data.take(8) =~= value_bytes(v));
        },
        Value::Float32(x) => {
            lemma_le_round_trip(x as nat, 4);
            assert(data.take(4) =~= value_bytes(v));
        },
        Value::Float64(x) => {
            lemma_le_round_trip(x as nat, 8);
            assert(data.take(8) =~= value_bytes(v));
        },
        Value::Text(s) => {
            let u = encode_utf8(s);
            assert forall|j: int| 0 <= j < u.len() implies #[trigger] data[j] != 0 by {
                assert(data[j] == u[j]);
                assert(u.contains(u[j]));
            }
            assert(data[u.len() as int] == 0);
            lemma_first_zero_is(data, u.len());
            assert(data.take(u.len() as int) =~= u);
        },
    }
}

pub proof fn lemma_row_bytes_split(row: RowModel, n: int)
    requires
        0 <= n <= row.len(),
    ensures
        row_bytes(row) == row_bytes(row.take(n)) + row_bytes(row.skip(n)),
    decreases row.len(),
{
    if n == row.len() {
        assert(row.take(n) =~= row);
        assert(row_bytes(row.skip(n)) =~= Seq::<u8>::empty());
        assert(row_bytes(row) =~= row_bytes(row.take(n)) + row_bytes(row.skip(n)));
    } else {
        lemma_row_bytes_split(row.drop_last(), n);
        assert(row.drop_last().take(n) =~= row.take(n));
        assert(row.skip(n).drop_last() =~= row.drop_last().skip(n));
        assert(row_bytes(row) =~= row_bytes(row.take(n)) + row_bytes(row.skip(n)));
    }
}

proof fn lemma_columns_round_trip(row: RowModel, schema: SchemaModel, rest: Seq<u8>, n: nat)
    requires
        conforms(row, schema),
        n <= row.len(),
    ensures
        columns_at(row_bytes(row) + rest, schema, n) == Some(
            (row.take(n as int), row_bytes(row.take(n as int)).len()),
        ),
    decreases n,
{
    if n == 0 {
        assert(row.take(0) =~= Seq::<Value>::empty());
    } else {
        let k = (n - 1) as nat;
        lemma_columns_round_trip(row, schema, rest, k);
        let front = row_bytes(row.take(k as int));
        let v = row[k as int];
        let tail = row_bytes(row.skip(n as int));
        assert(row.take(n as int).drop_last() =~= row.take(k as int));
        assert(row.take(n as int) =~= row.take(k as int).push(v));
        lemma_row_bytes_split(row, n as int);
        assert((row_bytes(row) + rest).skip(front.len() as int) =~= value_bytes(v) + (tail + rest));
        lemma_value_round_trip(v, tail + rest);
    }
}

/// A row that conforms to its schema is read back from its bytes, whatever follows them.
pub proof fn lemma_row_round_trip(row: RowModel, schema: SchemaModel, rest: Seq<u8>)
    requires
        conforms(row, schema),
    ensures
        row_at(row_bytes(row) + rest, schema) == Some((row, row_bytes(row).len())),
{
    lemma_columns_round_trip(row, schema, rest, row.len());
    assert(row.take(row.len() as int) =~= row);
}

proof fn lemma_value_at_conforms(data: Seq<u8>, kind: DataType)
    ensures
        value_at(data, kind) matches Some((v, used)) ==> {
            &&& v.kind() == kind
            &&& v.storable()
            &&& 0 < used <= data.len()
        },
{
    broadcast use {decode_utf8_encode_utf8};

    lemma_first_zero(data);
    if kind == DataType::String {
        if let Some(n) = first_zero(data) {
            let u = data.take(n as int);
            if valid_utf8(u) {
                assert(encode_utf8(decode_utf8(u)) == u);
                assert(!u.contains(0u8)) by {
                    if u.contains(0u8) {
                        let j = choose|j: int| 0 <= j < u.len() && u[j] == 0u8;
                        assert(data[j] == 0);
                    }
                }
            }
        }
    }
}

/// A row that is read conforms to the schema, and its bytes lie within the data.
pub proof fn lemma_columns_at_conform(data: Seq<u8>, schema: SchemaModel, n: nat)
    requires
        n <= schema.len(),
    ensures
        columns_at(data, schema, n) matches Some((row, used)) ==> {
            &&& conforms(row, schema.take(n as int))
            &&& used <= data.len()
        },
    decreases n,
{
    if n > 0 {
        let k = (n - 1) as nat;
        lemma_columns_at_conform(data, schema, k);
        if let Some((row, used)) = columns_at(data, schema, k) {
            lemma_value_at_conforms(data.skip(used as int), schema[k as int].1);
        }
    }
}

/// Once a column cannot be read, no longer front of the row can.
proof fn lemma_columns_at_none(data: Seq<u8>, schema: SchemaModel, n: nat, m: nat)
    requires
        n <= m,
        columns_at(data, schema, n) is None,
    ensures
        columns_at(data, schema, m) is None,
    decreases m,
{
    if n < m {
        lemma_columns_at_none(data, schema, n, (m - 1) as nat);
    }
}

// ── Encoding and decoding ────────────────────────────────────────────────────

/// The text that `bytes` encode, by `std::str::from_utf8`: there is one exactly where
/// the bytes are valid UTF-8, and it is the one that they decode to.
#[verifier::external_body]
fn text_of(bytes: &[u8]) -> (r: Option<&str>)
    ensures
        r is Some <==> valid_utf8(bytes@),
        r matches Some(s) ==> s@ == decode_utf8(bytes@),
{
    match std::str::from_utf8(bytes) {
        Ok(s) => Some(s),
        Err(_) => None,
    }
}

/// Appends the bytes of a value.
pub fn encode_value(val: &Data, out: &mut Vec<u8>)
    ensures
        final(out)@ == old(out)@ + value_bytes(val.deep_view()),
        spells(final(out)@.skip(old(out)@.len() as int), val.deep_view()),
{
    proof {
        let bytes = value_bytes(val.deep_view());
        lemma_value_written(val.deep_view());
        assert((old(out)@ + bytes).skip(old(out)@.len() as int) =~= bytes);
    }
    match val {
        Data::Int32(v) => {
            let n: u64 = if *v >= 0 { *v as u64 } else { (*v as i64 + 0x1_0000_0000) as u64 };
            push_le(out, n, 4);
        },
        Data::Int64(v) => {
            let n: u64 = if *v >= 0 {
                *v as u64
            } else {
                (*v as i128 + 0x1_0000_0000_0000_0000) as u64
            };
            push_le(out, n, 8);
        },
        Data::Float32(v) => push_le(out, *v as u64, 4),
        Data::Float64(v) => push_le(out, *v, 8),
        Data::String(s) => {
            let bytes = s.as_str().as_bytes();
            out.extend_from_slice(bytes);
            out.push(0);
            proof {
                assert(final(out)@ =~= old(out)@ + value_bytes(val.deep_view()));
            }
        },
    }
}

/// Encodes a single row to bytes, in the format of the table files.
pub fn encode_row(row: &Row) -> (bytes: Vec<u8>)
    ensures
        bytes@ == row_bytes(row.deep_view()),
{
    let mut bytes: Vec<u8> = Vec::new();
    let mut i: usize = 0;
    while i < row.len()
        invariant
            i <= row.len(),
            bytes@ == row_bytes(row.deep_view().take(i as int)),
        decreases row.len() - i,
    {
        encode_value(&row[i], &mut bytes);
        proof {
            let r = row.deep_view();
            assert(r.take(i + 1).drop_last() =~= r.take(i as int));
        }
        i += 1;
    }
    proof {
        assert(row.deep_view().take(i as int) =~= row.deep_view());
    }
    bytes
}

/// The value of the given type that starts at `data[at]`, and the place after it;
/// nothing where the bytes there are no such value.
fn decode_value(data: &[u8], at: usize, kind: DataType) -> (r: Option<(Data, usize)>)
    requires
        at <= data@.len(),
    ensures
        match r {
            Some((v, end)) => {
                &&& value_at(data@.skip(at as int), kind) == Some(
                    (v.deep_view(), (end - at) as nat),
                )
                &&& at <= end <= data@.len()
                &&& of_type(v.deep_view(), kind)
                &&& stands_for(data@.subrange(at as int, end as int), v.deep_view())
            },
            None => value_at(data@.skip(at as int), kind) is None,
        },
{
    let ghost here = data@.skip(at as int);
    let len = data.len();
    proof {
        lemma_value_read(here, kind);
        if let Some((v, used)) = value_at(here, kind) {
            assert(here.take(used as int) =~= data@.subrange(at as int, at + used));
        }
        lemma_pow256();
        if here.len() >= 4 {
            lemma_le_number_bound(here.take(4));
            assert(here.take(4) =~= data@.subrange(at as int, at + 4));
        }
        if here.len() >= 8 {
            lemma_le_number_bound(here.take(8));
            assert(here.take(8) =~= data@.subrange(at as int, at + 8));
        }
    }
    match kind {
        DataType::Int32 => {
            if len - at < 4 {
                return None;
            }
            let n = read_le(data, at, 4);
            let v: i32 = if n < 0x8000_0000 { n as i32 } else { (n as i64 - 0x1_0000_0000) as i32 };
            Some((Data::Int32(v), at + 4))
        },
        DataType::Int64 => {
            if len - at < 8 {
                return None;
            }
            let n = read_le(data, at, 8);
            let v: i64 = if n < 0x8000_0000_0000_0000 {
                n as i64
            } else {
                (n as i128 - 0x1_0000_0000_0000_0000) as i64
            };
            Some((Data::Int64(v), at + 8))
        },
        DataType::Float32 => {
            if len - at < 4 {
                return None;
            }
            let n = read_le(data, at, 4);
            Some((Data::Float32(n as u32), at + 4))
        },
        DataType::Float64 => {
            if len - at < 8 {
                return None;
            }
            let n = read_le(data, at, 8);
            Some((Data::Float64(n), at + 8))
        },
        DataType::String => {
            let mut end: usize = at;
            while end < len && data[end] != 0
                invariant
                    at <= end <= len,
                    len == data@.len(),
                    forall|j: int| at <= j < end ==> #[trigger] data@[j] != 0,
                decreases len - end,
            {
                end += 1;
            }
            proof {
                lemma_first_zero(here);
                assert forall|j: int| 0 <= j < end - at implies #[trigger] here[j] != 0 by {
                    assert(here[j] == data@[at + j]);
                }
            }
            if end >= len {
                return None;
            }
            proof {
                assert(here[end - at] == data@[end as int]);
                lemma_first_zero_is(here, (end - at) as nat);
                assert(here.take(end - at) =~= data@.subrange(at as int, end as int));
            }
            match text_of(vstd::slice::slice_subrange(data, at, end)) {
                Some(s) => Some((Data::String(s.to_string()), end + 1)),
                None => None,
            }
        },
    }
}

/// The row that starts at `data[at]`, and the place after it; nothing where the bytes
/// there are no such row.
pub fn decode_row_at(data: &[u8], at: usize, schema: &Schema) -> (r: Option<(Row, usize)>)
    requires
        at <= data@.len(),
    ensures
        match r {
            Some((row, end)) => {
                &&& row_at(data@.skip(at as int), schema.deep_view()) == Some(
                    (row.deep_view(), (end - at) as nat),
                )
                &&& at <= end <= data@.len()
                &&& conforms(row.deep_view(), schema.deep_view())
                &&& exists|cuts: Seq<nat>| #[trigger]
                    row_stands(
                        data@.skip(at as int),
                        row.deep_view(),
                        schema.deep_view(),
                        cuts,
                    ) && cuts.last() == end - at
            },
            None => {
                &&& row_at(data@.skip(at as int), schema.deep_view()) is None
                &&& forall|row: RowModel, cuts: Seq<nat>|
                    !(#[trigger] row_stands(
                        data@.skip(at as int),
                        row,
                        schema.deep_view(),
                        cuts,
                    ))
            },
        },
{
    let ghost here = data@.skip(at as int);
    let ghost s = schema.deep_view();
    let mut row: Row = Vec::new();
    let mut end: usize = at;
    let mut i: usize = 0;
    proof {
        assert(row.deep_view() =~= Seq::<Value>::empty());
    }
    while i < schema.len()
        invariant
            i <= schema.len(),
            at <= end <= data@.len(),
            here == data@.skip(at as int),
            s == schema.deep_view(),
            columns_at(here, s, i as nat) == Some((row.deep_view(), (end - at) as nat)),
        decreases schema.len() - i,
    {
        proof {
            assert(here.skip(end - at) =~= data@.skip(end as int));
            assert(s[i as int].1 == schema[i as int].1);
        }
        match decode_value(data, end, schema[i].1) {
            Some((v, next)) => {
                let ghost before = row.deep_view();
                row.push(v);
                end = next;
                i += 1;
                proof {
                    assert(row.deep_view() =~= before.push(v.deep_view()));
                }
            },
            None => {
                proof {
                    lemma_columns_at_none(here, s, (i + 1) as nat, s.len());
                    assert forall|other: RowModel, cuts: Seq<nat>|
                        !(#[trigger] row_stands(here, other, s, cuts)) by {
                        if row_stands(here, other, s, cuts) {
                            lemma_row_found(here, s, other, cuts);
                        }
                    }
                }
                return None;
            },
        }
    }
    proof {
        lemma_columns_at_conform(here, s, s.len());
        assert(s.take(s.len() as int) =~= s);
        let cuts = lemma_row_read(here, s);
        assert(row_stands(here, row.deep_view(), s, cuts));
    }
    Some((row, end))
}

} // verus!
