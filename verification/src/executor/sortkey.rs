//! Sort keys: byte strings whose order is that of the rows they are made from.

use vstd::prelude::*;
use vstd::utf8::encode_utf8;

use crate::bytes::{be_bytes, push_be};
use crate::data::{Data, Value};
use crate::query::{SortColumn, SortSpec};
use crate::row::{column_of, find_column, Row, RowModel, Schema, SchemaModel};

verus! {

/// The key of a float: negative ones in reverse, the others after them.
pub open spec fn float_key32(bits: u32) -> nat {
    if bits >= 0x8000_0000 {
        (0xffff_ffff - bits) as nat
    } else {
        (bits + 0x8000_0000) as nat
    }
}

pub open spec fn float_key64(bits: u64) -> nat {
    if bits >= 0x8000_0000_0000_0000 {
        (0xffff_ffff_ffff_ffff - bits) as nat
    } else {
        (bits + 0x8000_0000_0000_0000) as nat
    }
}

/// The key of a value in ascending order. Text ends with a zero byte, which keeps it
/// apart from the next column.
pub open spec fn rising_key(v: Value) -> Seq<u8> {
    match v {
        Value::Int32(x) => be_bytes((x + 0x8000_0000) as nat, 4),
        Value::Int64(x) => be_bytes((x + 0x8000_0000_0000_0000) as nat, 8),
        Value::Float32(x) => be_bytes(float_key32(x), 4),
        Value::Float64(x) => be_bytes(float_key64(x), 8),
        Value::Text(s) => encode_utf8(s).push(0u8),
    }
}

/// Each byte turned into its complement.
pub open spec fn inverted(b: Seq<u8>) -> Seq<u8> {
    Seq::new(b.len(), |i: int| (255 - b[i]) as u8)
}

pub open spec fn key_bytes(v: Value, ascending: bool) -> Seq<u8> {
    if ascending {
        rising_key(v)
    } else {
        inverted(rising_key(v))
    }
}

/// All sort columns are there.
pub open spec fn all_known(cs: Seq<SortColumn>, schema: SchemaModel) -> bool {
    forall|k: int| 0 <= k < cs.len() ==> column_of(schema, (#[trigger] cs[k]).column) is Some
}

/// The key of a row: the keys of its sort columns one after the other.
pub open spec fn sort_key(cs: Seq<SortColumn>, schema: SchemaModel, row: RowModel) -> Seq<u8>
    decreases cs.len(),
{
    if cs.len() == 0 {
        Seq::empty()
    } else {
        sort_key(cs.drop_last(), schema, row) + key_bytes(
            row[column_of(schema, cs.last().column)->0],
            cs.last().ascending,
        )
    }
}

/// Appends the key of a value.
pub fn encode_key_value(val: &Data, ascending: bool, out: &mut Vec<u8>)
    ensures
        final(out)@ == old(out)@ + key_bytes(val.deep_view(), ascending),
{
    let mut key: Vec<u8> = Vec::new();
    match val {
        Data::Int32(v) => push_be(&mut key, (*v as i64 + 0x8000_0000) as u64, 4),
        Data::Int64(v) => {
            push_be(&mut key, (*v as i128 + 0x8000_0000_0000_0000) as u64, 8);
        },
        Data::Float32(v) => {
            let bits: u32 = if *v >= 0x8000_0000 { 0xffff_ffff - *v } else { *v + 0x8000_0000 };
            push_be(&mut key, bits as u64, 4);
        },
        Data::Float64(v) => {
            let bits: u64 = if *v >= 0x8000_0000_0000_0000 {
                0xffff_ffff_ffff_ffff - *v
            } else {
                *v + 0x8000_0000_0000_0000
            };
            push_be(&mut key, bits, 8);
        },
        Data::String(s) => {
            key.extend_from_slice(s.as_str().as_bytes());
            key.push(0);
        },
    }
    assert(key@ =~= rising_key(val.deep_view()));
    let ghost whole = key_bytes(val.deep_view(), ascending);
    let mut i: usize = 0;
    while i < key.len()
        invariant
            i <= key.len(),
            whole.len() == key@.len(),
            whole == if ascending { key@ } else { inverted(key@) },
            out@ == old(out)@ + whole.take(i as int),
        decreases key.len() - i,
    {
        let b: u8 = key[i];
        out.push(if ascending { b } else { 255 - b });
        i += 1;
        proof {
            assert(out@ =~= old(out)@ + whole.take(i as int));
        }
    }
    proof {
        assert(whole.take(i as int) =~= whole);
    }
}

/// The sort key of a row.
pub fn encode_sort_key(row: &Row, specs: &Vec<SortSpec>, schema: &Schema) -> (key: Vec<u8>)
    requires
        row@.len() == schema@.len(),
        all_known(specs.deep_view(), schema.deep_view()),
    ensures
        key@ == sort_key(specs.deep_view(), schema.deep_view(), row.deep_view()),
{
    let ghost cs = specs.deep_view();
    let ghost s = schema.deep_view();
    let mut key: Vec<u8> = Vec::new();
    let mut k: usize = 0;
    proof {
        assert(cs.take(0) =~= Seq::<SortColumn>::empty());
    }
    while k < specs.len()
        invariant
            k <= specs.len(),
            cs == specs.deep_view(),
            s == schema.deep_view(),
            row@.len() == schema@.len(),
            all_known(cs, s),
            key@ == sort_key(cs.take(k as int), s, row.deep_view()),
        decreases specs.len() - k,
    {
        let spec = &specs[k];
        assert(cs[k as int] == spec.deep_view());
        match find_column(schema, &spec.column_name) {
            Some(idx) => {
                encode_key_value(&row[idx], spec.ascending, &mut key);
                assert(row[idx as int].deep_view() == row.deep_view()[idx as int]);
            },
            None => {},
        }
        k += 1;
        proof {
            assert(cs.take(k as int).drop_last() =~= cs.take(k - 1));
            assert(cs.take(k as int).last() == cs[k - 1]);
        }
    }
    proof {
        assert(cs.take(k as int) =~= cs);
    }
    key
}

/// Whether all sort columns are there.
pub fn knows_all(specs: &Vec<SortSpec>, schema: &Schema) -> (r: bool)
    ensures
        r == all_known(specs.deep_view(), schema.deep_view()),
{
    let ghost cs = specs.deep_view();
    let mut k: usize = 0;
    while k < specs.len()
        invariant
            k <= specs.len(),
            cs == specs.deep_view(),
            forall|m: int|
                0 <= m < k ==> column_of(schema.deep_view(), (#[trigger] cs[m]).column) is Some,
        decreases specs.len() - k,
    {
        assert(cs[k as int] == specs[k as int].deep_view());
        if find_column(schema, &specs[k].column_name).is_none() {
            return false;
        }
        k += 1;
    }
    true
}

} // verus!
