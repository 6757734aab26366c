//! What sort keys promise: their order is that of the rows.

use vstd::prelude::*;
use vstd::utf8::{decode_utf8, encode_utf8, encode_utf8_decode_utf8, encode_utf8_valid_utf8};

use crate::bytes::{int_order, lemma_be_order, lemma_lex_differ, lemma_lex_flip, lemma_lex_front,
    lemma_pow256, lex, Order};
use crate::data::{is_nan, rank32, rank64, value_order, Value};
use crate::executor::order::{directed, row_order};
use crate::executor::sortkey::{all_known, float_key32, float_key64, key_bytes, rising_key,
    sort_key};
use crate::executor::sortlaws::{lemma_orderly_rest, lemma_value_order_flip, orderly};
use crate::query::SortColumn;
use crate::row::{column_of, RowModel, SchemaModel};

verus! {

/// The first place where two byte strings differ, if both have it.
pub open spec fn differ_at(u: Seq<u8>, v: Seq<u8>, i: int) -> bool {
    &&& 0 <= i < u.len()
    &&& i < v.len()
    &&& u.take(i) == v.take(i)
    &&& u[i] != v[i]
}

/// Of two different strings one goes on where the other ends, or they differ somewhere.
proof fn lemma_difference(u: Seq<u8>, v: Seq<u8>) -> (i: int)
    requires
        u != v,
    ensures
        0 <= i <= u.len(),
        i <= v.len(),
        u.take(i) == v.take(i),
        differ_at(u, v, i) || i == u.len() || i == v.len(),
    decreases u.len(),
{
    if u.len() == 0 || v.len() == 0 {
        assert(u.take(0) =~= v.take(0));
        0
    } else if u[0] != v[0] {
        assert(u.take(0) =~= v.take(0));
        0
    } else {
        let (p, q) = (u.drop_first(), v.drop_first());
        if p == q {
            assert(u =~= seq![u[0]] + p);
            assert(v =~= seq![v[0]] + q);
        }
        let k = lemma_difference(p, q);
        assert(u.take(k + 1) =~= seq![u[0]] + p.take(k));
        assert(v.take(k + 1) =~= seq![v[0]] + q.take(k));
        k + 1
    }
}

/// The keys of two different values of a type differ at a place that both have.
proof fn lemma_keys_differ(a: Value, b: Value) -> (i: int)
    requires
        a.kind() == b.kind(),
        a.storable(),
        b.storable(),
        rising_key(a) != rising_key(b),
    ensures
        differ_at(rising_key(a), rising_key(b), i),
{
    let (u, v) = (rising_key(a), rising_key(b));
    let i = lemma_difference(u, v);
    match (a, b) {
        (Value::Text(x), Value::Text(y)) => {
            let (p, q) = (encode_utf8(x), encode_utf8(y));
            if i == u.len() {
                if i == v.len() {
                    assert(u.take(i) =~= u && v.take(i) =~= v);
                } else {
                    assert(u.take(i)[i - 1] == v.take(i)[i - 1]);
                    assert(q[i - 1] == 0u8);
                    assert(q.contains(0u8));
                }
            } else if i == v.len() {
                assert(u.take(i)[i - 1] == v.take(i)[i - 1]);
                assert(p[i - 1] == 0u8);
                assert(p.contains(0u8));
            }
        },
        _ => {
            lemma_widths(a);
            lemma_widths(b);
            if i == u.len() {
                assert(u.take(i) =~= u && v.take(i) =~= v);
            }
        },
    }
    i
}

proof fn lemma_widths(v: Value)
    ensures
        v is Int32 || v is Float32 ==> rising_key(v).len() == 4,
        v is Int64 || v is Float64 ==> rising_key(v).len() == 8,
{
    lemma_pow256();
    match v {
        Value::Int32(x) => crate::bytes::lemma_be_bytes_len((x + 0x8000_0000) as nat, 4),
        Value::Int64(x) => crate::bytes::lemma_be_bytes_len(
            (x + 0x8000_0000_0000_0000) as nat,
            8,
        ),
        Value::Float32(x) => crate::bytes::lemma_be_bytes_len(float_key32(x), 4),
        Value::Float64(x) => crate::bytes::lemma_be_bytes_len(float_key64(x), 8),
        Value::Text(_) => {},
    }
}

/// One value is a zero, and the other the other zero.
pub open spec fn zero_pair(a: Value, b: Value) -> bool {
    match (a, b) {
        (Value::Float32(x), Value::Float32(y)) => x != y && rank32(x) == 0 && rank32(y) == 0,
        (Value::Float64(x), Value::Float64(y)) => x != y && rank64(x) == 0 && rank64(y) == 0,
        _ => false,
    }
}

/// Ascending keys of values are in the order of the values.
pub proof fn lemma_rising_order(a: Value, b: Value)
    requires
        a.kind() == b.kind(),
        a.storable(),
        b.storable(),
        !is_nan(a),
        !is_nan(b),
    ensures
        value_order(a, b) is Some,
        value_order(a, b) != Some(Order::Equal) ==> value_order(a, b) == Some(
            lex(rising_key(a), rising_key(b)),
        ),
        value_order(a, b) == Some(Order::Equal) && !zero_pair(a, b) ==> a == b,
{
    broadcast use {encode_utf8_valid_utf8, encode_utf8_decode_utf8};

    lemma_pow256();
    match (a, b) {
        (Value::Int32(x), Value::Int32(y)) => {
            lemma_be_order((x + 0x8000_0000) as nat, (y + 0x8000_0000) as nat, 4);
        },
        (Value::Int64(x), Value::Int64(y)) => {
            lemma_be_order(
                (x + 0x8000_0000_0000_0000) as nat,
                (y + 0x8000_0000_0000_0000) as nat,
                8,
            );
        },
        (Value::Float32(x), Value::Float32(y)) => {
            lemma_be_order(float_key32(x), float_key32(y), 4);
        },
        (Value::Float64(x), Value::Float64(y)) => {
            lemma_be_order(float_key64(x), float_key64(y), 8);
        },
        (Value::Text(x), Value::Text(y)) => {
            let (p, q) = (encode_utf8(x), encode_utf8(y));
            lemma_lex_flip(p, q);
            if p == q {
                assert(x == decode_utf8(p) && y == decode_utf8(q));
            } else {
                let (u, v) = (rising_key(a), rising_key(b));
                if u == v {
                    assert(p =~= u.drop_last() && q =~= v.drop_last());
                }
                let i = lemma_keys_differ(a, b);
                lemma_lex_differ(u, v, i);
                lemma_text_order(p, q, i);
            }
        },
        _ => {},
    }
}

/// Text is in the order of its terminated bytes.
proof fn lemma_text_order(p: Seq<u8>, q: Seq<u8>, i: int)
    requires
        !p.contains(0u8),
        !q.contains(0u8),
        differ_at(p.push(0u8), q.push(0u8), i),
    ensures
        lex(p, q) == int_order(p.push(0u8)[i] as int, q.push(0u8)[i] as int),
    decreases i,
{
    let (u, v) = (p.push(0u8), q.push(0u8));
    if i == 0 {
        if p.len() > 0 {
            assert(p.contains(p[0]));
        }
        if q.len() > 0 {
            assert(q.contains(q[0]));
        }
    } else {
        assert(u.take(i)[0] == v.take(i)[0]);
        if p.len() == 0 || q.len() == 0 {
            assert(u.take(i)[0] == u[0] && v.take(i)[0] == v[0]);
            if p.len() == 0 {
                assert(q.contains(q[0]));
            } else {
                assert(p.contains(p[0]));
            }
        }
        let (p2, q2) = (p.drop_first(), q.drop_first());
        assert forall|k: int| 0 <= k < p2.len() implies #[trigger] p2[k] != 0u8 by {
            assert(p.contains(p[k + 1]));
        }
        assert forall|k: int| 0 <= k < q2.len() implies #[trigger] q2[k] != 0u8 by {
            assert(q.contains(q[k + 1]));
        }
        assert(p2.push(0u8) =~= u.drop_first());
        assert(q2.push(0u8) =~= v.drop_first());
        assert(u.drop_first().take(i - 1) =~= u.take(i).drop_first());
        assert(v.drop_first().take(i - 1) =~= v.take(i).drop_first());
        lemma_text_order(p2, q2, i - 1);
    }
}

/// Keys of values are in the order of the values, or in reverse, whatever follows them.
proof fn lemma_key_order(a: Value, b: Value, ascending: bool, p: Seq<u8>, q: Seq<u8>)
    requires
        a.kind() == b.kind(),
        a.storable(),
        b.storable(),
        !is_nan(a),
        !is_nan(b),
        value_order(a, b) != Some(Order::Equal),
    ensures
        value_order(a, b) is Some,
        lex(key_bytes(a, ascending) + p, key_bytes(b, ascending) + q) == directed(
            value_order(a, b)->0,
            ascending,
        ),
{
    lemma_rising_order(a, b);
    let (u, v) = (rising_key(a), rising_key(b));
    lemma_lex_flip(u, v);
    let i = lemma_keys_differ(a, b);
    lemma_lex_differ(u, v, i);
    let (s, t) = (key_bytes(a, ascending), key_bytes(b, ascending));
    assert((s + p).take(i) =~= (t + q).take(i)) by {
        assert forall|k: int| 0 <= k < i implies (s + p)[k] == (t + q)[k] by {
            assert(u.take(i)[k] == v.take(i)[k]);
        }
    }
    lemma_lex_differ(s + p, t + q, i);
}

/// The key of a row begins with that of its first sort column.
pub proof fn lemma_key_front(cs: Seq<SortColumn>, schema: SchemaModel, row: RowModel)
    requires
        cs.len() > 0,
    ensures
        sort_key(cs, schema, row) == key_bytes(
            row[column_of(schema, cs[0].column)->0],
            cs[0].ascending,
        ) + sort_key(cs.drop_first(), schema, row),
    decreases cs.len(),
{
    let first = key_bytes(row[column_of(schema, cs[0].column)->0], cs[0].ascending);
    let rest = cs.drop_first();
    if cs.len() == 1 {
        assert(cs.drop_last() =~= Seq::<SortColumn>::empty());
        assert(rest =~= Seq::<SortColumn>::empty());
        assert(sort_key(rest, schema, row) == Seq::<u8>::empty());
        assert(Seq::<u8>::empty() + first =~= first + Seq::<u8>::empty());
    } else {
        lemma_key_front(cs.drop_last(), schema, row);
        assert(cs.drop_last().drop_first() =~= rest.drop_last());
        assert(rest.last() == cs.last());
        let last = key_bytes(row[column_of(schema, cs.last().column)->0], cs.last().ascending);
        let middle = sort_key(rest.drop_last(), schema, row);
        assert((first + middle) + last =~= first + (middle + last));
    }
}

/// No sort column but the last holds a zero in one row and the other zero in the other.
pub open spec fn zeros_agree(
    cs: Seq<SortColumn>,
    schema: SchemaModel,
    a: RowModel,
    b: RowModel,
) -> bool {
    forall|k: int|
        0 <= k < cs.len() - 1 ==> {
            let i = column_of(schema, (#[trigger] cs[k]).column)->0;
            !zero_pair(a[i], b[i])
        }
}

/// Where two rows differ in order, their sort keys differ in the same way: comparing the
/// bytes of keys is comparing rows.
pub proof fn lemma_key_is_faithful(
    cs: Seq<SortColumn>,
    schema: SchemaModel,
    a: RowModel,
    b: RowModel,
)
    requires
        all_known(cs, schema),
        orderly(cs, schema, a),
        orderly(cs, schema, b),
        zeros_agree(cs, schema, a, b),
    ensures
        row_order(cs, schema, a, b) is Some,
        row_order(cs, schema, a, b) != Some(Order::Equal) ==> row_order(cs, schema, a, b) == Some(
            lex(sort_key(cs, schema, a), sort_key(cs, schema, b)),
        ),
{
    let none = Seq::<u8>::empty();
    lemma_front_is_faithful(cs, schema, a, b, none, none);
    assert(sort_key(cs, schema, a) + none =~= sort_key(cs, schema, a));
    assert(sort_key(cs, schema, b) + none =~= sort_key(cs, schema, b));
}

/// Where two rows differ in the order of some sort columns, keys that begin with theirs differ
/// in the same way, whatever follows.
pub proof fn lemma_front_is_faithful(
    cs: Seq<SortColumn>,
    schema: SchemaModel,
    a: RowModel,
    b: RowModel,
    x: Seq<u8>,
    y: Seq<u8>,
)
    requires
        all_known(cs, schema),
        orderly(cs, schema, a),
        orderly(cs, schema, b),
        zeros_agree(cs, schema, a, b),
    ensures
        row_order(cs, schema, a, b) is Some,
        row_order(cs, schema, a, b) != Some(Order::Equal) ==> row_order(cs, schema, a, b) == Some(
            lex(sort_key(cs, schema, a) + x, sort_key(cs, schema, b) + y),
        ),
    decreases cs.len(),
{
    if cs.len() > 0 {
        lemma_orderly_rest(cs, schema, a);
        lemma_orderly_rest(cs, schema, b);
        lemma_key_front(cs, schema, a);
        lemma_key_front(cs, schema, b);
        let i = column_of(schema, cs[0].column)->0;
        let rest = cs.drop_first();
        let (p, q) = (sort_key(rest, schema, a), sort_key(rest, schema, b));
        let (s, t) = (key_bytes(a[i], cs[0].ascending), key_bytes(b[i], cs[0].ascending));
        assert((s + p) + x =~= s + (p + x));
        assert((t + q) + y =~= t + (q + y));
        lemma_value_order_flip(a[i], b[i]);
        assert(zeros_agree(rest, schema, a, b)) by {
            assert forall|k: int| 0 <= k < rest.len() - 1 implies {
                let j = column_of(schema, (#[trigger] rest[k]).column)->0;
                !zero_pair(a[j], b[j])
            } by {
                assert(rest[k] == cs[k + 1]);
            }
        }
        lemma_front_is_faithful(rest, schema, a, b, x, y);
        if value_order(a[i], b[i]) == Some(Order::Equal) {
            if cs.len() == 1 {
                assert(row_order(rest, schema, a, b) == Some(Order::Equal));
            } else {
                assert(!zero_pair(a[i], b[i]));
                lemma_rising_order(a[i], b[i]);
                lemma_lex_front(s, p + x, q + y);
            }
        } else {
            lemma_key_order(a[i], b[i], cs[0].ascending, p + x, q + y);
        }
    }
}

/// The key of a row begins with that of its first sort columns.
pub proof fn lemma_key_splits(
    cs: Seq<SortColumn>,
    schema: SchemaModel,
    row: RowModel,
    n: int,
) -> (tail: Seq<u8>)
    requires
        0 <= n <= cs.len(),
    ensures
        sort_key(cs, schema, row) == sort_key(cs.take(n), schema, row) + tail,
    decreases cs.len(),
{
    if n == cs.len() {
        let none = Seq::<u8>::empty();
        assert(cs.take(n) =~= cs);
        assert(sort_key(cs, schema, row) + none =~= sort_key(cs, schema, row));
        none
    } else {
        let tail = lemma_key_splits(cs.drop_last(), schema, row, n);
        assert(cs.drop_last().take(n) =~= cs.take(n));
        let last = key_bytes(row[column_of(schema, cs.last().column)->0], cs.last().ascending);
        let front = sort_key(cs.take(n), schema, row);
        assert((front + tail) + last =~= front + (tail + last));
        tail + last
    }
}

} // verus!
