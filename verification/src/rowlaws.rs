//! What the bytes of rows and blocks mean.

use vstd::prelude::*;
use vstd::utf8::*;

use crate::block::{all_fit, block_of, block_rows, packed, rows_at, spread};
use crate::bytes::le_number;
use crate::data::{DataType, Value};
use crate::numberlaws::{eight_bytes, four_bytes, lemma_bytes_read, lemma_bytes_written, two_bytes};
use crate::row::{columns_at, first_zero, lemma_first_zero, lemma_first_zero_is, row_at, row_bytes,
    unsigned32, unsigned64, value_at, value_bytes, RowModel, SchemaModel};

verus! {

// ── Values ───────────────────────────────────────────────────────────────────

/// The value belongs to a column of the type.
pub open spec fn of_type(v: Value, kind: DataType) -> bool {
    match kind {
        DataType::Int32 => v is Int32,
        DataType::Int64 => v is Int64,
        DataType::Float32 => v is Float32,
        DataType::Float64 => v is Float64,
        DataType::String => v is Text,
    }
}

/// The bytes are those of the value. A whole number is in two's complement and a float in its
/// bits, both the lowest byte first. A text is in UTF-8, with a zero byte behind it.
pub open spec fn spells(b: Seq<u8>, v: Value) -> bool {
    match v {
        Value::Int32(x) => b.len() == 4 && (four_bytes(b) == x || four_bytes(b) == x
            + 0x1_0000_0000),
        Value::Int64(x) => b.len() == 8 && (eight_bytes(b) == x || eight_bytes(b) == x
            + 0x1_0000_0000_0000_0000),
        Value::Float32(x) => b.len() == 4 && four_bytes(b) == x,
        Value::Float64(x) => b.len() == 8 && eight_bytes(b) == x,
        Value::Text(s) => b == encode_utf8(s) + seq![0u8],
    }
}

/// The bytes are those of the value, and the end of a text can be told from them.
pub open spec fn stands_for(b: Seq<u8>, v: Value) -> bool {
    &&& spells(b, v)
    &&& v is Text ==> forall|i: int| 0 <= i < b.len() - 1 ==> #[trigger] b[i] != 0
}

proof fn lemma_byte_ranges(b: Seq<u8>)
    ensures
        b.len() == 4 ==> 0 <= four_bytes(b) < 0x1_0000_0000,
        b.len() == 8 ==> 0 <= eight_bytes(b) < 0x1_0000_0000_0000_0000,
{
    assert(b.skip(4).len() == b.len() - 4 || b.len() < 4);
}

/// A value is written as the bytes that stand for it.
pub proof fn lemma_value_written(v: Value)
    ensures
        spells(value_bytes(v), v),
{
    match v {
        Value::Int32(x) => lemma_bytes_written(unsigned32(x)),
        Value::Int64(x) => lemma_bytes_written(unsigned64(x)),
        Value::Float32(x) => lemma_bytes_written(x as nat),
        Value::Float64(x) => lemma_bytes_written(x as nat),
        Value::Text(s) => {
            assert(value_bytes(v) =~= encode_utf8(s) + seq![0u8]);
        },
    }
}

/// A value that is read is the one that the bytes there stand for.
pub proof fn lemma_value_read(data: Seq<u8>, kind: DataType)
    ensures
        value_at(data, kind) matches Some((v, used)) ==> {
            &&& of_type(v, kind)
            &&& 0 < used <= data.len()
            &&& stands_for(data.take(used as int), v)
        },
{
    broadcast use {decode_utf8_encode_utf8};

    if let Some((v, used)) = value_at(data, kind) {
        match kind {
            DataType::String => {
                lemma_first_zero(data);
                let n = first_zero(data)->0;
                let text = data.take(n as int);
                assert(encode_utf8(decode_utf8(text)) == text);
                let b = data.take(used as int);
                assert(b =~= text + seq![0u8]);
                assert forall|i: int| 0 <= i < b.len() - 1 implies #[trigger] b[i] != 0 by {
                    assert(data[i] != 0);
                }
            },
            _ => {
                let b = data.take(used as int);
                lemma_bytes_read(b);
                lemma_byte_ranges(b);
            },
        }
    }
}

/// Where the bytes at the front stand for a value, that value is read, and no more bytes.
pub proof fn lemma_value_found(data: Seq<u8>, kind: DataType, v: Value, n: nat)
    requires
        of_type(v, kind),
        n <= data.len(),
        stands_for(data.take(n as int), v),
    ensures
        value_at(data, kind) == Some((v, n)),
{
    broadcast use {encode_utf8_valid_utf8, encode_utf8_decode_utf8};

    let b = data.take(n as int);
    match v {
        Value::Text(s) => {
            let m = (n - 1) as nat;
            assert(b[m as int] == 0);
            assert forall|j: int| 0 <= j < m implies #[trigger] data[j] != 0 by {
                assert(b[j] != 0);
            }
            lemma_first_zero_is(data, m);
            assert(data.take(m as int) =~= encode_utf8(s)) by {
                assert(data.take(m as int) =~= b.take(m as int));
            }
        },
        _ => {
            lemma_bytes_read(b);
            lemma_byte_ranges(b);
        },
    }
}

// ── Rows ─────────────────────────────────────────────────────────────────────

/// The data falls into pieces at the given places, from the front on, and each stands for
/// the value of a column.
pub open spec fn row_stands(
    data: Seq<u8>,
    row: RowModel,
    schema: SchemaModel,
    cuts: Seq<nat>,
) -> bool {
    &&& row.len() == schema.len()
    &&& cuts.len() == row.len() + 1
    &&& cuts[0] == 0
    &&& forall|i: int|
        0 <= i < row.len() ==> {
            &&& cuts[i] <= #[trigger] cuts[i + 1] <= data.len()
            &&& of_type(row[i], schema[i].1)
            &&& stands_for(data.subrange(cuts[i] as int, cuts[i + 1] as int), row[i])
        }
}

proof fn lemma_columns_read(data: Seq<u8>, schema: SchemaModel, n: nat) -> (cuts: Seq<nat>)
    requires
        n <= schema.len(),
    ensures
        columns_at(data, schema, n) matches Some((row, used)) ==> {
            &&& row_stands(data, row, schema.take(n as int), cuts)
            &&& cuts.last() == used
            &&& used <= data.len()
        },
    decreases n,
{
    if n == 0 {
        seq![0nat]
    } else {
        let k = (n - 1) as nat;
        let front = lemma_columns_read(data, schema, k);
        match columns_at(data, schema, n) {
            Some((row, used)) => {
                let (head, at) = columns_at(data, schema, k)->0;
                lemma_value_read(data.skip(at as int), schema[k as int].1);
                let cuts = front.push(used);
                let v = row[k as int];
                assert(data.skip(at as int).take(used - at) =~= data.subrange(
                    at as int,
                    used as int,
                ));
                assert forall|i: int| 0 <= i < row.len() implies {
                    &&& cuts[i] <= #[trigger] cuts[i + 1] <= data.len()
                    &&& of_type(row[i], schema.take(n as int)[i].1)
                    &&& stands_for(data.subrange(cuts[i] as int, cuts[i + 1] as int), row[i])
                } by {
                    if i < k {
                        assert(front[i + 1] == cuts[i + 1]);
                        assert(front[i] == cuts[i]);
                        assert(head[i] == row[i]);
                        assert(schema.take(k as int)[i] == schema[i]);
                    } else {
                        assert(cuts[i] == front.last());
                    }
                }
                cuts
            },
            None => front,
        }
    }
}

/// A row that is read is the one that the bytes there stand for, column by column.
pub proof fn lemma_row_read(data: Seq<u8>, schema: SchemaModel) -> (cuts: Seq<nat>)
    ensures
        row_at(data, schema) matches Some((row, used)) ==> {
            &&& row_stands(data, row, schema, cuts)
            &&& cuts.last() == used
        },
{
    assert(schema.take(schema.len() as int) =~= schema);
    lemma_columns_read(data, schema, schema.len())
}

proof fn lemma_columns_found(
    data: Seq<u8>,
    schema: SchemaModel,
    row: RowModel,
    cuts: Seq<nat>,
    n: nat,
)
    requires
        row_stands(data, row, schema, cuts),
        n <= row.len(),
    ensures
        columns_at(data, schema, n) == Some((row.take(n as int), cuts[n as int])),
    decreases n,
{
    if n == 0 {
        assert(row.take(0) =~= Seq::<Value>::empty());
    } else {
        let k = n - 1;
        lemma_columns_found(data, schema, row, cuts, k as nat);
        assert(cuts[k] <= cuts[k + 1] <= data.len());
        let tail = data.skip(cuts[k] as int);
        let m = (cuts[k + 1] - cuts[k]) as nat;
        assert(tail.take(m as int) =~= data.subrange(cuts[k] as int, cuts[k + 1] as int));
        lemma_value_found(tail, schema[k].1, row[k], m);
        assert(row.take(n as int) =~= row.take(k).push(row[k]));
    }
}

/// Where the bytes at the front stand for a row, column by column, that row is read.
pub proof fn lemma_row_found(data: Seq<u8>, schema: SchemaModel, row: RowModel, cuts: Seq<nat>)
    requires
        row_stands(data, row, schema, cuts),
    ensures
        row_at(data, schema) == Some((row, cuts.last())),
{
    lemma_columns_found(data, schema, row, cuts, row.len());
    assert(row.take(row.len() as int) =~= row);
}

/// The bytes of a row are those of its values, one after the other.
pub proof fn lemma_row_written(row: RowModel)
    ensures
        row_bytes(row) == Seq::new(row.len(), |i: int| value_bytes(row[i])).flatten(),
    decreases row.len(),
{
    let pieces = Seq::new(row.len(), |i: int| value_bytes(row[i]));
    if row.len() > 0 {
        let r = row.drop_last();
        let front = Seq::new(r.len(), |i: int| value_bytes(r[i]));
        lemma_row_written(r);
        assert(pieces =~= front.push(pieces.last()));
        front.lemma_flatten_push(pieces.last());
    } else {
        assert(pieces =~= Seq::<Seq<u8>>::empty());
        assert(row_bytes(row) =~= pieces.flatten());
    }
}

// ── Blocks ───────────────────────────────────────────────────────────────────

/// Rows lie one behind the other from the front of the data on, each from one of the given
/// places to the next.
pub open spec fn rows_stand(
    data: Seq<u8>,
    rows: Seq<RowModel>,
    schema: SchemaModel,
    cuts: Seq<nat>,
) -> bool {
    &&& cuts.len() == rows.len() + 1
    &&& cuts[0] == 0
    &&& forall|i: int|
        0 <= i < rows.len() ==> {
            &&& cuts[i] <= #[trigger] cuts[i + 1]
            &&& row_at(data.skip(cuts[i] as int), schema) == Some(
                (rows[i], (cuts[i + 1] - cuts[i]) as nat),
            )
        }
}

proof fn lemma_rows_read(data: Seq<u8>, schema: SchemaModel, n: nat) -> (cuts: Seq<nat>)
    ensures
        rows_at(data, schema, n) matches Some((rows, used)) ==> {
            &&& rows.len() == n
            &&& rows_stand(data, rows, schema, cuts)
            &&& cuts.last() == used
        },
    decreases n,
{
    if n == 0 {
        seq![0nat]
    } else {
        let front = lemma_rows_read(data, schema, (n - 1) as nat);
        match rows_at(data, schema, n) {
            Some((rows, used)) => {
                let (head, at) = rows_at(data, schema, (n - 1) as nat)->0;
                let cuts = front.push(used);
                assert forall|i: int| 0 <= i < rows.len() implies {
                    &&& cuts[i] <= #[trigger] cuts[i + 1]
                    &&& row_at(data.skip(cuts[i] as int), schema) == Some(
                        (rows[i], (cuts[i + 1] - cuts[i]) as nat),
                    )
                } by {
                    if i < head.len() {
                        assert(front[i + 1] == cuts[i + 1]);
                        assert(front[i] == cuts[i]);
                        assert(head[i] == rows[i]);
                    } else {
                        assert(cuts[i] == front.last());
                    }
                }
                cuts
            },
            None => front,
        }
    }
}

proof fn lemma_rows_found(
    data: Seq<u8>,
    schema: SchemaModel,
    rows: Seq<RowModel>,
    cuts: Seq<nat>,
    n: nat,
)
    requires
        rows_stand(data, rows, schema, cuts),
        n <= rows.len(),
    ensures
        rows_at(data, schema, n) == Some((rows.take(n as int), cuts[n as int])),
    decreases n,
{
    if n == 0 {
        assert(rows.take(0) =~= Seq::<RowModel>::empty());
    } else {
        let k = n - 1;
        lemma_rows_found(data, schema, rows, cuts, k as nat);
        assert(cuts[k] <= cuts[k + 1]);
        assert(rows.take(n as int) =~= rows.take(k).push(rows[k]));
    }
}

/// The rows of a block are as many as its last two bytes say, and lie one behind the other
/// from its front on.
pub proof fn lemma_block_read(block: Seq<u8>, schema: SchemaModel) -> (cuts: Seq<nat>)
    ensures
        block_rows(block, schema) matches Some(rows) ==> {
            &&& block.len() >= 2
            &&& rows.len() == two_bytes(block.skip(block.len() - 2))
            &&& rows_stand(block, rows, schema, cuts)
        },
{
    let end = block.skip(block.len() - 2);
    if block.len() >= 2 {
        lemma_bytes_read(end);
    }
    lemma_rows_read(block, schema, le_number(end))
}

/// Where as many rows as the last two bytes say lie one behind the other, they are the rows
/// of the block.
pub proof fn lemma_block_found(
    block: Seq<u8>,
    schema: SchemaModel,
    rows: Seq<RowModel>,
    cuts: Seq<nat>,
)
    requires
        block.len() >= 2,
        rows.len() == two_bytes(block.skip(block.len() - 2)),
        rows_stand(block, rows, schema, cuts),
    ensures
        block_rows(block, schema) == Some(rows),
{
    lemma_bytes_read(block.skip(block.len() - 2));
    lemma_rows_found(block, schema, rows, cuts, rows.len());
    assert(rows.take(rows.len() as int) =~= rows);
}

/// The bytes of some rows are those of each, one after the other.
pub proof fn lemma_packed_means(rows: Seq<RowModel>)
    ensures
        packed(rows) == Seq::new(rows.len(), |i: int| row_bytes(rows[i])).flatten(),
    decreases rows.len(),
{
    let pieces = Seq::new(rows.len(), |i: int| row_bytes(rows[i]));
    if rows.len() > 0 {
        let r = rows.drop_last();
        let front = Seq::new(r.len(), |i: int| row_bytes(r[i]));
        lemma_packed_means(r);
        assert(pieces =~= front.push(pieces.last()));
        front.lemma_flatten_push(pieces.last());
    } else {
        assert(pieces =~= Seq::<Seq<u8>>::empty());
        assert(packed(rows) =~= pieces.flatten());
    }
}

/// A block that is written starts with the bytes of its rows, ends with their number, and
/// holds zeros in between.
pub proof fn lemma_block_written(rows: Seq<RowModel>, block_size: nat)
    requires
        block_size >= 2,
        packed(rows).len() <= block_size - 2,
        rows.len() <= 0xffff,
    ensures
        ({
            let block = block_of(rows, block_size);
            let n = packed(rows).len();
            &&& block.len() == block_size
            &&& block.take(n as int) == packed(rows)
            &&& forall|i: int| n <= i < block_size - 2 ==> #[trigger] block[i] == 0
            &&& two_bytes(block.skip(block_size - 2)) == rows.len()
        }),
{
    let block = block_of(rows, block_size);
    let end = crate::bytes::le_bytes(rows.len(), 2);
    lemma_bytes_written(rows.len());
    assert(block.take(packed(rows).len() as int) =~= packed(rows));
    assert(block.skip(block_size - 2) =~= end);
}

/// Blocks are filled one after the other: a row goes to the next block only where it has no
/// room behind the rows of the last, because of its bytes or because they are 65535 already.
pub proof fn lemma_blocks_are_filled(rows: Seq<RowModel>, block_size: nat)
    requires
        block_size >= 2,
        all_fit(rows, block_size),
    ensures
        ({
            let groups = spread(rows, block_size);
            &&& groups.len() >= 1
            &&& groups.flatten() == rows
            &&& forall|i: int|
                0 <= i < groups.len() ==> {
                    &&& packed(#[trigger] groups[i]).len() <= block_size - 2
                    &&& groups[i].len() <= 0xffff
                }
            &&& forall|i: int|
                0 < i < groups.len() ==> {
                    &&& (#[trigger] groups[i]).len() > 0
                    &&& packed(groups[i - 1]).len() + row_bytes(groups[i][0]).len() > block_size - 2
                        || groups[i - 1].len() == 0xffff
                }
        }),
    decreases rows.len(),
{
    let groups = spread(rows, block_size);
    crate::block::lemma_spread(rows, block_size);
    assert forall|i: int| 0 <= i < groups.len() implies {
        &&& packed(#[trigger] groups[i]).len() <= block_size - 2
        &&& groups[i].len() <= 0xffff
    } by {
        assert(crate::block::has_room(groups[i], block_size));
    }
    if rows.len() > 0 {
        let front = rows.drop_last();
        let before = spread(front, block_size);
        assert forall|i: int| 0 <= i < front.len() implies row_bytes(#[trigger] front[i]).len()
            <= block_size - 2 by {
            assert(front[i] == rows[i]);
        }
        lemma_blocks_are_filled(front, block_size);
        let open = before.last().push(rows.last());
        assert(open.drop_last() =~= before.last());
        let last = before.len() - 1;
        assert forall|i: int| 0 < i < groups.len() implies {
            &&& (#[trigger] groups[i]).len() > 0
            &&& packed(groups[i - 1]).len() + row_bytes(groups[i][0]).len() > block_size - 2
                || groups[i - 1].len() == 0xffff
        } by {
            if i <= last {
                assert(before[i].len() > 0);
                assert(before[i][0] == groups[i][0]);
                assert(before[i - 1] == groups[i - 1]);
            } else {
                assert(groups[i] =~= seq![rows.last()]);
                assert(groups[i - 1] == before.last());
                assert(packed(open).len() == packed(before.last()).len() + row_bytes(
                    rows.last(),
                ).len());
            }
        }
    }
}

} // verus!
