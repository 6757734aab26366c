//! Blocks: rows packed from byte 0, and their count in the last two bytes.

use vstd::prelude::*;

use crate::bytes::{le_bytes, le_number, lemma_le_bytes_len, lemma_le_round_trip, lemma_pow256,
    push_le, read_le};
use crate::row::{all_conform, decode_row_at, encode_row, lemma_row_round_trip, row_at, row_bytes,
    Row, RowModel, Schema, SchemaModel};

verus! {

/// The largest row count that two bytes hold.
pub const MAX_BLOCK_ROWS: usize = 65535;

// ── Reading a block ──────────────────────────────────────────────────────────

/// The first `n` rows packed at the front of `data` and how many bytes they take.
pub open spec fn rows_at(data: Seq<u8>, schema: SchemaModel, n: nat) -> Option<
    (Seq<RowModel>, nat),
>
    decreases n,
{
    if n == 0 {
        Some((Seq::empty(), 0))
    } else {
        match rows_at(data, schema, (n - 1) as nat) {
            Some((rows, used)) => match row_at(data.skip(used as int), schema) {
                Some((row, more)) => Some((rows.push(row), used + more)),
                None => None,
            },
            None => None,
        }
    }
}

/// The rows that a block holds; nothing where it is no block of such rows.
pub open spec fn block_rows(block: Seq<u8>, schema: SchemaModel) -> Option<Seq<RowModel>> {
    if block.len() < 2 {
        None
    } else {
        match rows_at(block, schema, le_number(block.skip(block.len() - 2))) {
            Some((rows, _)) => Some(rows),
            None => None,
        }
    }
}

proof fn lemma_rows_at_none(data: Seq<u8>, schema: SchemaModel, n: nat, m: nat)
    requires
        n <= m,
        rows_at(data, schema, n) is None,
    ensures
        rows_at(data, schema, m) is None,
    decreases m,
{
    if n < m {
        lemma_rows_at_none(data, schema, n, (m - 1) as nat);
    }
}

/// Decodes all rows packed in a single block, if it is a block of such rows.
pub fn try_decode_block(block: &[u8], schema: &Schema) -> (r: Option<Vec<Row>>)
    ensures
        match r {
            Some(rows) => {
                &&& block_rows(block@, schema.deep_view()) == Some(rows.deep_view())
                &&& all_conform(rows.deep_view(), schema.deep_view())
            },
            None => block_rows(block@, schema.deep_view()) is None,
        },
{
    let size = block.len();
    if size < 2 {
        return None;
    }
    let count = read_le(block, size - 2, 2);
    let ghost s = schema.deep_view();
    proof {
        assert(block@.subrange(size - 2, size as int) =~= block@.skip(block@.len() - 2));
    }
    let mut rows: Vec<Row> = Vec::new();
    let mut at: usize = 0;
    let mut i: u64 = 0;
    proof {
        assert(rows.deep_view() =~= Seq::<RowModel>::empty());
    }
    while i < count
        invariant
            i <= count,
            at <= block@.len(),
            s == schema.deep_view(),
            count == le_number(block@.skip(block@.len() - 2)),
            rows_at(block@, s, i as nat) == Some((rows.deep_view(), at as nat)),
            all_conform(rows.deep_view(), s),
        decreases count - i,
    {
        match decode_row_at(block, at, schema) {
            Some((row, next)) => {
                let ghost before = rows.deep_view();
                rows.push(row);
                at = next;
                i += 1;
                proof {
                    assert(rows.deep_view() =~= before.push(row.deep_view()));
                }
            },
            None => {
                proof {
                    lemma_rows_at_none(block@, s, (i + 1) as nat, count as nat);
                }
                return None;
            },
        }
    }
    Some(rows)
}

/// Decodes all rows packed in a single block.
///
/// Block layout: rows packed tightly from byte 0; in the last two bytes the row count,
/// low byte first.
pub fn decode_block(block: &[u8], schema: &Schema) -> (rows: Vec<Row>)
    requires
        block_rows(block@, schema.deep_view()) is Some,
    ensures
        block_rows(block@, schema.deep_view()) == Some(rows.deep_view()),
        all_conform(rows.deep_view(), schema.deep_view()),
{
    match try_decode_block(block, schema) {
        Some(rows) => rows,
        None => Vec::new(),
    }
}

// ── Packing rows into blocks ─────────────────────────────────────────────────

/// The bytes of rows packed one after the other.
pub open spec fn packed(rows: Seq<RowModel>) -> Seq<u8>
    decreases rows.len(),
{
    if rows.len() == 0 {
        Seq::empty()
    } else {
        packed(rows.drop_last()) + row_bytes(rows.last())
    }
}

pub open spec fn zeros(n: nat) -> Seq<u8> {
    Seq::new(n, |i: int| 0u8)
}

/// The block that holds the given rows: their bytes, zeros, and their count.
pub open spec fn block_of(rows: Seq<RowModel>, block_size: nat) -> Seq<u8> {
    packed(rows) + zeros((block_size - 2 - packed(rows).len()) as nat) + le_bytes(rows.len(), 2)
}

/// Rows that have room in one block.
pub open spec fn has_room(rows: Seq<RowModel>, block_size: nat) -> bool {
    packed(rows).len() <= block_size - 2 && rows.len() <= MAX_BLOCK_ROWS
}

/// How rows spread over blocks: each goes into the last block while it has room there,
/// and else starts a new one. There is always a last block, if an empty one.
pub open spec fn spread(rows: Seq<RowModel>, block_size: nat) -> Seq<Seq<RowModel>>
    decreases rows.len(),
{
    if rows.len() == 0 {
        seq![Seq::empty()]
    } else {
        let before = spread(rows.drop_last(), block_size);
        let open = before.last().push(rows.last());
        if has_room(open, block_size) {
            before.drop_last().push(open)
        } else {
            before.push(seq![rows.last()])
        }
    }
}

/// Blocks one after the other.
pub open spec fn image(groups: Seq<Seq<RowModel>>, block_size: nat) -> Seq<u8>
    decreases groups.len(),
{
    if groups.len() == 0 {
        Seq::empty()
    } else {
        image(groups.drop_last(), block_size) + block_of(groups.last(), block_size)
    }
}

/// No row is larger than the space of a block.
pub open spec fn all_fit(rows: Seq<RowModel>, block_size: nat) -> bool {
    forall|i: int|
        0 <= i < rows.len() ==> row_bytes(#[trigger] rows[i]).len() <= block_size - 2
}

pub proof fn lemma_block_of_len(rows: Seq<RowModel>, block_size: nat)
    requires
        has_room(rows, block_size),
        block_size >= 2,
    ensures
        block_of(rows, block_size).len() == block_size,
{
    lemma_le_bytes_len(rows.len(), 2);
}

proof fn lemma_packed_one(row: RowModel)
    ensures
        packed(seq![row]) == row_bytes(row),
{
    let one = seq![row];
    assert(one.drop_last() =~= Seq::<RowModel>::empty());
    assert(packed(one.drop_last()).len() == 0);
    assert(packed(one) =~= row_bytes(row));
}

/// Together the groups of the spread are the rows.
proof fn lemma_spread_whole(rows: Seq<RowModel>, block_size: nat)
    ensures
        spread(rows, block_size).len() >= 1,
        spread(rows, block_size).flatten() == rows,
    decreases rows.len(),
{
    let all = spread(rows, block_size);
    if rows.len() == 0 {
        all.lemma_flatten_one_element();
        assert(all.flatten() =~= rows);
    } else {
        let before = spread(rows.drop_last(), block_size);
        let row = rows.last();
        lemma_spread_whole(rows.drop_last(), block_size);
        assert(rows =~= rows.drop_last().push(row));
        let front = before.drop_last();
        let open = before.last().push(row);
        assert(before =~= front.push(before.last()));
        front.lemma_flatten_push(before.last());
        front.lemma_flatten_push(open);
        before.lemma_flatten_push(seq![row]);
        assert(front.flatten() + open =~= (front.flatten() + before.last()).push(row));
        assert(before.flatten() + seq![row] =~= before.flatten().push(row));
    }
}

/// Where every row fits, every group of the spread has room; every group but that of
/// no rows at all has a row, and together the groups are the rows.
pub proof fn lemma_spread(rows: Seq<RowModel>, block_size: nat)
    requires
        block_size >= 2,
        all_fit(rows, block_size),
    ensures
        spread(rows, block_size).len() >= 1,
        forall|i: int|
            0 <= i < spread(rows, block_size).len() ==> has_room(
                #[trigger] spread(rows, block_size)[i],
                block_size,
            ),
        spread(rows, block_size).flatten() == rows,
        spread(rows, block_size).len() <= rows.len() + 1,
        rows.len() > 0 ==> spread(rows, block_size).len() <= rows.len()
            && spread(rows, block_size).last().len() > 0,
    decreases rows.len(),
{
    let all = spread(rows, block_size);
    lemma_spread_whole(rows, block_size);
    if rows.len() == 0 {
        let none = Seq::<RowModel>::empty();
        assert(packed(none).len() == 0);
        assert(all =~= seq![none]);
    } else {
        let before = spread(rows.drop_last(), block_size);
        let row = rows.last();
        assert(all_fit(rows.drop_last(), block_size)) by {
            assert forall|i: int| 0 <= i < rows.drop_last().len() implies row_bytes(
                #[trigger] rows.drop_last()[i],
            ).len() <= block_size - 2 by {
                assert(rows.drop_last()[i] == rows[i]);
            }
        }
        lemma_spread(rows.drop_last(), block_size);
        assert(row_bytes(rows[rows.len() - 1]).len() <= block_size - 2);
        let open = before.last().push(row);
        let alone = seq![row];
        if !has_room(open, block_size) {
            lemma_packed_one(row);
            if rows.drop_last().len() == 0 {
                assert(before.last().len() == 0);
                assert(open =~= alone);
            }
        }
    }
}

/// There are no more blocks than rows.
pub proof fn lemma_spread_len(rows: Seq<RowModel>, block_size: nat)
    requires
        block_size >= 2,
        all_fit(rows, block_size),
    ensures
        spread(rows, block_size).len() <= if rows.len() == 0 {
            1
        } else {
            rows.len()
        },
    decreases rows.len(),
{
    if rows.len() > 0 {
        let front = rows.drop_last();
        assert forall|i: int| 0 <= i < front.len() implies row_bytes(#[trigger] front[i]).len()
            <= block_size - 2 by {
            assert(front[i] == rows[i]);
        }
        lemma_spread_len(front, block_size);
        lemma_spread(rows, block_size);
        lemma_spread(front, block_size);
        if front.len() == 0 {
            let one = Seq::<RowModel>::empty().push(rows.last());
            assert(spread(front, block_size).last() =~= Seq::<RowModel>::empty());
            assert(row_bytes(rows[rows.len() - 1]).len() <= block_size - 2);
            assert(one.drop_last() =~= Seq::<RowModel>::empty());
            assert(packed(one) =~= row_bytes(rows.last()));
        }
    }
}

/// One more row changes no block but the last.
pub proof fn lemma_spread_push(rows: Seq<RowModel>, row: RowModel, block_size: nat)
    requires
        spread(rows, block_size).len() >= 1,
    ensures
        spread(rows, block_size).len() <= spread(rows.push(row), block_size).len() <= spread(
            rows,
            block_size,
        ).len() + 1,
        forall|i: int|
            0 <= i < spread(rows, block_size).len() - 1 ==> #[trigger] spread(
                rows.push(row),
                block_size,
            )[i] == spread(rows, block_size)[i],
{
    assert(rows.push(row).drop_last() =~= rows);
}

proof fn lemma_packed_split(rows: Seq<RowModel>, n: int)
    requires
        0 <= n <= rows.len(),
    ensures
        packed(rows) == packed(rows.take(n)) + packed(rows.skip(n)),
    decreases rows.len(),
{
    if n == rows.len() {
        assert(rows.take(n) =~= rows);
        assert(packed(rows.skip(n)) =~= Seq::<u8>::empty());
        assert(packed(rows) =~= packed(rows.take(n)) + packed(rows.skip(n)));
    } else {
        lemma_packed_split(rows.drop_last(), n);
        assert(rows.drop_last().take(n) =~= rows.take(n));
        assert(rows.skip(n).drop_last() =~= rows.drop_last().skip(n));
        assert(packed(rows) =~= packed(rows.take(n)) + packed(rows.skip(n)));
    }
}

/// Some of the last rows have room where all have.
proof fn lemma_room_for_last(rows: Seq<RowModel>, n: int, block_size: nat)
    requires
        0 <= n <= rows.len(),
        has_room(rows, block_size),
    ensures
        has_room(rows.skip(n), block_size),
{
    lemma_packed_split(rows, n);
}

/// Rows are spread over as few blocks as can be while they keep their order: no way of
/// cutting them into groups that have room each has fewer groups.
pub proof fn lemma_fewest_blocks(
    rows: Seq<RowModel>,
    groups: Seq<Seq<RowModel>>,
    block_size: nat,
)
    requires
        groups.len() > 0,
        groups.flatten() == rows,
        forall|i: int| 0 <= i < groups.len() ==> has_room(#[trigger] groups[i], block_size),
    ensures
        spread(rows, block_size).len() <= groups.len(),
    decreases rows.len(), groups.len(), 1int,
{
    let front = groups.drop_last();
    assert(groups =~= front.push(groups.last()));
    front.lemma_flatten_push(groups.last());
    if groups.last().len() > 0 {
        lemma_spread_ahead(rows, groups, block_size);
    } else if groups.len() == 1 {
        groups.lemma_flatten_one_element();
    } else {
        assert(front.flatten() =~= rows);
        lemma_fewest_blocks(rows, front, block_size);
    }
}

/// The spread has fewer groups than another way of cutting the rows, or as many and no
/// more rows in the last.
proof fn lemma_spread_ahead(rows: Seq<RowModel>, groups: Seq<Seq<RowModel>>, block_size: nat)
    requires
        groups.len() > 0,
        groups.last().len() > 0,
        groups.flatten() == rows,
        forall|i: int| 0 <= i < groups.len() ==> has_room(#[trigger] groups[i], block_size),
    ensures
        ({
            let all = spread(rows, block_size);
            ||| all.len() < groups.len()
            ||| all.len() == groups.len() && all.last().len() <= groups.last().len()
        }),
    decreases rows.len(), groups.len(), 0int,
{
    let front = groups.drop_last();
    let last = groups.last();
    assert(has_room(groups[groups.len() - 1], block_size));
    assert(groups =~= front.push(last));
    front.lemma_flatten_push(last);
    assert(rows.last() == last.last());
    let rest = rows.drop_last();
    let before = spread(rest, block_size);
    lemma_spread_whole(rest, block_size);
    if last.len() > 1 {
        let less = last.drop_last();
        let fewer = front.push(less);
        front.lemma_flatten_push(less);
        assert(fewer.flatten() =~= rest);
        lemma_packed_split(last, last.len() - 1);
        assert(last.take(last.len() - 1) =~= less);
        assert forall|i: int| 0 <= i < fewer.len() implies has_room(
            #[trigger] fewer[i],
            block_size,
        ) by {
            if i < front.len() {
                assert(fewer[i] == groups[i]);
            }
        }
        lemma_spread_ahead(rest, fewer, block_size);
        if before.len() == groups.len() {
            let n = last.len() - 1 - before.last().len();
            let head = before.drop_last();
            assert(before =~= head.push(before.last()));
            head.lemma_flatten_push(before.last());
            let open = before.last().push(rows.last());
            assert(open =~= last.skip(n)) by {
                assert forall|k: int| 0 <= k < before.last().len() implies before.last()[k]
                    == last[n + k] by {
                    assert(rest[rest.len() - before.last().len() + k] == before.last()[k]);
                    assert(rest[rest.len() - less.len() + (n + k)] == less[n + k]);
                }
            }
            lemma_room_for_last(last, n, block_size);
        }
    } else if groups.len() > 1 {
        assert(front.flatten() =~= rest);
        assert forall|i: int| 0 <= i < front.len() implies has_room(
            #[trigger] front[i],
            block_size,
        ) by {
            assert(front[i] == groups[i]);
        }
        lemma_fewest_blocks(rest, front, block_size);
    } else {
        groups.lemma_flatten_one_element();
        assert(rest.len() == 0);
        assert(before.last().push(rows.last()) =~= last);
    }
}

proof fn lemma_rows_at_packed(rows: Seq<RowModel>, schema: SchemaModel, rest: Seq<u8>, n: nat)
    requires
        all_conform(rows, schema),
        n <= rows.len(),
    ensures
        rows_at(packed(rows) + rest, schema, n) == Some(
            (rows.take(n as int), packed(rows.take(n as int)).len()),
        ),
    decreases n,
{
    if n == 0 {
        assert(rows.take(0) =~= Seq::<RowModel>::empty());
    } else {
        let k = (n - 1) as nat;
        lemma_rows_at_packed(rows, schema, rest, k);
        let front = packed(rows.take(k as int));
        let row = rows[k as int];
        let tail = packed(rows.skip(n as int));
        assert(rows.take(n as int).drop_last() =~= rows.take(k as int));
        assert(rows.take(n as int) =~= rows.take(k as int).push(row));
        lemma_packed_split(rows, n as int);
        assert((packed(rows) + rest).skip(front.len() as int) =~= row_bytes(row) + (tail + rest));
        lemma_row_round_trip(row, schema, tail + rest);
    }
}

/// A block made of rows reads back as those rows.
pub proof fn lemma_block_round_trip(rows: Seq<RowModel>, schema: SchemaModel, block_size: nat)
    requires
        block_size >= 2,
        has_room(rows, block_size),
        all_conform(rows, schema),
    ensures
        block_rows(block_of(rows, block_size), schema) == Some(rows),
{
    let block = block_of(rows, block_size);
    let count = le_bytes(rows.len(), 2);
    lemma_block_of_len(rows, block_size);
    lemma_pow256();
    lemma_le_round_trip(rows.len(), 2);
    assert(block.skip(block.len() - 2) =~= count);
    let rest = zeros((block_size - 2 - packed(rows).len()) as nat) + count;
    assert(block =~= packed(rows) + rest);
    lemma_rows_at_packed(rows, schema, rest, rows.len());
    assert(rows.take(rows.len() as int) =~= rows);
}

/// The `i`-th piece of `data`, in pieces of `size`.
pub open spec fn chunk(data: Seq<u8>, i: int, size: nat) -> Seq<u8> {
    data.subrange(i * size, i * size + size)
}

/// The first pieces of a whole number of pieces lie within it.
pub proof fn lemma_chunk_bounds(i: int, n: int, size: nat)
    requires
        0 <= i < n,
    ensures
        0 <= i * size,
        i * size + size <= n * size,
{
    assert(0 <= i * size && i * size + size <= n * size) by (nonlinear_arith)
        requires
            0 <= i,
            i + 1 <= n,
            0 <= size,
    ;
}

/// The image of groups that have room is as many blocks, and its blocks are theirs.
pub proof fn lemma_image(groups: Seq<Seq<RowModel>>, block_size: nat)
    requires
        block_size >= 2,
        forall|i: int| 0 <= i < groups.len() ==> has_room(#[trigger] groups[i], block_size),
    ensures
        image(groups, block_size).len() == groups.len() * block_size,
        forall|i: int|
            0 <= i < groups.len() ==> #[trigger] chunk(image(groups, block_size), i, block_size)
                == block_of(groups[i], block_size),
    decreases groups.len(),
{
    let whole = image(groups, block_size);
    if groups.len() > 0 {
        let front = groups.drop_last();
        let n = front.len() as int;
        assert forall|i: int| 0 <= i < front.len() implies has_room(
            #[trigger] front[i],
            block_size,
        ) by {
            assert(front[i] == groups[i]);
        }
        lemma_image(front, block_size);
        lemma_block_of_len(groups.last(), block_size);
        let part = image(front, block_size);
        assert(whole.len() == groups.len() * block_size) by (nonlinear_arith)
            requires
                whole.len() == n * block_size + block_size,
                groups.len() == n + 1,
        ;
        assert forall|i: int| 0 <= i < groups.len() implies #[trigger] chunk(whole, i, block_size)
            == block_of(groups[i], block_size) by {
            lemma_chunk_bounds(i, n + 1, block_size);
            if i < n {
                lemma_chunk_bounds(i, n, block_size);
                assert(chunk(whole, i, block_size) =~= chunk(part, i, block_size));
            } else {
                assert(chunk(whole, i, block_size) =~= block_of(groups[i], block_size));
            }
        }
    }
}

/// Gathers rows into blocks. `full` holds the blocks that are complete and not yet taken,
/// `open` the bytes of the rows in the block that is being filled.
pub struct BlockPacker {
    pub block_size: usize,
    pub full: Vec<u8>,
    pub open: Vec<u8>,
    pub count: usize,
}

impl BlockPacker {
    /// The packer has been given `rows`, and the first `taken` of their blocks are gone
    /// from it.
    pub open spec fn holds(&self, rows: Seq<RowModel>, taken: nat) -> bool {
        let groups = spread(rows, self.block_size as nat);
        &&& self.block_size >= 2
        &&& all_fit(rows, self.block_size as nat)
        &&& taken < groups.len()
        &&& self.full@ == image(
            groups.drop_last().skip(taken as int),
            self.block_size as nat,
        )
        &&& self.open@ == packed(groups.last())
        &&& self.count == groups.last().len()
    }

    pub fn new(block_size: usize) -> (r: BlockPacker)
        requires
            block_size >= 2,
        ensures
            r.block_size == block_size,
            r.holds(Seq::empty(), 0),
    {
        let r = BlockPacker { block_size, full: Vec::new(), open: Vec::new(), count: 0 };
        proof {
            let none = Seq::<RowModel>::empty();
            let groups = spread(none, block_size as nat);
            assert(groups =~= seq![none]);
            assert(groups.drop_last().skip(0) =~= Seq::<Seq<RowModel>>::empty());
        }
        r
    }

    /// Completes the open block.
    fn close(&mut self)
        requires
            old(self).block_size >= 2,
            old(self).open@.len() <= old(self).block_size - 2,
            old(self).count <= MAX_BLOCK_ROWS,
        ensures
            final(self).block_size == old(self).block_size,
            final(self).full@ == old(self).full@ + (old(self).open@ + zeros(
                (old(self).block_size - 2 - old(self).open@.len()) as nat,
            ) + le_bytes(old(self).count as nat, 2)),
            final(self).open@ == Seq::<u8>::empty(),
            final(self).count == 0,
    {
        let used = self.open.len();
        self.full.append(&mut self.open);
        let pad: usize = self.block_size - 2 - used;
        let mut i: usize = 0;
        proof {
            assert(self.full@ =~= old(self).full@ + old(self).open@ + zeros(0));
        }
        while i < pad
            invariant
                i <= pad,
                self.full@ == old(self).full@ + old(self).open@ + zeros(i as nat),
                self.block_size == old(self).block_size,
                self.count == old(self).count,
                self.open@ == Seq::<u8>::empty(),
            decreases pad - i,
        {
            self.full.push(0);
            i += 1;
            proof {
                assert(self.full@ =~= old(self).full@ + old(self).open@ + zeros(i as nat));
            }
        }
        push_le(&mut self.full, self.count as u64, 2);
        self.count = 0;
        proof {
            assert(self.full@ =~= old(self).full@ + (old(self).open@ + zeros(pad as nat) + le_bytes(
                old(self).count as nat,
                2,
            )));
        }
    }

    /// Adds a row. Refuses one that is larger than the space of a block.
    pub fn push(&mut self, row: &Row, Ghost(rows): Ghost<Seq<RowModel>>, Ghost(taken): Ghost<nat>)
        -> (ok: bool)
        requires
            old(self).holds(rows, taken),
        ensures
            final(self).block_size == old(self).block_size,
            ok == (row_bytes(row.deep_view()).len() <= old(self).block_size - 2),
            ok ==> final(self).holds(rows.push(row.deep_view()), taken),
            !ok ==> final(self).holds(rows, taken),
    {
        let mut encoded = encode_row(row);
        if encoded.len() > self.block_size - 2 {
            return false;
        }
        let ghost bs = self.block_size as nat;
        let ghost groups = spread(rows, bs);
        let ghost more = rows.push(row.deep_view());
        let ghost open = groups.last().push(row.deep_view());
        proof {
            lemma_spread(rows, bs);
            assert(has_room(groups[groups.len() - 1], bs));
            assert(more.drop_last() =~= rows);
            assert(open.drop_last() =~= groups.last());
            assert(packed(open) == packed(groups.last()) + row_bytes(row.deep_view()));
            assert(all_fit(more, bs));
            assert(groups =~= groups.drop_last().push(groups.last()));
        }
        if encoded.len() > self.block_size - 2 - self.open.len() || self.count >= MAX_BLOCK_ROWS {
            self.close();
            proof {
                let alone = seq![row.deep_view()];
                lemma_packed_one(row.deep_view());
                assert(spread(more, bs).drop_last() =~= groups);
                let rest = groups.skip(taken as int);
                assert(rest.drop_last() =~= groups.drop_last().skip(taken as int));
                assert(rest.last() == groups.last());
            }
        } else {
            proof {
                assert(spread(more, bs).drop_last() =~= groups.drop_last());
            }
        }
        self.open.append(&mut encoded);
        self.count = self.count + 1;
        proof {
            assert(self.open@ =~= packed(spread(more, bs).last()));
        }
        true
    }

    /// Completes the last block, so that every block is in `full`.
    pub fn finish(&mut self, Ghost(rows): Ghost<Seq<RowModel>>, Ghost(taken): Ghost<nat>)
        requires
            old(self).holds(rows, taken),
        ensures
            final(self).block_size == old(self).block_size,
            final(self).full@ == image(
                spread(rows, old(self).block_size as nat).skip(taken as int),
                old(self).block_size as nat,
            ),
    {
        let ghost groups = spread(rows, self.block_size as nat);
        proof {
            lemma_spread(rows, self.block_size as nat);
            assert(has_room(groups[groups.len() - 1], self.block_size as nat));
        }
        self.close();
        proof {
            let rest = groups.skip(taken as int);
            assert(rest.drop_last() =~= groups.drop_last().skip(taken as int));
            assert(rest.last() == groups.last());
        }
    }

    /// Hands out the complete blocks.
    pub fn take_full(&mut self, Ghost(rows): Ghost<Seq<RowModel>>, Ghost(taken): Ghost<nat>) -> (r:
        Vec<u8>)
        requires
            old(self).holds(rows, taken),
        ensures
            r@ == old(self).full@,
            final(self).block_size == old(self).block_size,
            final(self).holds(
                rows,
                (spread(rows, old(self).block_size as nat).len() - 1) as nat,
            ),
    {
        let mut r: Vec<u8> = Vec::new();
        std::mem::swap(&mut r, &mut self.full);
        proof {
            let groups = spread(rows, self.block_size as nat);
            let front = groups.drop_last();
            assert(front.skip(front.len() as int) =~= Seq::<Seq<RowModel>>::empty());
        }
        r
    }
}

/// Packs rows into disk blocks, if a block has room for its row count, and each row has
/// room in a block of its own.
pub fn try_rows_to_blocks(rows: &Vec<Row>, block_size: usize) -> (r: Option<Vec<u8>>)
    ensures
        match r {
            Some(bytes) => {
                &&& block_size >= 2
                &&& all_fit(rows.deep_view(), block_size as nat)
                &&& bytes@ == image(
                    spread(rows.deep_view(), block_size as nat),
                    block_size as nat,
                )
            },
            None => block_size < 2 || !all_fit(rows.deep_view(), block_size as nat),
        },
{
    if block_size < 2 {
        return None;
    }
    let ghost all = rows.deep_view();
    let mut packer = BlockPacker::new(block_size);
    let mut i: usize = 0;
    proof {
        assert(all.take(0) =~= Seq::<RowModel>::empty());
    }
    while i < rows.len()
        invariant
            i <= rows.len(),
            all == rows.deep_view(),
            packer.block_size == block_size,
            packer.holds(all.take(i as int), 0),
        decreases rows.len() - i,
    {
        let ok = packer.push(&rows[i], Ghost(all.take(i as int)), Ghost(0));
        if !ok {
            proof {
                assert(row_bytes(all[i as int]).len() > block_size - 2);
            }
            return None;
        }
        proof {
            assert(all.take(i as int).push(all[i as int]) =~= all.take(i + 1));
        }
        i += 1;
    }
    packer.finish(Ghost(all.take(i as int)), Ghost(0));
    proof {
        assert(all.take(i as int) =~= all);
        assert(spread(all, block_size as nat).skip(0) =~= spread(all, block_size as nat));
    }
    Some(packer.full)
}

/// Packs rows into disk blocks.
///
/// Each output block has the layout of the table blocks. The length of the result is a
/// multiple of `block_size`, and there is always at least one block. Rows that do not fit
/// in the current block start a new one; a row is always contained within a single block.
pub fn rows_to_blocks(rows: &Vec<Row>, block_size: usize) -> (bytes: Vec<u8>)
    requires
        block_size >= 2,
        all_fit(rows.deep_view(), block_size as nat),
    ensures
        bytes@ == image(spread(rows.deep_view(), block_size as nat), block_size as nat),
        bytes@.len() == spread(rows.deep_view(), block_size as nat).len() * block_size,
        bytes@.len() >= block_size,
{
    proof {
        let groups = spread(rows.deep_view(), block_size as nat);
        lemma_spread(rows.deep_view(), block_size as nat);
        lemma_image(groups, block_size as nat);
        assert(groups.len() * block_size >= block_size) by (nonlinear_arith)
            requires
                groups.len() >= 1,
                block_size >= 2,
        ;
    }
    match try_rows_to_blocks(rows, block_size) {
        Some(bytes) => bytes,
        None => Vec::new(),
    }
}

} // verus!
