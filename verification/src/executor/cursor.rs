//! Reading the rows of consecutive blocks, some blocks at a time.

use vstd::prelude::*;

use crate::block::{block_of, block_rows, chunk, has_room, image, lemma_block_round_trip,
    lemma_chunk_bounds, lemma_image, lemma_spread, spread, all_fit, try_decode_block};
use crate::disk::{agrees, grows, reads_at_most, written, DiskManager, DiskModel, MAX_REQUEST,
    Request};
use crate::executor::disk_ready;
use crate::row::{all_conform, clone_row, conforms, Row, RowModel, Schema, SchemaModel};

verus! {

/// The rows in `count` blocks from block `start` on; nothing where one of them does not
/// decode.
pub open spec fn region_rows(
    blocks: Map<int, Seq<u8>>,
    schema: SchemaModel,
    start: int,
    count: nat,
) -> Option<Seq<RowModel>>
    decreases count,
{
    if count == 0 {
        Some(Seq::empty())
    } else {
        match (
            region_rows(blocks, schema, start, (count - 1) as nat),
            block_rows(blocks[start + count - 1], schema),
        ) {
            (Some(a), Some(b)) => Some(a + b),
            _ => None,
        }
    }
}

/// One list of rows after another, where there are both.
pub open spec fn then_rows(a: Seq<RowModel>, b: Option<Seq<RowModel>>) -> Option<Seq<RowModel>> {
    match b {
        Some(rows) => Some(a + rows),
        None => None,
    }
}

/// A region is its front and what follows it.
pub proof fn lemma_region_split(
    blocks: Map<int, Seq<u8>>,
    schema: SchemaModel,
    start: int,
    a: nat,
    b: nat,
)
    ensures
        region_rows(blocks, schema, start, a + b) == match region_rows(blocks, schema, start, a) {
            Some(rows) => then_rows(rows, region_rows(blocks, schema, start + a, b)),
            None => None,
        },
    decreases b,
{
    if b == 0 {
        if let Some(rows) = region_rows(blocks, schema, start, a) {
            assert(rows + Seq::<RowModel>::empty() =~= rows);
        }
    } else {
        let k = (b - 1) as nat;
        lemma_region_split(blocks, schema, start, a, k);
        assert((a + b - 1) as nat == a + k);
        assert(start + (a + b) - 1 == (start + a) + b - 1);
        if let (Some(x), Some(y), Some(z)) = (
            region_rows(blocks, schema, start, a),
            region_rows(blocks, schema, start + a, k),
            block_rows(blocks[start + (a + b) - 1], schema),
        ) {
            assert((x + y) + z =~= x + (y + z));
        }
    }
}

/// What a region holds depends on its blocks alone.
pub proof fn lemma_region_same(
    blocks: Map<int, Seq<u8>>,
    other: Map<int, Seq<u8>>,
    schema: SchemaModel,
    start: int,
    count: nat,
)
    requires
        forall|b: int| start <= b < start + count ==> #[trigger] other[b] == blocks[b],
    ensures
        region_rows(other, schema, start, count) == region_rows(blocks, schema, start, count),
    decreases count,
{
    if count > 0 {
        lemma_region_same(blocks, other, schema, start, (count - 1) as nat);
        assert(other[start + count - 1] == blocks[start + count - 1]);
    }
}

/// Rows that have been packed and written are the rows of the region they went to.
pub proof fn lemma_region_written(
    blocks: Map<int, Seq<u8>>,
    schema: SchemaModel,
    start: int,
    groups: Seq<Seq<RowModel>>,
    block_size: nat,
)
    requires
        block_size >= 2,
        forall|i: int| 0 <= i < groups.len() ==> has_room(#[trigger] groups[i], block_size),
        forall|i: int| 0 <= i < groups.len() ==> all_conform(#[trigger] groups[i], schema),
        forall|i: int|
            0 <= i < groups.len() ==> #[trigger] blocks[start + i] == block_of(
                groups[i],
                block_size,
            ),
    ensures
        region_rows(blocks, schema, start, groups.len()) == Some(groups.flatten()),
    decreases groups.len(),
{
    if groups.len() == 0 {
        assert(groups.flatten() =~= Seq::<RowModel>::empty());
    } else {
        let front = groups.drop_last();
        assert forall|i: int| 0 <= i < front.len() implies has_room(
            #[trigger] front[i],
            block_size,
        ) && all_conform(front[i], schema) by {
            assert(front[i] == groups[i]);
        }
        lemma_region_written(blocks, schema, start, front, block_size);
        let n = groups.len() - 1;
        assert(blocks[start + n] == block_of(groups[n], block_size));
        assert(has_room(groups[n], block_size) && all_conform(groups[n], schema));
        lemma_block_round_trip(groups[n], schema, block_size);
        front.lemma_flatten_push(groups.last());
        assert(groups =~= front.push(groups.last()));
    }
}

/// Rows that are packed and written are the rows of the blocks they go to.
pub proof fn lemma_region_stored(
    blocks: Map<int, Seq<u8>>,
    schema: SchemaModel,
    start: int,
    rows: Seq<RowModel>,
    block_size: nat,
)
    requires
        block_size >= 2,
        all_fit(rows, block_size),
        all_conform(rows, schema),
    ensures
        ({
            let data = image(spread(rows, block_size), block_size);
            &&& data.len() % block_size == 0
            &&& data.len() / block_size == spread(rows, block_size).len()
            &&& region_rows(
                written(blocks, start, data, block_size),
                schema,
                start,
                data.len() / block_size,
            ) == Some(rows)
        }),
{
    let groups = spread(rows, block_size);
    let data = image(groups, block_size);
    let after = written(blocks, start, data, block_size);
    lemma_spread(rows, block_size);
    lemma_image(groups, block_size);
    let n = groups.len();
    vstd::arithmetic::div_mod::lemma_div_multiples_vanish(n as int, block_size as int);
    vstd::arithmetic::div_mod::lemma_mod_multiples_basic(n as int, block_size as int);
    assert(data.len() == n * block_size && n * block_size == block_size * n) by (nonlinear_arith)
        requires
            data.len() == n * block_size,
    ;
    assert forall|i: int| 0 <= i < groups.len() implies all_conform(
        #[trigger] groups[i],
        schema,
    ) by {
        lemma_group_conforms(groups, schema, i);
    }
    assert forall|i: int| 0 <= i < groups.len() implies #[trigger] after[start + i] == block_of(
        groups[i],
        block_size,
    ) by {
        assert(chunk(data, i, block_size) == block_of(groups[i], block_size));
        assert(start + i - start == i);
    }
    lemma_region_written(after, schema, start, groups, block_size);
}

/// Where all rows of some groups conform, those of each group do.
pub proof fn lemma_group_conforms(groups: Seq<Seq<RowModel>>, schema: SchemaModel, i: int)
    requires
        0 <= i < groups.len(),
        all_conform(groups.flatten(), schema),
    ensures
        all_conform(groups[i], schema),
    decreases groups.len(),
{
    let front = groups.drop_last();
    assert(groups =~= front.push(groups.last()));
    front.lemma_flatten_push(groups.last());
    let whole = groups.flatten();
    assert(whole == front.flatten() + groups.last());
    if i == groups.len() - 1 {
        assert forall|k: int| 0 <= k < groups[i].len() implies conforms(
            #[trigger] groups[i][k],
            schema,
        ) by {
            assert(whole[front.flatten().len() + k] == groups[i][k]);
        }
    } else {
        assert forall|k: int| 0 <= k < front.flatten().len() implies conforms(
            #[trigger] front.flatten()[k],
            schema,
        ) by {
            assert(whole[k] == front.flatten()[k]);
        }
        lemma_group_conforms(front, schema, i);
    }
}

/// The rows in the first `count` pieces of `data`.
pub open spec fn chunk_rows(
    data: Seq<u8>,
    schema: SchemaModel,
    count: nat,
    block_size: nat,
) -> Option<Seq<RowModel>>
    decreases count,
{
    if count == 0 {
        Some(Seq::empty())
    } else {
        match (
            chunk_rows(data, schema, (count - 1) as nat, block_size),
            block_rows(chunk(data, count - 1, block_size), schema),
        ) {
            (Some(a), Some(b)) => Some(a + b),
            _ => None,
        }
    }
}

proof fn lemma_chunk_rows_none(
    data: Seq<u8>,
    schema: SchemaModel,
    n: nat,
    m: nat,
    block_size: nat,
)
    requires
        n <= m,
        chunk_rows(data, schema, n, block_size) is None,
    ensures
        chunk_rows(data, schema, m, block_size) is None,
    decreases m,
{
    if n < m {
        lemma_chunk_rows_none(data, schema, n, (m - 1) as nat, block_size);
    }
}

proof fn lemma_chunk_rows_agree(
    data: Seq<u8>,
    blocks: Map<int, Seq<u8>>,
    schema: SchemaModel,
    start: int,
    count: nat,
    n: nat,
    block_size: nat,
)
    requires
        agrees(data, blocks, start, count, block_size),
        n <= count,
    ensures
        chunk_rows(data, schema, n, block_size) == region_rows(blocks, schema, start, n),
    decreases n,
{
    if n > 0 {
        lemma_chunk_rows_agree(data, blocks, schema, start, count, (n - 1) as nat, block_size);
        assert(chunk(data, n - 1, block_size) == blocks[start + (n - 1)]);
        assert(start + (n - 1) == start + n - 1);
    }
}

/// Decodes the blocks that an answer of the disk consists of.
pub fn decode_blocks(raw: &Vec<u8>, count: u64, block_size: usize, schema: &Schema) -> (r: Option<
    Vec<Row>,
>)
    requires
        raw@.len() == count * block_size,
        count <= usize::MAX,
    ensures
        match r {
            Some(rows) => {
                &&& chunk_rows(raw@, schema.deep_view(), count as nat, block_size as nat) == Some(
                    rows.deep_view(),
                )
                &&& all_conform(rows.deep_view(), schema.deep_view())
            },
            None => chunk_rows(
                raw@,
                schema.deep_view(),
                count as nat,
                block_size as nat,
            ) is None,
        },
{
    let ghost s = schema.deep_view();
    let ghost bs = block_size as nat;
    let mut rows: Vec<Row> = Vec::new();
    let mut i: u64 = 0;
    let mut at: usize = 0;
    proof {
        assert(rows.deep_view() =~= Seq::<RowModel>::empty());
    }
    while i < count
        invariant
            i <= count,
            at == i * block_size,
            raw@.len() == count * block_size,
            s == schema.deep_view(),
            bs == block_size as nat,
            chunk_rows(raw@, s, i as nat, bs) == Some(rows.deep_view()),
            all_conform(rows.deep_view(), s),
        decreases count - i,
    {
        proof {
            lemma_chunk_bounds(i as int, count as int, bs);
            assert(raw.len() == raw@.len());
            assert((i + 1) * block_size == i * block_size + block_size) by (nonlinear_arith);
        }
        let piece = vstd::slice::slice_subrange(raw.as_slice(), at, at + block_size);
        assert(piece@ =~= chunk(raw@, i as int, bs));
        match try_decode_block(piece, schema) {
            Some(more) => {
                let ghost before = rows.deep_view();
                let ghost added = more.deep_view();
                let mut more = more;
                rows.append(&mut more);
                i += 1;
                at = at + block_size;
                proof {
                    assert(rows.deep_view() =~= before + added);
                }
            },
            None => {
                proof {
                    lemma_chunk_rows_none(raw@, s, (i + 1) as nat, count as nat, bs);
                }
                return None;
            },
        }
    }
    Some(rows)
}

/// What came of an attempt to read more.
pub enum Fill {
    /// The next rows are there.
    Ready,
    /// The disk has to answer first.
    Pending,
    /// The blocks do not decode.
    Failed,
}

/// The requests that read blocks `from` to `total` of a region, `batch` blocks at a time:
/// each is for the next blocks, as many as that or as there are left.
pub open spec fn read_plan(start: nat, total: nat, from: nat, batch: nat) -> Seq<Request>
    decreases total - from,
{
    if from >= total || batch == 0 {
        Seq::empty()
    } else {
        let count = if total - from < batch {
            (total - from) as nat
        } else {
            batch
        };
        seq![Request::Read { start: start + from, count }] + read_plan(
            start,
            total,
            from + count,
            batch,
        )
    }
}

/// How many reads there are does not depend on where the region starts.
pub proof fn lemma_plan_len(a: nat, b: nat, total: nat, from: nat, batch: nat)
    ensures
        read_plan(a, total, from, batch).len() == read_plan(b, total, from, batch).len(),
    decreases total - from,
{
    if from < total && batch > 0 {
        let count = if total - from < batch {
            (total - from) as nat
        } else {
            batch
        };
        lemma_plan_len(a, b, total, from + count, batch);
    }
}

/// A region that is read 64 blocks at a time takes a request for every 64 blocks, and one
/// for the rest.
pub proof fn lemma_read_plan(start: nat, total: nat, from: nat)
    requires
        from <= total,
    ensures
        ({
            let plan = read_plan(start, total, from, 64);
            &&& plan.len() == (total - from + 63) / 64
            &&& forall|k: int|
                0 <= k < plan.len() ==> #[trigger] plan[k] == (Request::Read {
                    start: (start + from + 64 * k) as nat,
                    count: if total - from - 64 * k < 64 {
                        (total - from - 64 * k) as nat
                    } else {
                        64
                    },
                })
        }),
    decreases total - from,
{
    if from < total {
        let plan = read_plan(start, total, from, 64);
        let count: nat = if total - from < 64 {
            (total - from) as nat
        } else {
            64
        };
        lemma_read_plan(start, total, from + count);
        let rest = read_plan(start, total, from + count, 64);
        assert forall|k: int| 0 <= k < plan.len() implies #[trigger] plan[k] == (Request::Read {
            start: (start + from + 64 * k) as nat,
            count: if total - from - 64 * k < 64 {
                (total - from - 64 * k) as nat
            } else {
                64
            },
        }) by {
            if k > 0 {
                assert(plan[k] == rest[k - 1]);
            }
        }
    }
}

/// A place in the rows of consecutive blocks. `buffer` holds the rows of the blocks read
/// last, of which those before `at` have been handed out.
pub struct BlockCursor {
    pub schema: Schema,
    /// The first block.
    pub start: u64,
    /// The number of blocks.
    pub total: u64,
    /// How many blocks have been read.
    pub blocks_read: u64,
    /// How many blocks to ask for at a time.
    pub batch: u64,
    pub buffer: Vec<Row>,
    pub at: usize,
}

impl BlockCursor {
    pub open spec fn wf(&self) -> bool {
        &&& self.start + self.total <= u64::MAX
        &&& self.blocks_read <= self.total
        &&& 1 <= self.batch <= MAX_REQUEST
        &&& self.at <= self.buffer@.len()
        &&& all_conform(self.buffer.deep_view(), self.schema.deep_view())
    }

    /// All rows that have been read have been handed out, and there are blocks to read.
    pub open spec fn hungry(&self) -> bool {
        self.at >= self.buffer@.len() && self.blocks_read < self.total
    }

    /// The number of blocks to read next.
    pub open spec fn bite(&self) -> u64 {
        if self.total - self.blocks_read < self.batch {
            (self.total - self.blocks_read) as u64
        } else {
            self.batch
        }
    }

    pub open spec fn want(&self) -> Option<(u64, u64)> {
        if self.hungry() {
            Some(((self.start + self.blocks_read) as u64, self.bite()))
        } else {
            None
        }
    }

    pub open spec fn placed(&self, d: DiskModel) -> bool {
        self.start + self.total <= d.next
    }

    /// The requests that are still to be made, when the disk is free or busy with what is
    /// wanted.
    pub open spec fn reads_left(&self, disk: &DiskManager) -> Seq<Request> {
        self.reads_when(disk.idle())
    }

    /// The requests that are still to be made, when the disk is free or else busy with what
    /// is wanted.
    pub open spec fn reads_when(&self, idle: bool) -> Seq<Request> {
        read_plan(
            self.start as nat,
            self.total as nat,
            if idle {
                self.blocks_read as nat
            } else {
                (self.blocks_read + self.bite()) as nat
            },
            self.batch as nat,
        )
    }

    /// The rows still to come.
    pub open spec fn rows(&self, d: DiskModel) -> Option<Seq<RowModel>> {
        then_rows(
            self.buffer.deep_view().skip(self.at as int),
            region_rows(
                d.blocks,
                self.schema.deep_view(),
                self.start + self.blocks_read,
                (self.total - self.blocks_read) as nat,
            ),
        )
    }

    pub open spec fn work(&self, d: DiskModel) -> nat {
        match self.rows(d) {
            Some(rows) => rows.len() + (self.total - self.blocks_read) as nat,
            None => 0,
        }
    }

    pub proof fn lemma_grows(&self, d: DiskModel, d2: DiskModel)
        requires
            self.wf(),
            self.placed(d),
            grows(d, d2),
        ensures
            self.placed(d2),
            self.rows(d2) == self.rows(d),
            self.work(d2) == self.work(d),
    {
        lemma_region_same(
            d.blocks,
            d2.blocks,
            self.schema.deep_view(),
            self.start + self.blocks_read,
            (self.total - self.blocks_read) as nat,
        );
    }

    /// A cursor at the first of the given blocks.
    pub fn new(schema: Schema, start: u64, total: u64, batch: u64) -> (r: BlockCursor)
        requires
            start + total <= u64::MAX,
            1 <= batch <= MAX_REQUEST,
        ensures
            r.wf(),
            r.schema.deep_view() == schema.deep_view(),
            r.start == start,
            r.total == total,
            r.blocks_read == 0,
            r.batch == batch,
            r.buffer@.len() == 0,
            r.at == 0,
            forall|d: DiskModel|
                #![trigger r.rows(d)]
                r.rows(d) == region_rows(d.blocks, schema.deep_view(), start as int, total as nat),
    {
        let r = BlockCursor {
            schema,
            start,
            total,
            blocks_read: 0,
            batch,
            buffer: Vec::new(),
            at: 0,
        };
        proof {
            assert forall|d: DiskModel| #![trigger r.rows(d)] r.rows(d) == region_rows(
                d.blocks,
                schema.deep_view(),
                start as int,
                total as nat,
            ) by {
                if let Some(rows) = region_rows(
                    d.blocks,
                    schema.deep_view(),
                    start as int,
                    total as nat,
                ) {
                    assert(r.buffer.deep_view().skip(0) + rows =~= rows);
                }
            }
        }
        r
    }

    /// Goes back to the first block.
    pub fn rewind(&mut self)
        requires
            old(self).wf(),
        ensures
            final(self).wf(),
            final(self).schema == old(self).schema,
            final(self).start == old(self).start,
            final(self).total == old(self).total,
            final(self).batch == old(self).batch,
            final(self).blocks_read == 0,
            final(self).buffer@.len() == 0,
            final(self).at == 0,
            forall|d: DiskModel|
                #![trigger final(self).rows(d)]
                final(self).rows(d) == region_rows(
                    d.blocks,
                    old(self).schema.deep_view(),
                    old(self).start as int,
                    old(self).total as nat,
                ),
    {
        self.blocks_read = 0;
        self.buffer = Vec::new();
        self.at = 0;
        proof {
            assert forall|d: DiskModel| #![trigger self.rows(d)] self.rows(d) == region_rows(
                d.blocks,
                self.schema.deep_view(),
                self.start as int,
                self.total as nat,
            ) by {
                if let Some(rows) = region_rows(
                    d.blocks,
                    self.schema.deep_view(),
                    self.start as int,
                    self.total as nat,
                ) {
                    assert(self.buffer.deep_view().skip(0) + rows =~= rows);
                }
            }
        }
    }

    /// Whether a row is there to be handed out.
    pub fn has_row(&self) -> (r: bool)
        ensures
            r == (self.at < self.buffer@.len()),
    {
        self.at < self.buffer.len()
    }

    /// Whether there are blocks to read.
    pub fn has_blocks(&self) -> (r: bool)
        ensures
            r == (self.blocks_read < self.total),
    {
        self.blocks_read < self.total
    }

    /// Hands out the next row.
    pub fn take(&mut self) -> (row: Row)
        requires
            old(self).wf(),
            old(self).at < old(self).buffer@.len(),
        ensures
            final(self).wf(),
            *final(self) == (BlockCursor { at: final(self).at, ..*old(self) }),
            final(self).at == old(self).at + 1,
            row.deep_view() == old(self).buffer.deep_view()[old(self).at as int],
            conforms(row.deep_view(), old(self).schema.deep_view()),
            forall|d: DiskModel|
                #![trigger final(self).rows(d)]
                match old(self).rows(d) {
                    Some(rows) => {
                        &&& rows.len() > 0
                        &&& row.deep_view() == rows[0]
                        &&& final(self).rows(d) == Some(rows.drop_first())
                        &&& final(self).work(d) < old(self).work(d)
                    },
                    None => final(self).rows(d) is None,
                },
    {
        let row = clone_row(&self.buffer[self.at]);
        assert(self.at < self.buffer.len());
        self.at = self.at + 1;
        proof {
            let all = self.buffer.deep_view();
            let i = old(self).at as int;
            assert(row.deep_view() == all[i]);
            assert forall|d: DiskModel|
                #![trigger self.rows(d)]
                match old(self).rows(d) {
                    Some(rows) => {
                        &&& rows.len() > 0
                        &&& row.deep_view() == rows[0]
                        &&& self.rows(d) == Some(rows.drop_first())
                        &&& self.work(d) < old(self).work(d)
                    },
                    None => self.rows(d) is None,
                } by {
                if let Some(rows) = old(self).rows(d) {
                    let rest = region_rows(
                        d.blocks,
                        self.schema.deep_view(),
                        self.start + self.blocks_read,
                        (self.total - self.blocks_read) as nat,
                    )->0;
                    assert(rows == all.skip(i) + rest);
                    assert(rows.drop_first() =~= all.skip(i + 1) + rest);
                }
            }
        }
        row
    }

    /// Reads the next blocks.
    pub fn fill(&mut self, disk: &mut DiskManager) -> (f: Fill)
        requires
            old(self).wf(),
            old(self).hungry(),
            old(disk).wf(),
            disk_ready(old(disk), old(self).want()),
        ensures
            final(self).wf(),
            final(disk).wf(),
            final(disk)@ == old(disk)@,
            reads_at_most(old(disk), final(disk)),
            final(disk).follows(old(disk)),
            final(self).schema == old(self).schema,
            final(self).start == old(self).start,
            final(self).total == old(self).total,
            final(self).batch == old(self).batch,
            f is Pending ==> {
                &&& *final(self) == *old(self)
                &&& final(disk).awaiting()
                &&& disk_ready(final(disk), final(self).want())
                &&& !(old(disk).link is HasBlocks)
            },
            !(f is Pending) ==> final(disk).idle(),
            f is Failed ==> *final(self) == *old(self),
            final(disk).world@.requests == if old(disk).idle() {
                old(disk).world@.requests.push(
                    (Request::Read {
                        start: (old(self).start + old(self).blocks_read) as nat,
                        count: old(self).bite() as nat,
                    }),
                )
            } else {
                old(disk).world@.requests
            },
            !(f is Failed) ==> final(disk).world@.requests + final(self).reads_left(final(disk))
                == old(disk).world@.requests + old(self).reads_left(old(disk)),
            f is Ready ==> {
                &&& final(self).at == 0
                &&& final(self).blocks_read == old(self).blocks_read + old(self).bite()
            },
            old(disk)@.healthy ==> match f {
                Fill::Ready => {
                    &&& final(self).rows(old(disk)@) == old(self).rows(old(disk)@)
                    &&& old(self).rows(old(disk)@) is Some ==> final(self).work(old(disk)@)
                        < old(self).work(old(disk)@)
                },
                Fill::Pending => true,
                Fill::Failed => old(self).rows(old(disk)@) is None,
            },
    {
        let ghost d = disk@;
        let first: u64 = self.start + self.blocks_read;
        let left: u64 = self.total - self.blocks_read;
        let count: u64 = if left < self.batch { left } else { self.batch };
        let block_size = disk.block_size();
        let ghost s = self.schema.deep_view();
        proof {
            assert(count * block_size <= block_size * MAX_REQUEST) by (nonlinear_arith)
                requires
                    0 <= count <= MAX_REQUEST,
                    0 <= block_size,
            ;
        }
        match disk.read_blocks(first, count) {
            None => {
                proof {
                    if old(disk).idle() {
                        let r = Request::Read { start: first as nat, count: count as nat };
                        let rest = self.reads_left(disk);
                        assert(old(disk).world@.requests.push(r) + rest
                            =~= old(disk).world@.requests + (seq![r] + rest));
                    }
                }
                Fill::Pending
            },
            Some(raw) => {
                proof {
                    lemma_region_split(
                        d.blocks,
                        s,
                        first as int,
                        count as nat,
                        (left - count) as nat,
                    );
                    assert((count as nat) + (left - count) as nat == left as nat);
                    if d.healthy {
                        lemma_chunk_rows_agree(
                            raw@,
                            d.blocks,
                            s,
                            first as int,
                            count as nat,
                            count as nat,
                            block_size as nat,
                        );
                    }
                    assert(self.buffer.deep_view().skip(self.at as int) =~= Seq::<
                        RowModel,
                    >::empty());
                }
                match decode_blocks(&raw, count, block_size, &self.schema) {
                    Some(rows) => {
                        let ghost before = *self;
                        self.buffer = rows;
                        self.at = 0;
                        self.blocks_read = self.blocks_read + count;
                        proof {
                            let now = self.buffer.deep_view();
                            assert(now.skip(0) =~= now);
                            let rest = region_rows(
                                d.blocks,
                                s,
                                first + count,
                                (left - count) as nat,
                            );
                            if let Some(more) = rest {
                                assert(Seq::<RowModel>::empty() + (now + more) =~= now + more);
                            }
                        }
                        Fill::Ready
                    },
                    None => Fill::Failed,
                }
            },
        }
    }
}

} // verus!
