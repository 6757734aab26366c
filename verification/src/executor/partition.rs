//! Rows divided by the hash of their keys, and kept on disk.

use vstd::prelude::*;
use vstd::utf8::encode_utf8;

use crate::block::{all_fit, image, lemma_spread_len, spread, try_rows_to_blocks};
use crate::data::{Data, Value};
use crate::disk::{grows, reads_at_most, DiskManager, DiskModel, Request};
use crate::executor::cursor::{lemma_region_same, lemma_region_stored, region_rows, then_rows,
    BlockCursor, Fill};
use crate::executor::jointable::indices_ok;
use crate::executor::parttraffic::{flush_from, flush_part, give_row, no_parts, segments_reads,
    Dividing, PartModel};
use crate::executor::sorter::capped;
use crate::executor::{disk_ready, step_advances, step_follows, Step};
use crate::key::{hash_partition, key_of, make_join_key, partition_of};
use crate::row::{all_conform, clone_schema, conforms, row_bytes, Row, RowModel, Schema,
    SchemaModel};

verus! {

/// Number of hash partitions.
pub const NUM_PARTITIONS: usize = 16;

/// Per-partition in-memory buffer before it goes to disk.
pub const FLUSH_THRESHOLD: usize = 262144;

/// Number of blocks to read from disk in a single request.
pub const READ_BATCH: u64 = 16;

/// The bytes that a value is taken to occupy in a join.
pub open spec fn value_weight(v: Value) -> nat {
    match v {
        Value::Text(s) => 32 + encode_utf8(s).len(),
        _ => 8,
    }
}

pub open spec fn values_weight(row: RowModel) -> nat
    decreases row.len(),
{
    if row.len() == 0 {
        0
    } else {
        values_weight(row.drop_last()) + value_weight(row.last())
    }
}

/// The bytes that a row is taken to occupy in a join.
pub open spec fn row_weight(row: RowModel) -> nat {
    values_weight(row) + 32
}

/// The bytes that rows are taken to occupy in a join.
pub open spec fn rows_weight(rows: Seq<RowModel>) -> nat
    decreases rows.len(),
{
    if rows.len() == 0 {
        0
    } else {
        rows_weight(rows.drop_last()) + row_weight(rows.last())
    }
}

/// The bytes that a row is taken to occupy in a join.
pub fn estimate_row_bytes(row: &Row) -> (r: usize)
    ensures
        r == capped(row_weight(row.deep_view())),
{
    let ghost all = row.deep_view();
    let mut n: usize = 0;
    let mut i: usize = 0;
    proof {
        assert(all.take(0) =~= Seq::<Value>::empty());
    }
    while i < row.len()
        invariant
            i <= row.len(),
            all == row.deep_view(),
            n == capped(values_weight(all.take(i as int))),
        decreases row.len() - i,
    {
        let bytes: usize = match &row[i] {
            Data::String(s) => {
                let len: usize = s.as_str().as_bytes().len();
                len.saturating_add(32)
            },
            _ => 8,
        };
        n = n.saturating_add(bytes);
        proof {
            assert(row[i as int].deep_view() == all[i as int]);
            assert(all.take(i + 1).drop_last() =~= all.take(i as int));
            assert(all.take(i + 1).last() == all[i as int]);
        }
        i += 1;
    }
    proof {
        assert(all.take(i as int) =~= all);
    }
    n.saturating_add(32)
}

// ── Segments ─────────────────────────────────────────────────────────────────

/// Where some rows of a partition lie.
#[derive(Clone, Copy, Debug)]
pub struct PartMeta {
    pub start_block: u64,
    pub num_blocks: u64,
}

/// The rows in some segments.
pub open spec fn segments_rows(
    blocks: Map<int, Seq<u8>>,
    schema: SchemaModel,
    segments: Seq<PartMeta>,
) -> Option<Seq<RowModel>>
    decreases segments.len(),
{
    if segments.len() == 0 {
        Some(Seq::empty())
    } else {
        match region_rows(
            blocks,
            schema,
            segments[0].start_block as int,
            segments[0].num_blocks as nat,
        ) {
            Some(rows) => then_rows(rows, segments_rows(blocks, schema, segments.drop_first())),
            None => None,
        }
    }
}

/// The first block and the number of blocks of each segment.
pub open spec fn places(segments: Seq<PartMeta>) -> Seq<(nat, nat)> {
    Seq::new(
        segments.len(),
        |k: int| (segments[k].start_block as nat, segments[k].num_blocks as nat),
    )
}

/// The number of blocks in some segments.
pub open spec fn segments_blocks(segments: Seq<PartMeta>) -> nat
    decreases segments.len(),
{
    if segments.len() == 0 {
        0
    } else {
        segments[0].num_blocks as nat + segments_blocks(segments.drop_first())
    }
}

/// Block numbers of the segments do not overflow.
pub open spec fn segments_ok(segments: Seq<PartMeta>) -> bool {
    forall|k: int|
        0 <= k < segments.len() ==> {
            let seg = #[trigger] segments[k];
            seg.start_block + seg.num_blocks <= u64::MAX
        }
}

/// The segments lie in used blocks.
pub open spec fn segments_used(segments: Seq<PartMeta>, d: DiskModel) -> bool {
    forall|k: int|
        0 <= k < segments.len() ==> {
            let seg = #[trigger] segments[k];
            seg.start_block + seg.num_blocks <= d.next
        }
}

proof fn lemma_segments_push(
    blocks: Map<int, Seq<u8>>,
    schema: SchemaModel,
    segments: Seq<PartMeta>,
    seg: PartMeta,
)
    ensures
        segments_rows(blocks, schema, segments.push(seg)) == match segments_rows(
            blocks,
            schema,
            segments,
        ) {
            Some(rows) => then_rows(
                rows,
                region_rows(blocks, schema, seg.start_block as int, seg.num_blocks as nat),
            ),
            None => None,
        },
        segments_blocks(segments.push(seg)) == segments_blocks(segments) + seg.num_blocks,
    decreases segments.len(),
{
    let last = region_rows(blocks, schema, seg.start_block as int, seg.num_blocks as nat);
    let more = segments.push(seg);
    if segments.len() == 0 {
        assert(more.drop_first() =~= segments);
        if let Some(rows) = last {
            assert(rows + Seq::<RowModel>::empty() =~= rows);
            assert(Seq::<RowModel>::empty() + rows =~= rows);
        }
    } else {
        let rest = segments.drop_first();
        lemma_segments_push(blocks, schema, rest, seg);
        assert(more.drop_first() =~= rest.push(seg));
        if let (Some(a), Some(b), Some(c)) = (
            region_rows(
                blocks,
                schema,
                segments[0].start_block as int,
                segments[0].num_blocks as nat,
            ),
            segments_rows(blocks, schema, rest),
            last,
        ) {
            assert(a + (b + c) =~= (a + b) + c);
        }
    }
}

proof fn lemma_segments_same(
    d: DiskModel,
    d2: DiskModel,
    schema: SchemaModel,
    segments: Seq<PartMeta>,
)
    requires
        grows(d, d2),
        segments_used(segments, d),
    ensures
        segments_used(segments, d2),
        segments_rows(d2.blocks, schema, segments) == segments_rows(d.blocks, schema, segments),
    decreases segments.len(),
{
    if segments.len() > 0 {
        let rest = segments.drop_first();
        assert(segments_used(rest, d)) by {
            assert forall|k: int| 0 <= k < rest.len() implies {
                let seg = #[trigger] rest[k];
                seg.start_block + seg.num_blocks <= d.next
            } by {
                assert(rest[k] == segments[k + 1]);
            }
        }
        lemma_segments_same(d, d2, schema, rest);
        lemma_region_same(
            d.blocks,
            d2.blocks,
            schema,
            segments[0].start_block as int,
            segments[0].num_blocks as nat,
        );
    }
}

/// Reads rows back from a list of segments.
pub struct PartitionReader {
    pub schema: Schema,
    pub segments: Vec<PartMeta>,
    /// How many segments have been opened.
    pub seg_idx: usize,
    pub cursor: BlockCursor,
}

impl PartitionReader {
    pub closed spec fn wf(&self) -> bool {
        &&& self.cursor.wf()
        &&& self.cursor.batch == READ_BATCH
        &&& if self.seg_idx == 0 {
            self.cursor.total == 0
        } else {
            &&& self.cursor.start == self.segments@[self.seg_idx - 1].start_block
            &&& self.cursor.total == self.segments@[self.seg_idx - 1].num_blocks
        }
        &&& self.cursor.schema.deep_view() == self.schema.deep_view()
        &&& self.seg_idx <= self.segments@.len()
        &&& segments_ok(self.segments@)
    }

    pub closed spec fn placed(&self, d: DiskModel) -> bool {
        self.cursor.placed(d) && segments_used(self.segments@.skip(self.seg_idx as int), d)
    }

    /// When all rows that have been read have been handed out, the next unread blocks of the
    /// current segment, `READ_BATCH` of them or as many as there are.
    pub open spec fn want(&self) -> Option<(u64, u64)> {
        let c = self.cursor;
        if c.at >= c.buffer@.len() && c.blocks_read < c.total {
            Some(
                (
                    (c.start + c.blocks_read) as u64,
                    if c.total - c.blocks_read < READ_BATCH {
                        (c.total - c.blocks_read) as u64
                    } else {
                        READ_BATCH
                    },
                ),
            )
        } else {
            None
        }
    }

    /// The blocks that are wanted are the first unread ones of a segment, and do not reach
    /// past its end.
    pub proof fn lemma_wants_of_segment(&self)
        requires
            self.wf(),
        ensures
            self.want() matches Some((first, count)) ==> {
                &&& 1 <= self.seg_idx <= self.segments@.len()
                &&& ({
                    let seg = self.segments@[self.seg_idx - 1];
                    let unread = seg.num_blocks - self.cursor.blocks_read;
                    &&& first == seg.start_block + self.cursor.blocks_read
                    &&& count == if unread < READ_BATCH {
                        unread
                    } else {
                        READ_BATCH as int
                    }
                    &&& first + count <= seg.start_block + seg.num_blocks
                })
            },
    {
    }

    /// The reads that are still to be asked for, when the disk is free or busy with what is
    /// wanted.
    pub open spec fn reads_left(&self, disk: &DiskManager) -> Seq<Request> {
        self.reads_when(disk.idle())
    }

    /// The reads that are still to be asked for, when the disk is free or else busy with
    /// what is wanted.
    pub closed spec fn reads_when(&self, idle: bool) -> Seq<Request> {
        self.cursor.reads_when(idle) + segments_reads(
            places(self.segments@.skip(self.seg_idx as int)),
        )
    }

    /// The rows still to come.
    pub closed spec fn rows(&self, d: DiskModel) -> Option<Seq<RowModel>> {
        match self.cursor.rows(d) {
            Some(rows) => then_rows(
                rows,
                segments_rows(
                    d.blocks,
                    self.schema.deep_view(),
                    self.segments@.skip(self.seg_idx as int),
                ),
            ),
            None => None,
        }
    }

    pub closed spec fn work(&self, d: DiskModel) -> nat {
        match self.rows(d) {
            Some(rows) => rows.len() + (self.cursor.total - self.cursor.blocks_read) as nat
                + segments_blocks(self.segments@.skip(self.seg_idx as int)) + (self.segments@.len()
                - self.seg_idx) as nat,
            None => 0,
        }
    }

    pub proof fn lemma_grows(&self, d: DiskModel, d2: DiskModel)
        requires
            self.wf(),
            self.placed(d),
            grows(d, d2),
        ensures
            self.placed(d2),
            self.rows(d2) == self.rows(d),
            self.work(d2) == self.work(d),
    {
        self.cursor.lemma_grows(d, d2);
        lemma_segments_same(
            d,
            d2,
            self.schema.deep_view(),
            self.segments@.skip(self.seg_idx as int),
        );
    }

    /// A reader of the segments.
    pub fn new(schema: Schema, segments: Vec<PartMeta>) -> (r: PartitionReader)
        requires
            segments_ok(segments@),
        ensures
            r.wf(),
            r.schema.deep_view() == schema.deep_view(),
            r.want() is None,
            forall|d: DiskModel| #[trigger]
                r.placed(d) <==> segments_used(segments@, d) && 0 <= d.next,
            r.reads_when(true) == segments_reads(places(segments@)),
            forall|d: DiskModel| #[trigger]
                r.rows(d) == segments_rows(d.blocks, schema.deep_view(), segments@),
            forall|d: DiskModel|
                (#[trigger] r.rows(d)) matches Some(rows) ==> r.work(d) == rows.len()
                    + segments_blocks(segments@) + segments@.len(),
    {
        let cursor = BlockCursor::new(clone_schema(&schema), 0, 0, READ_BATCH);
        let r = PartitionReader { schema, segments, seg_idx: 0, cursor };
        proof {
            assert(r.segments@.skip(0) =~= segments@);
            assert(r.cursor.reads_when(true) =~= Seq::<Request>::empty());
            assert(r.reads_when(true) =~= segments_reads(places(segments@)));
            assert forall|d: DiskModel| #[trigger]
                r.rows(d) == segments_rows(d.blocks, schema.deep_view(), segments@) by {
                assert(r.cursor.rows(d) == Some(Seq::<RowModel>::empty()));
                if let Some(rows) = segments_rows(d.blocks, schema.deep_view(), segments@) {
                    assert(Seq::<RowModel>::empty() + rows =~= rows);
                }
            }
        }
        r
    }

    /// Makes one step to the next row.
    pub fn next_row(&mut self, disk: &mut DiskManager) -> (s: Step)
        requires
            old(self).wf(),
            old(disk).wf(),
            disk_ready(old(disk), old(self).want()),
        ensures
            final(self).wf(),
            final(self).schema == old(self).schema,
            final(disk).wf(),
            final(disk)@ == old(disk)@,
            reads_at_most(old(disk), final(disk)),
            final(disk).follows(old(disk)),
            !(s is Failed) ==> disk_ready(final(disk), final(self).want()),
            s is Row || s is Done ==> final(disk).idle(),
            s is Done ==> *final(self) == *old(self),
            !(s is Failed) ==> final(disk).world@.requests + final(self).reads_left(final(disk))
                == old(disk).world@.requests + old(self).reads_left(old(disk)),
            s is Done ==> final(self).reads_left(final(disk)) == Seq::<Request>::empty(),
            old(self).want() is None ==> *final(disk) == *old(disk),
            old(self).want() matches Some((first, count)) ==> final(disk).world@.requests
                == if old(disk).idle() {
                old(disk).world@.requests.push(
                    (Request::Read { start: first as nat, count: count as nat }),
                )
            } else {
                old(disk).world@.requests
            },
            s matches Step::Row(r) ==> conforms(r.deep_view(), old(self).schema.deep_view()),
            final(disk)@.healthy && old(self).placed(old(disk)@) ==> {
                &&& !(s is Failed) ==> final(self).placed(final(disk)@)
                &&& step_follows(
                    old(self).rows(old(disk)@),
                    final(self).rows(final(disk)@),
                    s,
                )
                &&& old(self).rows(old(disk)@) is Some && !(s is Done) ==> step_advances(
                    old(self).work(old(disk)@),
                    final(self).work(final(disk)@),
                    old(disk),
                    final(disk),
                )
            },
    {
        let ghost before = *self;
        let ghost d = disk@;
        let ghost later = segments_rows(
            d.blocks,
            self.schema.deep_view(),
            self.segments@.skip(self.seg_idx as int),
        );
        if self.cursor.has_row() {
            let row = self.cursor.take();
            proof {
                if let (Some(a), Some(b)) = (before.cursor.rows(d), later) {
                    assert((a + b).drop_first() =~= a.drop_first() + b);
                }
            }
            return Step::Row(row);
        }
        let ghost ahead = segments_reads(places(self.segments@.skip(self.seg_idx as int)));
        if self.cursor.has_blocks() {
            let filled = self.cursor.fill(disk);
            proof {
                let (a, b) = (old(disk).world@.requests, before.cursor.reads_left(old(disk)));
                let (x, y) = (disk.world@.requests, self.cursor.reads_left(disk));
                assert(a + (b + ahead) =~= (a + b) + ahead);
                assert(x + (y + ahead) =~= (x + y) + ahead);
            }
            return match filled {
                Fill::Ready => Step::Pending,
                Fill::Pending => Step::Pending,
                Fill::Failed => Step::Failed,
            };
        }
        proof {
            assert(before.cursor.rows(d) == Some(Seq::<RowModel>::empty()));
            if let Some(rows) = later {
                assert(Seq::<RowModel>::empty() + rows =~= rows);
            }
            assert(before.cursor.reads_left(disk) =~= Seq::<Request>::empty());
            assert(before.reads_left(disk) =~= ahead);
        }
        if self.seg_idx >= self.segments.len() {
            return Step::Done;
        }
        let seg = self.segments[self.seg_idx];
        let ghost rest = self.segments@.skip(self.seg_idx as int);
        let schema = clone_schema(&self.schema);
        assert(self.seg_idx < self.segments.len());
        self.cursor = BlockCursor::new(schema, seg.start_block, seg.num_blocks, READ_BATCH);
        self.seg_idx = self.seg_idx + 1;
        proof {
            assert(rest[0] == seg);
            assert(rest.drop_first() =~= self.segments@.skip(self.seg_idx as int));
            assert(places(rest).drop_first() =~= places(rest.drop_first()));
            assert(self.reads_left(disk) =~= ahead);
            if before.placed(d) {
                assert forall|k: int|
                    0 <= k < self.segments@.skip(self.seg_idx as int).len() implies {
                    let s = #[trigger] self.segments@.skip(self.seg_idx as int)[k];
                    s.start_block + s.num_blocks <= d.next
                } by {
                    assert(rest[k + 1] == self.segments@.skip(self.seg_idx as int)[k]);
                }
            }
        }
        Step::Pending
    }
}

// ── One partition ────────────────────────────────────────────────────────────

/// The rows of a partition: those in segments on disk, and those in `buf`.
pub struct Partition {
    pub buf: Vec<Row>,
    pub buf_bytes: usize,
    pub segments: Vec<PartMeta>,
    pub rows: Ghost<Seq<RowModel>>,
}

impl Partition {
    pub closed spec fn wf(&self, schema: SchemaModel) -> bool {
        &&& all_conform(self.buf.deep_view(), schema)
        &&& self.buf_bytes == rows_weight(self.buf.deep_view())
        &&& self.buf_bytes < FLUSH_THRESHOLD
        &&& segments_ok(self.segments@)
        &&& self.segments@.len() > 0 || self.buf@.len() > 0 ==> self.rows@.len() > 0
    }

    pub closed spec fn placed(&self, d: DiskModel, schema: SchemaModel) -> bool {
        &&& segments_used(self.segments@, d)
        &&& match segments_rows(d.blocks, schema, self.segments@) {
            Some(rows) => {
                &&& rows + self.buf.deep_view() == self.rows@
                &&& all_fit(rows, d.block_size)
                &&& segments_blocks(self.segments@) + self.segments@.len() <= 2 * rows.len()
            },
            None => false,
        }
    }

    /// All rows are on disk.
    pub open spec fn flushed(&self) -> bool {
        self.buf@.len() == 0
    }

    pub proof fn lemma_grows(&self, d: DiskModel, d2: DiskModel, schema: SchemaModel)
        requires
            self.placed(d, schema),
            grows(d, d2),
        ensures
            self.placed(d2, schema),
    {
        lemma_segments_same(d, d2, schema, self.segments@);
    }

    /// An empty partition.
    pub fn new(Ghost(schema): Ghost<SchemaModel>) -> (r: Partition)
        ensures
            r.wf(schema),
            r.rows@ == Seq::<RowModel>::empty(),
            r.buf@.len() == 0,
            r.segments@.len() == 0,
            forall|d: DiskModel| #[trigger] r.placed(d, schema),
    {
        let r = Partition {
            buf: Vec::new(),
            buf_bytes: 0,
            segments: Vec::new(),
            rows: Ghost(Seq::empty()),
        };
        proof {
            assert(r.buf.deep_view() =~= Seq::<RowModel>::empty());
            assert(Seq::<RowModel>::empty() + Seq::<RowModel>::empty() =~= Seq::<
                RowModel,
            >::empty());
        }
        r
    }

    /// Writes the rows in `buf` to the disk.
    fn flush(&mut self, schema: &Schema, disk: &mut DiskManager) -> (ok: bool)
        requires
            old(disk).wf(),
            old(disk).idle(),
            all_conform(old(self).buf.deep_view(), schema.deep_view()),
            segments_ok(old(self).segments@),
            old(self).segments@.len() > 0 || old(self).buf@.len() > 0 ==> old(self).rows@.len() > 0,
        ensures
            final(disk).wf(),
            final(disk).idle(),
            final(disk).follows(old(disk)),
            grows(old(disk)@, final(disk)@),
            final(self).wf(schema.deep_view()),
            final(self).flushed(),
            final(self).rows == old(self).rows,
            old(self).buf@.len() == 0 ==> {
                &&& ok
                &&& *final(disk) == *old(disk)
                &&& final(self).segments == old(self).segments
            },
            ok && old(self).buf@.len() > 0 ==> {
                let bs = old(disk).block_size as nat;
                let groups = spread(old(self).buf.deep_view(), bs);
                let seg = final(self).segments@.last();
                &&& final(self).segments@ == old(self).segments@.push(seg)
                &&& seg.start_block == old(disk)@.next
                &&& seg.num_blocks == groups.len()
                &&& seg.start_block + seg.num_blocks == final(disk)@.next
                &&& final(disk).world@.requests == old(disk).world@.requests.push(
                    (Request::Write { start: seg.start_block as nat, data: image(groups, bs) }),
                )
            },
            final(disk)@.healthy && old(self).placed(old(disk)@, schema.deep_view()) ==> if ok {
                final(self).placed(final(disk)@, schema.deep_view())
            } else {
                !all_fit(old(self).rows@, old(disk)@.block_size)
            },
    {
        let ghost before = *self;
        let ghost d = disk@;
        let ghost s = schema.deep_view();
        let ghost open = self.buf.deep_view();
        let mut buf: Vec<Row> = Vec::new();
        std::mem::swap(&mut buf, &mut self.buf);
        self.buf_bytes = 0;
        proof {
            assert(self.buf.deep_view() =~= Seq::<RowModel>::empty());
        }
        if buf.len() == 0 {
            proof {
                assert(open =~= self.buf.deep_view());
            }
            return true;
        }
        let block_size = disk.block_size();
        let blocks = match try_rows_to_blocks(&buf, block_size) {
            Some(blocks) => blocks,
            None => {
                proof {
                    if before.placed(d, s) {
                        let rows = segments_rows(d.blocks, s, before.segments@)->0;
                        if block_size < 2 {
                            assert(row_bytes(open[0]).len() > block_size - 2);
                        }
                        let k = choose|k: int|
                            0 <= k < open.len() && !(row_bytes(#[trigger] open[k]).len()
                                <= block_size - 2);
                        assert(before.rows@[rows.len() + k] == open[k]);
                    }
                }
                return false;
            },
        };
        proof {
            lemma_region_stored(d.blocks, s, d.next, open, block_size as nat);
            lemma_spread_len(open, block_size as nat);
        }
        match disk.store(blocks) {
            Some((start_block, num_blocks)) => {
                let seg = PartMeta { start_block, num_blocks };
                self.segments.push(seg);
                proof {
                    if disk@.healthy && before.placed(d, s) {
                        lemma_segments_same(d, disk@, s, before.segments@);
                        lemma_segments_push(disk@.blocks, s, before.segments@, seg);
                        let rows = segments_rows(d.blocks, s, before.segments@)->0;
                        assert(rows + open + Seq::<RowModel>::empty() =~= rows + open);
                        assert forall|k: int| 0 <= k < (rows + open).len() implies row_bytes(
                            #[trigger] (rows + open)[k],
                        ).len() <= d.block_size - 2 by {
                            if k >= rows.len() {
                                assert(open[k - rows.len()] == (rows + open)[k]);
                            }
                        }
                    }
                }
                true
            },
            None => false,
        }
    }

    /// Adds a row, and writes the rows to the disk where there are many.
    fn push_row(&mut self, row: Row, schema: &Schema, disk: &mut DiskManager) -> (ok: bool)
        requires
            old(disk).wf(),
            old(disk).idle(),
            old(self).wf(schema.deep_view()),
            conforms(row.deep_view(), schema.deep_view()),
        ensures
            final(disk).wf(),
            final(disk).idle(),
            final(disk).follows(old(disk)),
            grows(old(disk)@, final(disk)@),
            final(self).wf(schema.deep_view()),
            ok ==> final(self).rows@ == old(self).rows@.push(row.deep_view()),
            ({
                let buf = old(self).buf.deep_view().push(row.deep_view());
                let bs = old(disk).block_size as nat;
                if rows_weight(buf) < FLUSH_THRESHOLD {
                    &&& ok
                    &&& *final(disk) == *old(disk)
                    &&& final(self).buf.deep_view() == buf
                    &&& final(self).segments == old(self).segments
                } else {
                    &&& final(self).buf@.len() == 0
                    &&& ok ==> {
                        let seg = final(self).segments@.last();
                        &&& final(self).segments@ == old(self).segments@.push(seg)
                        &&& seg.start_block == old(disk)@.next
                        &&& seg.num_blocks == spread(buf, bs).len()
                        &&& seg.start_block + seg.num_blocks == final(disk)@.next
                        &&& final(disk).world@.requests == old(disk).world@.requests.push(
                            (Request::Write {
                                start: seg.start_block as nat,
                                data: image(spread(buf, bs), bs),
                            }),
                        )
                    }
                }
            }),
            final(disk)@.healthy && old(self).placed(old(disk)@, schema.deep_view()) ==> if ok {
                final(self).placed(final(disk)@, schema.deep_view())
            } else {
                !all_fit(old(self).rows@.push(row.deep_view()), old(disk)@.block_size)
            },
    {
        let ghost before = *self;
        let ghost d = disk@;
        let ghost s = schema.deep_view();
        let ghost r = row.deep_view();
        let ghost open = self.buf.deep_view();
        let bytes = estimate_row_bytes(&row);
        self.buf_bytes = self.buf_bytes.saturating_add(bytes);
        self.buf.push(row);
        self.rows = Ghost(self.rows@.push(r));
        proof {
            assert(self.buf.deep_view() =~= open.push(r));
            assert(open.push(r).drop_last() =~= open);
            if before.placed(d, s) {
                let rows = segments_rows(d.blocks, s, before.segments@)->0;
                assert(rows + open.push(r) =~= (rows + open).push(r));
                assert(self.placed(d, s));
            }
        }
        if self.buf_bytes >= FLUSH_THRESHOLD {
            return self.flush(schema, disk);
        }
        true
    }

    /// What a reader of the segments needs to know.
    proof fn lemma_flushed(&self, d: DiskModel, schema: SchemaModel)
        requires
            self.placed(d, schema),
            self.flushed(),
        ensures
            segments_used(self.segments@, d),
            segments_rows(d.blocks, schema, self.segments@) == Some(self.rows@),
            segments_blocks(self.segments@) + self.segments@.len() <= 2 * self.rows@.len(),
            all_fit(self.rows@, d.block_size),
    {
        let rows = segments_rows(d.blocks, schema, self.segments@)->0;
        assert(self.buf.deep_view() =~= Seq::<RowModel>::empty());
        assert(rows + self.buf.deep_view() =~= rows);
    }
}

// ── All partitions ───────────────────────────────────────────────────────────

/// The rows whose keys belong to a partition, in their order.
pub open spec fn in_partition(indices: Seq<usize>, rows: Seq<RowModel>, p: nat) -> Seq<RowModel>
    decreases rows.len(),
{
    if rows.len() == 0 {
        Seq::empty()
    } else {
        let front = in_partition(indices, rows.drop_last(), p);
        if partition_of(key_of(indices, rows.last()), NUM_PARTITIONS as nat) == p {
            front.push(rows.last())
        } else {
            front
        }
    }
}

/// What fits of all rows fits of each partition, and the other way round.
proof fn lemma_partitions_fit(indices: Seq<usize>, rows: Seq<RowModel>, block_size: nat)
    ensures
        all_fit(rows, block_size) <==> (forall|p: nat|
            p < NUM_PARTITIONS ==> all_fit(#[trigger] in_partition(indices, rows, p), block_size)),
    decreases rows.len(),
{
    if rows.len() > 0 {
        let front = rows.drop_last();
        lemma_partitions_fit(indices, front, block_size);
        let last = rows.last();
        let q = partition_of(key_of(indices, last), NUM_PARTITIONS as nat);
        assert(q < NUM_PARTITIONS);
        if all_fit(rows, block_size) {
            assert forall|k: int| 0 <= k < front.len() implies row_bytes(#[trigger] front[k]).len()
                <= block_size - 2 by {
                assert(front[k] == rows[k]);
            }
            assert(row_bytes(rows[rows.len() - 1]).len() <= block_size - 2);
            assert forall|p: nat| p < NUM_PARTITIONS implies all_fit(
                #[trigger] in_partition(indices, rows, p),
                block_size,
            ) by {
                assert(all_fit(in_partition(indices, front, p), block_size));
            }
        }
        if forall|p: nat|
            p < NUM_PARTITIONS ==> all_fit(#[trigger] in_partition(indices, rows, p), block_size) {
            assert forall|p: nat| p < NUM_PARTITIONS implies all_fit(
                #[trigger] in_partition(indices, front, p),
                block_size,
            ) by {
                let part = in_partition(indices, front, p);
                let more = in_partition(indices, rows, p);
                assert(all_fit(more, block_size));
                assert forall|k: int| 0 <= k < part.len() implies row_bytes(
                    #[trigger] part[k],
                ).len() <= block_size - 2 by {
                    assert(more[k] == part[k]);
                }
            }
            let more = in_partition(indices, rows, q);
            assert(all_fit(more, block_size));
            assert(more[more.len() - 1] == last);
            assert forall|k: int| 0 <= k < rows.len() implies row_bytes(#[trigger] rows[k]).len()
                <= block_size - 2 by {
                if k < front.len() {
                    assert(rows[k] == front[k]);
                }
            }
        }
    } else {
        assert forall|p: nat| p < NUM_PARTITIONS implies all_fit(
            #[trigger] in_partition(indices, rows, p),
            block_size,
        ) by {}
    }
}

/// Rows divided into partitions. `given` are all rows that have been given.
pub struct PartitionBuffers {
    /// The key columns.
    pub indices: Vec<usize>,
    pub schema: Schema,
    pub parts: Vec<Partition>,
    pub given: Ghost<Seq<RowModel>>,
}

/// Two segments have no block in common.
pub open spec fn disjoint(a: PartMeta, b: PartMeta) -> bool {
    a.start_block + a.num_blocks <= b.start_block || b.start_block + b.num_blocks <= a.start_block
}

/// No two segments of some partitions have a block in common.
pub open spec fn segments_apart(parts: Seq<Partition>) -> bool {
    forall|p: int, i: int, q: int, j: int|
        #![trigger parts[p].segments@[i], parts[q].segments@[j]]
        0 <= p < parts.len() && 0 <= q < parts.len() && 0 <= i < parts[p].segments@.len() && 0 <= j
            < parts[q].segments@.len() && (p != q || i != j) ==> disjoint(
            parts[p].segments@[i],
            parts[q].segments@[j],
        )
}

/// A segment behind all others is apart from them.
proof fn lemma_segment_added(
    before: Seq<Partition>,
    after: Seq<Partition>,
    p: int,
    d: DiskModel,
)
    requires
        segments_apart(before),
        0 <= p < before.len(),
        after.len() == before.len(),
        forall|q: int|
            0 <= q < before.len() ==> segments_used((#[trigger] before[q]).segments@, d),
        forall|q: int|
            0 <= q < before.len() && q != p ==> (#[trigger] after[q]).segments
                == before[q].segments,
        after[p].segments@ == before[p].segments@ || (after[p].segments@
            == before[p].segments@.push(after[p].segments@.last())
            && after[p].segments@.last().start_block >= d.next),
    ensures
        segments_apart(after),
{
    assert forall|a: int, i: int, b: int, j: int|
        #![trigger after[a].segments@[i], after[b].segments@[j]]
        0 <= a < after.len() && 0 <= b < after.len() && 0 <= i < after[a].segments@.len() && 0 <= j
            < after[b].segments@.len() && (a != b || i != j) implies disjoint(
        after[a].segments@[i],
        after[b].segments@[j],
    ) by {
        assert(segments_used(before[a].segments@, d));
        assert(segments_used(before[b].segments@, d));
        let old_a = i < before[a].segments@.len();
        let old_b = j < before[b].segments@.len();
        if old_a {
            assert(after[a].segments@[i] == before[a].segments@[i]);
        }
        if old_b {
            assert(after[b].segments@[j] == before[b].segments@[j]);
        }
        if old_a && old_b {
            assert(disjoint(before[a].segments@[i], before[b].segments@[j]));
        }
    }
}

impl PartitionBuffers {
    pub closed spec fn wf(&self) -> bool {
        let s = self.schema.deep_view();
        &&& self.parts@.len() == NUM_PARTITIONS
        &&& indices_ok(self.indices@, s.len())
        &&& forall|p: int|
            0 <= p < NUM_PARTITIONS ==> {
                let part = #[trigger] self.parts@[p];
                &&& part.wf(s)
                &&& part.rows@ == in_partition(self.indices@, self.given@, p as nat)
            }
    }

    pub closed spec fn placed(&self, d: DiskModel) -> bool {
        &&& segments_apart(self.parts@)
        &&& forall|p: int|
            0 <= p < self.parts@.len() ==> (#[trigger] self.parts@[p]).placed(
                d,
                self.schema.deep_view(),
            )
    }

    /// What each partition has in memory and on disk.
    pub open spec fn model(&self) -> Seq<PartModel> {
        Seq::new(
            self.parts@.len(),
            |p: int|
                PartModel {
                    buf: self.parts@[p].buf.deep_view(),
                    segments: places(self.parts@[p].segments@),
                },
        )
    }

    /// How far dividing has come.
    pub open spec fn state(&self, disk: &DiskManager) -> Dividing {
        Dividing {
            parts: self.model(),
            requests: disk.world@.requests,
            next: disk@.next as nat,
        }
    }

    /// All rows are on disk.
    pub closed spec fn flushed(&self) -> bool {
        forall|p: int| 0 <= p < self.parts@.len() ==> (#[trigger] self.parts@[p]).flushed()
    }

    pub proof fn lemma_grows(&self, d: DiskModel, d2: DiskModel)
        requires
            self.placed(d),
            grows(d, d2),
        ensures
            self.placed(d2),
    {
        assert forall|p: int| 0 <= p < self.parts@.len() implies (#[trigger] self.parts@[p]).placed(
            d2,
            self.schema.deep_view(),
        ) by {
            self.parts@[p].lemma_grows(d, d2, self.schema.deep_view());
        }
    }

    /// The rows of each partition that are in memory weigh less than the threshold.
    pub proof fn lemma_held(&self)
        requires
            self.wf(),
        ensures
            self.parts@.len() == NUM_PARTITIONS,
            forall|p: int|
                0 <= p < NUM_PARTITIONS ==> rows_weight((#[trigger] self.parts@[p]).buf.deep_view())
                    < FLUSH_THRESHOLD,
    {
    }

    pub proof fn lemma_fit(&self, d: DiskModel)
        requires
            self.wf(),
            self.placed(d),
            self.flushed(),
        ensures
            all_fit(self.given@, d.block_size),
    {
        lemma_partitions_fit(self.indices@, self.given@, d.block_size);
        assert forall|p: nat| p < NUM_PARTITIONS implies all_fit(
            #[trigger] in_partition(self.indices@, self.given@, p),
            d.block_size,
        ) by {
            let part = self.parts@[p as int];
            assert(part.placed(d, self.schema.deep_view()));
            assert(part.flushed());
            part.lemma_flushed(d, self.schema.deep_view());
        }
    }

    proof fn lemma_added(&self, before: PartitionBuffers, p: int, d: DiskModel)
        requires
            before.placed(d),
            before.parts@.len() == self.parts@.len(),
            0 <= p < before.parts@.len(),
            forall|q: int|
                0 <= q < before.parts@.len() && q != p ==> #[trigger] self.parts@[q]
                    == before.parts@[q],
            self.parts@[p].segments@ == before.parts@[p].segments@ || (self.parts@[p].segments@
                == before.parts@[p].segments@.push(self.parts@[p].segments@.last())
                && self.parts@[p].segments@.last().start_block >= d.next),
        ensures
            segments_apart(self.parts@),
    {
        assert forall|q: int| 0 <= q < before.parts@.len() implies segments_used(
            (#[trigger] before.parts@[q]).segments@,
            d,
        ) by {
            assert(before.parts@[q].placed(d, before.schema.deep_view()));
        }
        lemma_segment_added(before.parts@, self.parts@, p, d);
    }

    /// A segment that has been added is the last of the places.
    proof fn lemma_place_added(before: Seq<PartMeta>, after: Seq<PartMeta>, groups: nat)
        requires
            after.len() == before.len() + 1,
            after == before.push(after.last()),
            after.last().num_blocks == groups,
        ensures
            places(after) == places(before).push((after.last().start_block as nat, groups)),
    {
        assert(places(after) =~= places(before).push((after.last().start_block as nat, groups)));
    }

    proof fn lemma_part_flushed(
        &self,
        before: PartitionBuffers,
        p: int,
        old_disk: DiskManager,
        disk: DiskManager,
    )
        requires
            0 <= p < before.parts@.len(),
            self.parts@ == before.parts@.update(p, self.parts@[p]),
            self.parts@[p].buf@.len() == 0,
            0 <= old_disk@.next,
            ({
                let (was, now) = (before.parts@[p], self.parts@[p]);
                let bs = old_disk.block_size as nat;
                let groups = spread(was.buf.deep_view(), bs);
                if was.buf@.len() == 0 {
                    disk == old_disk && now.segments == was.segments
                } else {
                    let seg = now.segments@.last();
                    &&& now.segments@ == was.segments@.push(seg)
                    &&& seg.start_block == old_disk@.next
                    &&& seg.num_blocks == groups.len()
                    &&& seg.start_block + seg.num_blocks == disk@.next
                    &&& disk.world@.requests == old_disk.world@.requests.push(
                        (Request::Write { start: seg.start_block as nat, data: image(groups, bs) }),
                    )
                }
            }),
        ensures
            self.state(&disk) == flush_part(before.state(&old_disk), p, old_disk@.block_size),
    {
        let flushed = flush_part(before.state(&old_disk), p, old_disk@.block_size);
        let (was, now) = (before.parts@[p], self.parts@[p]);
        assert(now.buf.deep_view() =~= Seq::<RowModel>::empty());
        if was.buf@.len() == 0 {
            assert(was.buf.deep_view() =~= Seq::<RowModel>::empty());
        } else {
            Self::lemma_place_added(
                was.segments@,
                now.segments@,
                spread(was.buf.deep_view(), old_disk@.block_size).len(),
            );
        }
        assert(self.model() =~= flushed.parts);
    }

    proof fn lemma_row_given(
        &self,
        before: PartitionBuffers,
        p: int,
        r: RowModel,
        old_disk: DiskManager,
        disk: DiskManager,
    )
        requires
            before.parts@.len() == NUM_PARTITIONS,
            0 <= p < NUM_PARTITIONS,
            p == partition_of(key_of(before.indices@, r), NUM_PARTITIONS as nat),
            self.parts@ == before.parts@.update(p, self.parts@[p]),
            0 <= old_disk@.next,
            ({
                let (was, now) = (before.parts@[p], self.parts@[p]);
                let buf = was.buf.deep_view().push(r);
                let bs = old_disk.block_size as nat;
                if rows_weight(buf) < FLUSH_THRESHOLD {
                    &&& disk == old_disk
                    &&& now.buf.deep_view() == buf
                    &&& now.segments == was.segments
                } else {
                    let seg = now.segments@.last();
                    &&& now.buf@.len() == 0
                    &&& now.segments@ == was.segments@.push(seg)
                    &&& seg.start_block == old_disk@.next
                    &&& seg.num_blocks == spread(buf, bs).len()
                    &&& seg.start_block + seg.num_blocks == disk@.next
                    &&& disk.world@.requests == old_disk.world@.requests.push(
                        (Request::Write {
                            start: seg.start_block as nat,
                            data: image(spread(buf, bs), bs),
                        }),
                    )
                }
            }),
        ensures
            self.state(&disk) == give_row(
                before.state(&old_disk),
                before.indices@,
                r,
                old_disk@.block_size,
            ),
    {
        let given = give_row(before.state(&old_disk), before.indices@, r, old_disk@.block_size);
        let (was, now) = (before.parts@[p], self.parts@[p]);
        if now.segments@.len() == was.segments@.len() + 1 {
            Self::lemma_place_added(
                was.segments@,
                now.segments@,
                spread(was.buf.deep_view().push(r), old_disk@.block_size).len(),
            );
            assert(now.buf.deep_view() =~= Seq::<RowModel>::empty());
        }
        assert(self.model() =~= given.parts);
    }

    /// Empty partitions.
    pub fn new(indices: Vec<usize>, schema: Schema) -> (r: PartitionBuffers)
        requires
            indices_ok(indices@, schema@.len()),
        ensures
            r.wf(),
            r.indices == indices,
            r.schema == schema,
            r.given@ == Seq::<RowModel>::empty(),
            r.model() == no_parts(),
            forall|d: DiskModel| #[trigger] r.placed(d),
    {
        let ghost s = schema.deep_view();
        let mut parts: Vec<Partition> = Vec::new();
        let mut i: usize = 0;
        while i < NUM_PARTITIONS
            invariant
                i <= NUM_PARTITIONS,
                parts@.len() == i,
                forall|p: int|
                    0 <= p < i ==> {
                        let part = #[trigger] parts@[p];
                        &&& part.wf(s)
                        &&& part.rows@ == Seq::<RowModel>::empty()
                        &&& part.buf@.len() == 0
                        &&& part.segments@.len() == 0
                        &&& forall|d: DiskModel| #[trigger] part.placed(d, s)
                    },
            decreases NUM_PARTITIONS - i,
        {
            parts.push(Partition::new(Ghost(s)));
            i += 1;
        }
        let r = PartitionBuffers { indices, schema, parts, given: Ghost(Seq::empty()) };
        proof {
            assert forall|p: int| 0 <= p < NUM_PARTITIONS implies #[trigger] r.model()[p]
                == no_parts()[p] by {
                let part = r.parts@[p];
                assert(part.buf.deep_view() =~= Seq::<RowModel>::empty());
                assert(places(part.segments@) =~= Seq::<(nat, nat)>::empty());
            }
            assert(r.model() =~= no_parts());
        }
        r
    }

    /// Adds a row to the partition of its key.
    pub fn push_row(&mut self, row: Row, disk: &mut DiskManager) -> (ok: bool)
        requires
            old(disk).wf(),
            old(disk).idle(),
            old(self).wf(),
            conforms(row.deep_view(), old(self).schema.deep_view()),
        ensures
            final(disk).wf(),
            final(disk).idle(),
            final(disk).follows(old(disk)),
            grows(old(disk)@, final(disk)@),
            final(self).indices == old(self).indices,
            final(self).schema == old(self).schema,
            ok ==> {
                &&& final(self).wf()
                &&& final(self).given@ == old(self).given@.push(row.deep_view())
                &&& final(self).state(final(disk)) == give_row(
                    old(self).state(old(disk)),
                    old(self).indices@,
                    row.deep_view(),
                    old(disk)@.block_size,
                )
            },
            ({
                let p = partition_of(
                    key_of(old(self).indices@, row.deep_view()),
                    NUM_PARTITIONS as nat,
                ) as int;
                let buf = old(self).parts@[p].buf.deep_view().push(row.deep_view());
                rows_weight(buf) < FLUSH_THRESHOLD ==> {
                    &&& ok
                    &&& *final(disk) == *old(disk)
                    &&& final(self).parts@[p].buf.deep_view() == buf
                }
            }),
            final(disk)@.healthy && old(self).placed(old(disk)@) ==> if ok {
                final(self).placed(final(disk)@)
            } else {
                !all_fit(old(self).given@.push(row.deep_view()), old(disk)@.block_size)
            },
    {
        let ghost before = *self;
        let ghost d = disk@;
        let ghost r = row.deep_view();
        let ghost s = self.schema.deep_view();
        let key = make_join_key(&row, &self.indices);
        let p = hash_partition(&key, NUM_PARTITIONS);
        let ghost more = self.given@.push(r);
        proof {
            assert(more.drop_last() =~= self.given@);
            assert(before.parts@[p as int].wf(s));
            assert forall|q: nat| q < NUM_PARTITIONS implies #[trigger] in_partition(
                self.indices@,
                more,
                q,
            ) == if q == p {
                in_partition(self.indices@, self.given@, q).push(r)
            } else {
                in_partition(self.indices@, self.given@, q)
            } by {}
        }
        let ok = self.parts[p].push_row(row, &self.schema, disk);
        self.given = Ghost(more);
        proof {
            assert(before.parts@[p as int].rows@ == in_partition(
                self.indices@,
                before.given@,
                p as nat,
            ));
            if ok {
                self.lemma_row_given(before, p as int, r, *old(disk), *disk);
                assert forall|q: int| 0 <= q < NUM_PARTITIONS implies {
                    let part = #[trigger] self.parts@[q];
                    &&& part.wf(s)
                    &&& part.rows@ == in_partition(self.indices@, more, q as nat)
                } by {
                    assert(before.parts@[q].wf(s));
                    assert(in_partition(self.indices@, more, q as nat) == if q == p {
                        in_partition(self.indices@, before.given@, q as nat).push(r)
                    } else {
                        in_partition(self.indices@, before.given@, q as nat)
                    });
                }
            }
            if disk@.healthy && before.placed(d) {
                assert(before.parts@[p as int].placed(d, s));
                if ok {
                    self.lemma_added(before, p as int, d);
                    assert forall|q: int| 0 <= q < self.parts@.len() implies (
                    #[trigger] self.parts@[q]).placed(disk@, s) by {
                        if q != p {
                            assert(before.parts@[q].placed(d, s));
                            before.parts@[q].lemma_grows(d, disk@, s);
                        }
                    }
                } else {
                    lemma_partitions_fit(self.indices@, more, d.block_size);
                    assert(!all_fit(in_partition(self.indices@, more, p as nat), d.block_size));
                }
            }
        }
        ok
    }

    /// Writes all rows to the disk.
    pub fn finish(&mut self, disk: &mut DiskManager) -> (ok: bool)
        requires
            old(disk).wf(),
            old(disk).idle(),
            old(self).wf(),
        ensures
            final(disk).wf(),
            final(disk).idle(),
            final(disk).follows(old(disk)),
            grows(old(disk)@, final(disk)@),
            final(self).indices == old(self).indices,
            final(self).schema == old(self).schema,
            final(self).given == old(self).given,
            ok ==> {
                &&& final(self).wf()
                &&& final(self).flushed()
                &&& final(self).state(final(disk)) == flush_from(
                    old(self).state(old(disk)),
                    0,
                    old(disk)@.block_size,
                )
                &&& final(self).parts@.len() == NUM_PARTITIONS
                &&& forall|p: int|
                    0 <= p < NUM_PARTITIONS && in_partition(
                        old(self).indices@,
                        old(self).given@,
                        p as nat,
                    ).len() == 0 ==> (#[trigger] final(self).parts@[p]).segments@.len() == 0
            },
            final(disk)@.healthy && old(self).placed(old(disk)@) ==> if ok {
                &&& final(self).placed(final(disk)@)
                &&& segments_apart(final(self).parts@)
                &&& forall|p: int|
                    0 <= p < NUM_PARTITIONS ==> segments_rows(
                        final(disk)@.blocks,
                        old(self).schema.deep_view(),
                        (#[trigger] final(self).parts@[p]).segments@,
                    ) == Some(in_partition(old(self).indices@, old(self).given@, p as nat))
            } else {
                !all_fit(old(self).given@, old(disk)@.block_size)
            },
    {
        let ghost before = *self;
        let ghost d = disk@;
        let ghost s = self.schema.deep_view();
        let mut i: usize = 0;
        while i < NUM_PARTITIONS
            invariant
                i <= NUM_PARTITIONS,
                before == *old(self),
                d == old(disk)@,
                s == self.schema.deep_view(),
                disk.wf(),
                disk.idle(),
                disk.follows(old(disk)),
                grows(d, disk@),
                self.wf(),
                self.indices == before.indices,
                self.schema == before.schema,
                self.given == before.given,
                forall|p: int| 0 <= p < i ==> (#[trigger] self.parts@[p]).flushed(),
                flush_from(self.state(disk), i as nat, d.block_size) == flush_from(
                    before.state(old(disk)),
                    0,
                    d.block_size,
                ),
                disk@.healthy && before.placed(d) ==> self.placed(disk@),
            decreases NUM_PARTITIONS - i,
        {
            let ghost was = *self;
            let ghost d1 = disk@;
            assert(self.parts@[i as int].wf(s));
            let ghost disk1 = *disk;
            let ok = self.parts[i].flush(&self.schema, disk);
            proof {
                assert(grows(d1, disk@));
                if ok {
                    self.lemma_part_flushed(was, i as int, disk1, *disk);
                }
                if disk@.healthy && before.placed(d) {
                    assert(was.parts@[i as int].placed(d1, s));
                    if ok {
                        self.lemma_added(was, i as int, d1);
                        assert forall|q: int| 0 <= q < self.parts@.len() implies (
                        #[trigger] self.parts@[q]).placed(disk@, s) by {
                            if q != i {
                                assert(was.parts@[q].placed(d1, s));
                                was.parts@[q].lemma_grows(d1, disk@, s);
                            }
                        }
                    } else {
                        lemma_partitions_fit(self.indices@, self.given@, d.block_size);
                        assert(!all_fit(
                            in_partition(self.indices@, self.given@, i as nat),
                            d.block_size,
                        ));
                    }
                }
            }
            if !ok {
                return false;
            }
            proof {
                assert forall|q: int| 0 <= q < NUM_PARTITIONS implies {
                    let part = #[trigger] self.parts@[q];
                    &&& part.wf(s)
                    &&& part.rows@ == in_partition(self.indices@, self.given@, q as nat)
                } by {
                    assert(was.parts@[q].wf(s));
                }
                assert forall|p: int| 0 <= p < i + 1 implies (
                #[trigger] self.parts@[p]).flushed() by {
                    if p < i {
                        assert(was.parts@[p].flushed());
                    }
                }
            }
            i += 1;
        }
        proof {
            if disk@.healthy && before.placed(d) {
                assert forall|p: int| 0 <= p < NUM_PARTITIONS implies segments_rows(
                    disk@.blocks,
                    s,
                    (#[trigger] self.parts@[p]).segments@,
                ) == Some(in_partition(self.indices@, self.given@, p as nat)) by {
                    assert(self.parts@[p].flushed());
                    assert(self.parts@[p].placed(disk@, s));
                    self.parts@[p].lemma_flushed(disk@, s);
                }
            }
        }
        true
    }

    /// A reader of a partition.
    pub fn open_part(&self, p: usize) -> (r: PartitionReader)
        requires
            self.wf(),
            p < NUM_PARTITIONS,
        ensures
            r.wf(),
            r.schema.deep_view() == self.schema.deep_view(),
            r.want() is None,
            r.reads_when(true) == segments_reads(self.model()[p as int].segments),
            forall|d: DiskModel| #[trigger]
                self.placed(d) && self.flushed() && 0 <= d.next ==> {
                    let rows = in_partition(self.indices@, self.given@, p as nat);
                    &&& r.placed(d)
                    &&& r.rows(d) == Some(rows)
                    &&& r.work(d) <= 3 * rows.len()
                },
    {
        let part = &self.parts[p];
        assert(self.parts@[p as int].wf(self.schema.deep_view()));
        let mut segments: Vec<PartMeta> = Vec::new();
        let mut i: usize = 0;
        while i < part.segments.len()
            invariant
                i <= part.segments.len(),
                segments@ == part.segments@.take(i as int),
            decreases part.segments.len() - i,
        {
            segments.push(part.segments[i]);
            i += 1;
            assert(segments@ =~= part.segments@.take(i as int));
        }
        assert(segments@ =~= part.segments@);
        let r = PartitionReader::new(clone_schema(&self.schema), segments);
        proof {
            assert forall|d: DiskModel| #[trigger]
                self.placed(d) && self.flushed() && 0 <= d.next implies {
                let rows = in_partition(self.indices@, self.given@, p as nat);
                &&& r.placed(d)
                &&& r.rows(d) == Some(rows)
                &&& r.work(d) <= 3 * rows.len()
            } by {
                assert(part.placed(d, self.schema.deep_view()));
                assert(part.flushed());
                part.lemma_flushed(d, self.schema.deep_view());
            }
        }
        r
    }
}

} // verus!
