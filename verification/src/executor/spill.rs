//! The right side of a cross product: rows that have been written to disk and are read
//! again and again.

use vstd::prelude::*;

use crate::block::{all_fit, block_of, chunk, has_room, image, lemma_image, lemma_spread,
    lemma_spread_len, lemma_spread_push, spread, BlockPacker};
use crate::disk::{grows, reads_at_most, DiskManager, DiskModel, Request};
use crate::executor::cursor::{lemma_group_conforms, lemma_region_same, lemma_region_written,
    read_plan, region_rows, BlockCursor, Fill};
use crate::executor::{disk_ready, step_advances, step_follows, Step};
use crate::row::{all_conform, clone_row, clone_schema, conforms, row_bytes, Row, RowModel, Schema};

verus! {

/// Where the right side is taken to occupy no more memory than this, its rows are kept
/// in memory instead of being read again for each left row.
pub const RIGHT_CACHE_BYTES: usize = 8388608;

/// Blocks per write while rows are written, and per read while they are loaded.
pub const BATCH_BLOCKS: usize = 64;

/// The rows of some blocks may be kept in memory. They are taken to occupy twice the size
/// of the blocks.
pub open spec fn fits_cache(num_blocks: nat, block_size: nat) -> bool {
    num_blocks * block_size * 2 <= RIGHT_CACHE_BYTES
}

fn check_fits_cache(num_blocks: u64, block_size: usize) -> (r: bool)
    requires
        block_size > 0,
        2 * block_size <= usize::MAX,
    ensures
        r == fits_cache(num_blocks as nat, block_size as nat),
{
    let decoded: usize = 2 * block_size;
    let limit: usize = RIGHT_CACHE_BYTES / decoded;
    proof {
        vstd::arithmetic::div_mod::lemma_fundamental_div_mod(
            RIGHT_CACHE_BYTES as int,
            decoded as int,
        );
        let n = num_blocks as int;
        let (k, q, b) = (decoded as int, limit as int, RIGHT_CACHE_BYTES as int);
        assert(num_blocks * block_size * 2 == n * k) by (nonlinear_arith)
            requires
                n == num_blocks,
                k == 2 * block_size,
        ;
        if n <= q {
            assert(n * k <= k * q) by (nonlinear_arith)
                requires
                    0 <= n <= q,
                    k > 0,
            ;
        } else {
            assert(n * k >= k * q + k) by (nonlinear_arith)
                requires
                    n >= q + 1,
                    k > 0,
            ;
        }
    }
    num_blocks <= limit as u64
}

/// How far the right side has come.
pub enum Phase {
    /// Rows are being written.
    Spilling,
    /// The rows are being loaded into memory.
    Loading { cursor: BlockCursor, rows: Vec<Row> },
    /// The rows are in memory.
    Cached { rows: Vec<Row>, idx: usize },
    /// The rows are to be read from the disk each time, and the first block is being read.
    Priming { cursor: BlockCursor },
    /// The rows are read from the disk each time.
    Reading { cursor: BlockCursor },
}

/// The right side. `all` are the rows that have been given; of their blocks, `count` have
/// been written, from block `start` on.
pub struct RightSide {
    pub schema: Schema,
    pub block_size: usize,
    pub packer: BlockPacker,
    pub start: u64,
    pub count: u64,
    pub all: Ghost<Seq<RowModel>>,
    pub phase: Phase,
}

/// The first `count` blocks of `all` lie on the disk from block `start` on.
pub open spec fn blocks_written(
    d: DiskModel,
    start: int,
    count: nat,
    groups: Seq<Seq<RowModel>>,
    block_size: nat,
) -> bool {
    &&& count <= groups.len()
    &&& forall|i: int|
        0 <= i < count ==> #[trigger] d.blocks[start + i] == block_of(groups[i], block_size)
}

impl RightSide {
    pub open spec fn spilling(&self) -> bool {
        self.phase is Spilling
    }

    /// The rows are complete, and not yet ready.
    pub open spec fn loading(&self) -> bool {
        self.phase is Loading || self.phase is Priming
    }

    /// The reads that are still to be made for the rows to be ready, or else for the current
    /// left row.
    pub open spec fn reads_left(&self, disk: &DiskManager) -> Seq<Request> {
        self.reads_when(disk.idle())
    }

    /// The reads that are still to be made for the rows to be ready, or else for the current
    /// left row, when the disk is free or else busy with what is wanted.
    pub open spec fn reads_when(&self, idle: bool) -> Seq<Request> {
        match self.phase {
            Phase::Loading { cursor, rows } => cursor.reads_when(idle),
            Phase::Priming { cursor } => if idle {
                seq![Request::Read { start: self.start as nat, count: 1 }]
            } else {
                Seq::empty()
            },
            Phase::Reading { cursor } => cursor.reads_when(idle),
            _ => Seq::empty(),
        }
    }

    /// The reads for one left row.
    pub open spec fn row_reads(&self) -> Seq<Request> {
        if self.phase is Priming || self.phase is Reading {
            read_plan(self.start as nat, self.count as nat, 0, 1)
        } else {
            Seq::empty()
        }
    }

    pub closed spec fn wf(&self) -> bool {
        let s = self.schema.deep_view();
        &&& all_conform(self.all@, s)
        &&& self.start + self.count <= u64::MAX
        &&& match self.phase {
            Phase::Spilling => self.block_size >= 2 ==> {
                &&& self.packer.block_size == self.block_size
                &&& self.packer.holds(self.all@, self.count as nat)
                &&& spread(self.all@, self.block_size as nat).len() <= self.count + BATCH_BLOCKS
            },
            Phase::Loading { cursor, rows } => {
                &&& cursor.wf()
                &&& cursor.batch == BATCH_BLOCKS
                &&& cursor.schema.deep_view() == s
                &&& cursor.start == self.start && cursor.total == self.count
                &&& cursor.at == cursor.buffer@.len()
                &&& all_conform(rows.deep_view(), s)
                &&& fits_cache(self.count as nat, self.block_size as nat)
            },
            Phase::Cached { rows, idx } => {
                &&& fits_cache(self.count as nat, self.block_size as nat)
                &&& idx <= rows@.len()
                &&& all_conform(rows.deep_view(), s)
            },
            Phase::Priming { cursor } => {
                &&& cursor.wf()
                &&& cursor.batch == 1
                &&& cursor.schema.deep_view() == s
                &&& cursor.start == self.start && cursor.total == self.count
                &&& cursor.hungry()
                &&& cursor.blocks_read == 0
            },
            Phase::Reading { cursor } => {
                &&& cursor.wf()
                &&& cursor.batch == 1
                &&& cursor.schema.deep_view() == s
                &&& cursor.start == self.start && cursor.total == self.count
            },
        }
    }

    /// Blocks have been written, and more are to follow.
    pub closed spec fn writing(&self) -> bool {
        self.phase is Spilling && self.count > 0
    }

    pub closed spec fn want(&self) -> Option<(u64, u64)> {
        match self.phase {
            Phase::Loading { cursor, rows } => cursor.want(),
            Phase::Priming { cursor } => cursor.want(),
            Phase::Reading { cursor } => cursor.want(),
            _ => None,
        }
    }

    pub closed spec fn placed(&self, d: DiskModel) -> bool {
        match self.phase {
            Phase::Spilling => {
                &&& self.block_size == d.block_size
                &&& self.count > 0 ==> d.next == self.start + self.count
                &&& self.block_size >= 2 ==> blocks_written(
                    d,
                    self.start as int,
                    self.count as nat,
                    spread(self.all@, d.block_size),
                    d.block_size,
                )
            },
            Phase::Loading { cursor, rows } => {
                &&& self.region_placed(d)
                &&& cursor.rows(d) is Some
                &&& rows.deep_view() + cursor.rows(d)->0 == self.all@
            },
            Phase::Cached { rows, idx } => rows.deep_view() == self.all@,
            Phase::Priming { cursor } => {
                &&& self.region_placed(d)
                &&& cursor.rows(d) is Some
            },
            Phase::Reading { cursor } => {
                &&& self.region_placed(d)
                &&& cursor.rows(d) is Some
            },
        }
    }

    pub closed spec fn region_placed(&self, d: DiskModel) -> bool {
        &&& self.start + self.count <= d.next
        &&& self.count <= self.all@.len() + 1
        &&& region_rows(
            d.blocks,
            self.schema.deep_view(),
            self.start as int,
            self.count as nat,
        ) == Some(self.all@)
    }

    /// The rows still to come for the current left row.
    pub closed spec fn rest(&self, d: DiskModel) -> Option<Seq<RowModel>> {
        match self.phase {
            Phase::Cached { rows, idx } => Some(rows.deep_view().skip(idx as int)),
            Phase::Reading { cursor } => cursor.rows(d),
            _ => None,
        }
    }

    /// A bound on the steps until those rows have come.
    pub closed spec fn rest_work(&self, d: DiskModel) -> nat {
        match self.phase {
            Phase::Cached { rows, idx } => (rows@.len() - idx) as nat,
            Phase::Reading { cursor } => cursor.work(d),
            _ => 0,
        }
    }

    /// A bound on the steps until the rows are loaded.
    pub closed spec fn load_work(&self, d: DiskModel) -> nat {
        match self.phase {
            Phase::Loading { cursor, rows } => cursor.work(d) + 1,
            Phase::Priming { cursor } => 1,
            _ => 0,
        }
    }

    pub proof fn lemma_grows(&self, d: DiskModel, d2: DiskModel)
        requires
            self.wf(),
            self.placed(d),
            !self.writing(),
            grows(d, d2),
        ensures
            self.placed(d2),
            self.rest(d2) == self.rest(d),
            self.rest_work(d2) == self.rest_work(d),
            self.load_work(d2) == self.load_work(d),
    {
        match &self.phase {
            Phase::Spilling => {},
            Phase::Loading { cursor, rows } => {
                cursor.lemma_grows(d, d2);
                lemma_region_same(
                    d.blocks,
                    d2.blocks,
                    self.schema.deep_view(),
                    self.start as int,
                    self.count as nat,
                );
            },
            Phase::Cached { .. } => {},
            Phase::Priming { cursor } => {
                cursor.lemma_grows(d, d2);
                lemma_region_same(
                    d.blocks,
                    d2.blocks,
                    self.schema.deep_view(),
                    self.start as int,
                    self.count as nat,
                );
            },
            Phase::Reading { cursor } => {
                cursor.lemma_grows(d, d2);
                lemma_region_same(
                    d.blocks,
                    d2.blocks,
                    self.schema.deep_view(),
                    self.start as int,
                    self.count as nat,
                );
            },
        }
    }

    /// However many rows there are: while they are written, no more than 64 blocks of them
    /// are in memory, and all of them are only where their blocks fit the cache.
    pub proof fn lemma_held(&self)
        requires
            self.wf(),
            self.block_size >= 2,
        ensures
            self.phase is Spilling ==> self.packer.full@.len() + self.packer.open@.len()
                <= BATCH_BLOCKS * self.block_size,
            self.phase is Loading || self.phase is Cached ==> fits_cache(
                self.count as nat,
                self.block_size as nat,
            ),
    {
        if self.phase is Spilling {
            let bs = self.block_size as nat;
            let groups = spread(self.all@, bs);
            let complete = groups.drop_last().skip(self.count as int);
            lemma_spread(self.all@, bs);
            assert forall|i: int| 0 <= i < complete.len() implies has_room(
                #[trigger] complete[i],
                bs,
            ) by {
                assert(complete[i] == groups[self.count + i]);
            }
            lemma_image(complete, bs);
            assert(has_room(groups[groups.len() - 1], bs));
            assert(complete.len() * bs + bs <= BATCH_BLOCKS * bs) by (nonlinear_arith)
                requires
                    complete.len() + 1 <= BATCH_BLOCKS,
            ;
        }
    }

    pub proof fn lemma_not_writing(&self)
        requires
            !self.spilling(),
        ensures
            !self.writing(),
    {
    }

    pub proof fn lemma_loaded(&self, d: DiskModel)
        requires
            !self.loading(),
        ensures
            self.load_work(d) == 0,
    {
    }

    /// Whether the rows are being loaded.
    pub fn is_loading(&self) -> (r: bool)
        ensures
            r == self.loading(),
    {
        matches!(self.phase, Phase::Loading { .. } | Phase::Priming { .. })
    }

    /// A right side that has been given no row.
    pub fn new(schema: Schema, block_size: usize) -> (r: RightSide)
        ensures
            r.wf(),
            r.block_size == block_size,
            r.count == 0,
            r.spilling(),
            !r.writing(),
            r.schema.deep_view() == schema.deep_view(),
            r.all@ == Seq::<RowModel>::empty(),
            forall|d: DiskModel| #[trigger] r.placed(d) == (d.block_size == block_size),
            r.want() is None,
    {
        let r = RightSide {
            schema,
            block_size,
            packer: BlockPacker::new(if block_size < 2 { 2 } else { block_size }),
            start: 0,
            count: 0,
            all: Ghost(Seq::empty()),
            phase: Phase::Spilling,
        };
        proof {
            assert forall|d: DiskModel| #[trigger] r.placed(d) == (d.block_size == block_size) by {
                if d.block_size == block_size && block_size >= 2 {
                    assert(blocks_written(
                        d,
                        0,
                        0,
                        spread(Seq::<RowModel>::empty(), d.block_size),
                        d.block_size,
                    ));
                }
            }
        }
        r
    }

    /// Writes the given blocks behind those written before.
    fn write_behind(
        &mut self,
        data: Vec<u8>,
        disk: &mut DiskManager,
        Ghost(groups): Ghost<Seq<Seq<RowModel>>>,
        Ghost(upto): Ghost<nat>,
    ) -> (ok: bool)
        requires
            old(disk).wf(),
            old(disk).idle(),
            old(self).start + old(self).count <= u64::MAX,
            old(disk).block_size >= 2,
            old(self).count <= upto <= groups.len(),
            forall|i: int|
                0 <= i < groups.len() ==> has_room(
                    #[trigger] groups[i],
                    old(disk).block_size as nat,
                ),
            data@ == image(
                groups.take(upto as int).skip(old(self).count as int),
                old(disk).block_size as nat,
            ),
        ensures
            final(disk).wf(),
            final(disk).idle(),
            final(disk).follows(old(disk)),
            grows(old(disk)@, final(disk)@),
            final(self).schema == old(self).schema,
            final(self).block_size == old(self).block_size,
            final(self).packer == old(self).packer,
            final(self).all == old(self).all,
            final(self).phase == old(self).phase,
            !ok ==> {
                &&& final(self).start == old(self).start
                &&& final(self).count == old(self).count
                &&& final(disk)@.healthy ==> old(self).count > 0 && old(disk)@.next
                    != old(self).start + old(self).count
            },
            ok ==> {
                &&& final(self).start + final(self).count <= u64::MAX
                &&& final(self).count == upto
                &&& old(self).count > 0 ==> final(self).start == old(self).start
                &&& old(self).count == 0 ==> final(self).start == old(disk)@.next
                &&& final(disk).world@.requests == old(disk).world@.requests.push(
                    (Request::Write {
                        start: (final(self).start + old(self).count) as nat,
                        data: data@,
                    }),
                )
                &&& final(self).start + final(self).count == final(disk)@.next
                &&& blocks_written(
                    old(disk)@,
                    old(self).start as int,
                    old(self).count as nat,
                    groups,
                    old(disk).block_size as nat,
                ) ==> blocks_written(
                    final(disk)@,
                    final(self).start as int,
                    final(self).count as nat,
                    groups,
                    old(disk).block_size as nat,
                )
            },
    {
        let ghost d = disk@;
        let ghost bs = disk.block_size as nat;
        let ghost part = groups.take(upto as int).skip(self.count as int);
        proof {
            assert forall|i: int| 0 <= i < part.len() implies has_room(#[trigger] part[i], bs) by {
                assert(part[i] == groups[i + self.count]);
            }
            lemma_image(part, bs);
            let n = part.len() as int;
            vstd::arithmetic::div_mod::lemma_div_multiples_vanish(n, bs as int);
            vstd::arithmetic::div_mod::lemma_mod_multiples_basic(n, bs as int);
            assert(n * (bs as int) == (bs as int) * n) by (nonlinear_arith);
        }
        let ghost bytes = data@;
        match disk.store(data) {
            Some((start, n)) => {
                if self.count == 0 {
                    self.start = start;
                } else if start != self.start + self.count {
                    return false;
                }
                self.count = self.count + n;
                proof {
                    assert(n as nat == part.len());
                    if blocks_written(
                        d,
                        old(self).start as int,
                        old(self).count as nat,
                        groups,
                        bs,
                    ) {
                        assert forall|i: int| 0 <= i < self.count implies #[trigger] disk@.blocks[
                            self.start + i
                        ] == block_of(groups[i], bs) by {
                            let k = i - old(self).count;
                            if k >= 0 {
                                assert(part[k] == groups[i]);
                                assert(chunk(bytes, k, bs) == block_of(part[k], bs));
                                assert(self.start + i - start == k);
                            } else {
                                assert(d.blocks[old(self).start + i] == block_of(groups[i], bs));
                            }
                        }
                    }
                }
                true
            },
            None => false,
        }
    }

    /// Adds a row, and writes the complete blocks where there are many.
    pub fn add_row(&mut self, row: &Row, disk: &mut DiskManager) -> (ok: bool)
        requires
            old(disk).wf(),
            old(disk).idle(),
            old(self).wf(),
            old(self).spilling(),
            conforms(row.deep_view(), old(self).schema.deep_view()),
        ensures
            final(disk).wf(),
            final(disk).idle(),
            final(disk).follows(old(disk)),
            grows(old(disk)@, final(disk)@),
            final(self).schema == old(self).schema,
            final(self).block_size == old(self).block_size,
            ok ==> {
                let rows = old(self).all@.push(row.deep_view());
                let bs = old(disk).block_size as nat;
                let groups = spread(rows, bs);
                &&& final(self).wf()
                &&& final(self).spilling()
                &&& final(self).all@ == rows
                &&& old(disk).block_size >= 2
                &&& all_fit(rows, bs)
                &&& if groups.len() > old(self).count + BATCH_BLOCKS {
                    &&& final(self).count == old(self).count + BATCH_BLOCKS
                    &&& old(self).count > 0 ==> final(self).start == old(self).start
                    &&& old(self).count == 0 ==> final(self).start == old(disk)@.next
                    &&& final(disk).world@.requests == old(disk).world@.requests.push(
                        (Request::Write {
                            start: (final(self).start + old(self).count) as nat,
                            data: image(
                                groups.subrange(
                                    old(self).count as int,
                                    old(self).count + BATCH_BLOCKS,
                                ),
                                bs,
                            ),
                        }),
                    )
                } else {
                    &&& final(self).count == old(self).count
                    &&& final(self).start == old(self).start
                    &&& *final(disk) == *old(disk)
                }
            },
            final(disk)@.healthy && old(self).placed(old(disk)@) ==> if ok {
                &&& final(self).placed(final(disk)@)
                &&& row_bytes(row.deep_view()).len() <= old(disk)@.block_size - 2
            } else {
                row_bytes(row.deep_view()).len() > old(disk)@.block_size - 2
            },
    {
        let ghost before = *self;
        let ghost d = disk@;
        let ghost bs = self.block_size as nat;
        if self.block_size != disk.block_size() || self.block_size < 2 {
            return false;
        }
        let fits = self.packer.push(row, Ghost(self.all@), Ghost(self.count as nat));
        if !fits {
            return false;
        }
        self.all = Ghost(self.all@.push(row.deep_view()));
        proof {
            lemma_spread(before.all@, bs);
            lemma_spread(self.all@, bs);
            lemma_spread_push(before.all@, row.deep_view(), bs);
            if before.placed(d) {
                let (g, h) = (spread(before.all@, bs), spread(self.all@, bs));
                assert forall|i: int| 0 <= i < self.count implies #[trigger] d.blocks[self.start
                    + i] == block_of(h[i], bs) by {
                    assert(h[i] == g[i]);
                    assert(d.blocks[self.start + i] == block_of(g[i], bs));
                }
                assert(self.placed(d));
            }
        }
        let ghost groups = spread(self.all@, bs);
        proof {
            let part = groups.drop_last().skip(self.count as int);
            assert forall|i: int| 0 <= i < part.len() implies has_room(#[trigger] part[i], bs) by {
                assert(part[i] == groups[i + self.count]);
            }
            lemma_image(part, bs);
            let n = part.len();
            assert(n >= BATCH_BLOCKS <==> n * bs >= BATCH_BLOCKS * bs) by (nonlinear_arith)
                requires
                    bs >= 2,
            ;
        }
        if self.packer.full.len() >= BATCH_BLOCKS * self.packer.block_size {
            let full = self.packer.take_full(Ghost(self.all@), Ghost(self.count as nat));
            let ghost upto = (groups.len() - 1) as nat;
            proof {
                assert(groups.take(upto as int) =~= groups.drop_last());
                assert(groups.drop_last().skip(self.count as int) =~= groups.subrange(
                    self.count as int,
                    self.count + BATCH_BLOCKS,
                ));
            }
            return self.write_behind(full, disk, Ghost(groups), Ghost(upto));
        }
        true
    }

    /// Completes the right side: writes what is left, and makes ready to load or read.
    pub fn finish(&mut self, disk: &mut DiskManager) -> (ok: bool)
        requires
            old(disk).wf(),
            old(disk).idle(),
            old(self).wf(),
            old(self).spilling(),
        ensures
            final(disk).wf(),
            final(disk).idle(),
            final(disk).follows(old(disk)),
            grows(old(disk)@, final(disk)@),
            final(self).schema == old(self).schema,
            final(self).block_size == old(self).block_size,
            ok ==> {
                let bs = old(disk).block_size as nat;
                let groups = spread(old(self).all@, bs);
                &&& final(self).wf()
                &&& final(self).loading()
                &&& final(self).all == old(self).all
                &&& old(disk).block_size >= 2
                &&& all_fit(old(self).all@, bs)
                &&& final(self).count == groups.len()
                &&& 1 <= groups.len() - old(self).count <= BATCH_BLOCKS
                &&& old(self).count > 0 ==> final(self).start == old(self).start
                &&& old(self).count == 0 ==> final(self).start == old(disk)@.next
                &&& final(disk).world@.requests == old(disk).world@.requests.push(
                    (Request::Write {
                        start: (final(self).start + old(self).count) as nat,
                        data: image(groups.skip(old(self).count as int), bs),
                    }),
                )
                &&& final(self).phase is Loading == fits_cache(groups.len(), bs)
                &&& final(self).reads_left(final(disk)) == if fits_cache(groups.len(), bs) {
                    read_plan(final(self).start as nat, groups.len(), 0, BATCH_BLOCKS as nat)
                } else {
                    seq![Request::Read { start: final(self).start as nat, count: 1 }]
                }
            },
            final(disk)@.healthy && old(self).placed(old(disk)@) ==> {
                &&& ok == (old(disk)@.block_size >= 2)
                &&& ok ==> final(self).placed(final(disk)@)
                &&& ok ==> final(self).load_work(final(disk)@) <= 2 * old(self).all@.len() + 2
            },
    {
        let ghost before = *self;
        let ghost d = disk@;
        let block_size = disk.block_size();
        if self.block_size != block_size || block_size < 2 {
            return false;
        }
        let ghost bs = block_size as nat;
        let ghost groups = spread(self.all@, bs);
        proof {
            lemma_spread(self.all@, bs);
        }
        self.packer.finish(Ghost(self.all@), Ghost(self.count as nat));
        let mut data: Vec<u8> = Vec::new();
        std::mem::swap(&mut data, &mut self.packer.full);
        proof {
            assert(groups.take(groups.len() as int) =~= groups);
        }
        if !self.write_behind(data, disk, Ghost(groups), Ghost(groups.len())) {
            return false;
        }
        let schema = clone_schema(&self.schema);
        proof {
            lemma_spread_len(self.all@, bs);
            if before.placed(d) {
                assert forall|i: int| 0 <= i < groups.len() implies all_conform(
                    #[trigger] groups[i],
                    self.schema.deep_view(),
                ) by {
                    lemma_group_conforms(groups, self.schema.deep_view(), i);
                }
                lemma_region_written(
                    disk@.blocks,
                    self.schema.deep_view(),
                    self.start as int,
                    groups,
                    bs,
                );
            }
        }
        if check_fits_cache(self.count, block_size) {
            let cursor = BlockCursor::new(schema, self.start, self.count, BATCH_BLOCKS as u64);
            let rows: Vec<Row> = Vec::new();
            proof {
                assert(rows.deep_view() =~= Seq::<RowModel>::empty());
                assert(rows.deep_view() + self.all@ =~= self.all@);
            }
            self.phase = Phase::Loading { cursor, rows };
        } else {
            self.phase = Phase::Priming {
                cursor: BlockCursor::new(schema, self.start, self.count, 1),
            };
        }
        true
    }

    /// Makes one step of loading the rows into memory, or of reading the first block.
    pub fn load(&mut self, disk: &mut DiskManager) -> (ok: bool)
        requires
            old(disk).wf(),
            old(self).wf(),
            old(self).loading(),
            disk_ready(old(disk), old(self).want()),
        ensures
            final(disk).wf(),
            final(disk)@ == old(disk)@,
            reads_at_most(old(disk), final(disk)),
            final(disk).follows(old(disk)),
            final(self).wf(),
            !final(self).spilling(),
            final(self).schema == old(self).schema,
            final(self).all == old(self).all,
            ok ==> disk_ready(final(disk), final(self).want()),
            ok && !final(self).loading() ==> final(disk).idle(),
            final(self).start == old(self).start,
            final(self).count == old(self).count,
            final(self).block_size == old(self).block_size,
            final(self).row_reads() == old(self).row_reads(),
            old(self).phase is Loading ==> final(self).phase is Loading
                || final(self).phase is Cached,
            old(self).phase is Priming ==> final(self).phase is Priming
                || final(self).phase is Reading,
            ok ==> final(disk).world@.requests + (if final(self).loading() {
                final(self).reads_left(final(disk))
            } else {
                Seq::empty()
            }) == old(disk).world@.requests + old(self).reads_left(old(disk)),
            final(disk)@.healthy && old(self).placed(old(disk)@) ==> {
                &&& ok
                &&& final(self).placed(final(disk)@)
                &&& step_advances(
                    old(self).load_work(old(disk)@),
                    final(self).load_work(final(disk)@),
                    old(disk),
                    final(disk),
                )
            },
    {
        if matches!(self.phase, Phase::Priming { .. }) {
            return self.prime(disk);
        }
        let ghost before = *self;
        let ghost d = disk@;
        match &mut self.phase {
            Phase::Loading { cursor, rows } => {
                if cursor.has_blocks() {
                    match cursor.fill(disk) {
                        Fill::Ready => {
                            let ghost filled = *cursor;
                            let ghost had = rows.deep_view();
                            let mut more: Vec<Row> = Vec::new();
                            std::mem::swap(&mut more, &mut cursor.buffer);
                            let ghost came = more.deep_view();
                            rows.append(&mut more);
                            proof {
                                assert(rows.deep_view() =~= had + came);
                                assert(came.skip(0) =~= came);
                                assert(cursor.buffer.deep_view() =~= Seq::<RowModel>::empty());
                                let empty = Seq::<RowModel>::empty();
                                assert(empty.skip(0) =~= empty);
                                if let Some(rest) = region_rows(
                                    d.blocks,
                                    cursor.schema.deep_view(),
                                    cursor.start + cursor.blocks_read,
                                    (cursor.total - cursor.blocks_read) as nat,
                                ) {
                                    assert(filled.rows(d) == Some(came + rest));
                                    assert(cursor.rows(d) == Some(empty + rest));
                                    assert(empty + rest =~= rest);
                                    assert(had + (came + rest) =~= (had + came) + rest);
                                }
                            }
                            true
                        },
                        Fill::Pending => true,
                        Fill::Failed => false,
                    }
                } else {
                    let mut all: Vec<Row> = Vec::new();
                    std::mem::swap(&mut all, rows);
                    proof {
                        if before.placed(d) {
                            let c = before.phase->Loading_cursor;
                            assert(c.rows(d)->0 =~= Seq::<RowModel>::empty());
                            assert(all.deep_view() + Seq::<RowModel>::empty()
                                =~= all.deep_view());
                        }
                    }
                    self.phase = Phase::Cached { rows: all, idx: 0 };
                    true
                }
            },
            _ => false,
        }
    }

    /// Makes one step of reading the first block.
    fn prime(&mut self, disk: &mut DiskManager) -> (ok: bool)
        requires
            old(disk).wf(),
            old(self).wf(),
            old(self).phase is Priming,
            disk_ready(old(disk), old(self).want()),
        ensures
            final(disk).wf(),
            final(disk)@ == old(disk)@,
            reads_at_most(old(disk), final(disk)),
            final(disk).follows(old(disk)),
            final(self).wf(),
            final(self).phase is Priming || final(self).phase is Reading,
            *final(self) == (RightSide { phase: final(self).phase, ..*old(self) }),
            ok ==> disk_ready(final(disk), final(self).want()),
            ok && final(self).phase is Reading ==> final(disk).idle(),
            ok ==> final(disk).world@.requests + (if final(self).phase is Priming {
                final(self).reads_left(final(disk))
            } else {
                Seq::empty()
            }) == old(disk).world@.requests + old(self).reads_left(old(disk)),
            final(disk)@.healthy && old(self).placed(old(disk)@) ==> {
                &&& ok
                &&& final(self).placed(final(disk)@)
                &&& step_advances(
                    old(self).load_work(old(disk)@),
                    final(self).load_work(final(disk)@),
                    old(disk),
                    final(disk),
                )
            },
    {
        let ghost before = *self;
        let ghost d = disk@;
        let mut phase = Phase::Spilling;
        std::mem::swap(&mut phase, &mut self.phase);
        match phase {
            Phase::Priming { cursor } => {
                let mut cursor = cursor;
                let filled = cursor.fill(disk);
                proof {
                    let all = old(disk).world@.requests;
                    let r = Request::Read { start: self.start as nat, count: 1 };
                    assert(all.push(r) + Seq::<Request>::empty() =~= all + seq![r]);
                    assert(all + Seq::<Request>::empty() =~= all);
                }
                match filled {
                    Fill::Ready => {
                        self.phase = Phase::Reading { cursor };
                        true
                    },
                    Fill::Pending => {
                        self.phase = Phase::Priming { cursor };
                        true
                    },
                    Fill::Failed => {
                        self.phase = Phase::Priming { cursor };
                        false
                    },
                }
            },
            other => {
                self.phase = other;
                false
            },
        }
    }

    /// Goes back to the first row.
    pub fn rewind(&mut self)
        requires
            old(self).wf(),
            !old(self).spilling(),
            !old(self).loading(),
        ensures
            final(self).wf(),
            !final(self).spilling(),
            !final(self).loading(),
            final(self).schema == old(self).schema,
            final(self).all == old(self).all,
            final(self).start == old(self).start,
            final(self).count == old(self).count,
            final(self).block_size == old(self).block_size,
            final(self).phase is Cached == old(self).phase is Cached,
            final(self).row_reads() == old(self).row_reads(),
            forall|disk: &DiskManager|
                disk.idle() ==> #[trigger] final(self).reads_left(disk) == old(self).row_reads(),
            forall|d: DiskModel| #[trigger]
                old(self).placed(d) ==> {
                    &&& final(self).placed(d)
                    &&& final(self).rest(d) == Some(old(self).all@)
                    &&& final(self).rest_work(d) <= 2 * old(self).all@.len() + 1
                },
    {
        match &mut self.phase {
            Phase::Cached { rows, idx } => {
                *idx = 0;
                proof {
                    assert(rows.deep_view().skip(0) =~= rows.deep_view());
                }
            },
            Phase::Reading { cursor } => cursor.rewind(),
            _ => {},
        }
    }

    /// Makes one step to the next row for the current left row.
    pub fn next_right(&mut self, disk: &mut DiskManager) -> (s: Step)
        requires
            old(disk).wf(),
            old(self).wf(),
            !old(self).spilling(),
            !old(self).loading(),
            disk_ready(old(disk), old(self).want()),
        ensures
            final(disk).wf(),
            final(disk)@ == old(disk)@,
            reads_at_most(old(disk), final(disk)),
            final(disk).follows(old(disk)),
            final(self).wf(),
            !final(self).spilling(),
            !final(self).loading(),
            final(self).schema == old(self).schema,
            final(self).all == old(self).all,
            !(s is Failed) ==> disk_ready(final(disk), final(self).want()),
            s is Row || s is Done ==> final(disk).idle(),
            s matches Step::Row(r) ==> conforms(r.deep_view(), old(self).schema.deep_view()),
            final(self).start == old(self).start,
            final(self).count == old(self).count,
            final(self).block_size == old(self).block_size,
            final(self).phase is Cached == old(self).phase is Cached,
            final(self).row_reads() == old(self).row_reads(),
            old(self).phase is Cached ==> *final(disk) == *old(disk),
            !(s is Failed) ==> final(disk).world@.requests + final(self).reads_left(final(disk))
                == old(disk).world@.requests + old(self).reads_left(old(disk)),
            s is Done ==> final(self).reads_left(final(disk)) == Seq::<Request>::empty(),
            final(disk)@.healthy && old(self).placed(old(disk)@) ==> {
                &&& !(s is Failed)
                &&& final(self).placed(final(disk)@)
                &&& old(self).rest(old(disk)@) is Some
                &&& step_follows(
                    old(self).rest(old(disk)@),
                    final(self).rest(final(disk)@),
                    s,
                )
                &&& !(s is Done) ==> step_advances(
                    old(self).rest_work(old(disk)@),
                    final(self).rest_work(final(disk)@),
                    old(disk),
                    final(disk),
                )
            },
    {
        let ghost before = *self;
        let ghost d = disk@;
        match &mut self.phase {
            Phase::Cached { rows, idx } => {
                if *idx < rows.len() {
                    let row = clone_row(&rows[*idx]);
                    *idx = *idx + 1;
                    proof {
                        let all = rows.deep_view();
                        let i = *idx - 1;
                        assert(all.skip(i).drop_first() =~= all.skip(i + 1));
                        assert(conforms(all[i], self.schema.deep_view()));
                    }
                    Step::Row(row)
                } else {
                    proof {
                        let all = rows.deep_view();
                        assert(all.skip(all.len() as int) =~= Seq::<RowModel>::empty());
                    }
                    Step::Done
                }
            },
            Phase::Reading { cursor } => {
                if cursor.has_row() {
                    Step::Row(cursor.take())
                } else if !cursor.has_blocks() {
                    proof {
                        assert(cursor.rows(d)->0 =~= Seq::<RowModel>::empty());
                    }
                    Step::Done
                } else {
                    match cursor.fill(disk) {
                        Fill::Ready => Step::Pending,
                        Fill::Pending => Step::Pending,
                        Fill::Failed => Step::Failed,
                    }
                }
            },
            _ => Step::Failed,
        }
    }
}

} // verus!
