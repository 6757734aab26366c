//! The cross product of two operators.

use vstd::prelude::*;

use crate::block::{all_fit, image, lemma_spread, spread};
use crate::disk::{grows, reads_at_most, DiskManager, DiskModel, Request};
use crate::executor::node::PlanNode;
use crate::executor::cursor::read_plan;
use crate::executor::spill::{fits_cache, RightSide, BATCH_BLOCKS};
use crate::executor::traffic::{cross_requests, lemma_cached_reads, lemma_next_write,
    lemma_repeated_none, lemma_side_reads_len, lemma_spill_writes, lemma_writes_len, repeated,
    side_reads, spill_writes, written_data};
use crate::executor::{disk_ready, step_advances, step_follows, Operator, Step};
use crate::row::{clone_schema, conforms, extend_schema, join_rows, Row, RowModel, Schema,
    SchemaModel};

verus! {

/// A row with each of some rows behind it.
pub open spec fn beside(left: RowModel, right: Seq<RowModel>) -> Seq<RowModel> {
    Seq::new(right.len(), |j: int| left + right[j])
}

/// Each row of the left side with each of the right, in the order of the left, and for
/// each left row in the order of the right.
pub open spec fn product(left: Seq<RowModel>, right: Seq<RowModel>) -> Seq<RowModel>
    decreases left.len(),
{
    if left.len() == 0 {
        Seq::empty()
    } else {
        beside(left[0], right) + product(left.drop_first(), right)
    }
}

/// What a cross product gives. The right side goes to disk, and there is nothing where
/// a block has no room for its row count, or one of the rows is larger than a block.
pub open spec fn crossed(
    left: Option<Seq<RowModel>>,
    right: Option<Seq<RowModel>>,
    block_size: nat,
) -> Option<Seq<RowModel>> {
    match (left, right) {
        (Some(l), Some(r)) => if block_size >= 2 && all_fit(r, block_size) {
            Some(product(l, r))
        } else {
            None
        },
        _ => None,
    }
}

/// The steps for each left row of a product with `n` right rows.
pub open spec fn row_cost(n: nat) -> nat {
    2 * n + 4
}

proof fn lemma_one_less(l: nat, n: nat)
    requires
        l > 0,
    ensures
        l * row_cost(n) == (l - 1) * row_cost(n) + 2 * n + 4,
{
    assert(l * row_cost(n) == (l - 1) * row_cost(n) + row_cost(n)) by (nonlinear_arith)
        requires
            l > 0,
    ;
}

/// Pairs every row of its left child with every row of its right child. The right rows
/// are written to disk first, and read back for each left row, from memory if they are
/// few.
pub struct CrossOperator<'q> {
    pub left: Box<PlanNode<'q>>,
    /// There until all its rows have come.
    pub right: Option<Box<PlanNode<'q>>>,
    pub side: RightSide,
    pub schema: Schema,
    pub current_left: Option<Row>,
}

impl<'q> CrossOperator<'q> {
    pub fn new(left: PlanNode<'q>, right: PlanNode<'q>, block_size: usize) -> (r: CrossOperator<
        'q,
    >)
        requires
            left.wf(),
            right.wf(),
            left.quiet(),
            right.quiet(),
        ensures
            r.wf(),
            r.quiet(),
            r.side.spilling(),
            r.side.count == 0,
            r.side.all@ == Seq::<RowModel>::empty(),
            r.side.block_size == block_size,
            *r.left == left,
            r.right matches Some(right_) && *right_ == right,
            r.columns() == left.columns() + right.columns(),
            forall|d: DiskModel| #[trigger]
                r.placed(d) == (left.placed(d) && right.placed(d) && d.block_size == block_size),
            forall|d: DiskModel| #[trigger]
                r.rows(d) == crossed(left.rows(d), right.rows(d), d.block_size),
            forall|d: DiskModel| #[trigger]
                r.requests_ahead(d, true) == left.requests_ahead(d, true) + right.requests_ahead(
                    d,
                    true,
                ) + cross_requests(
                    right.rows(d)->0,
                    left.rows(d)->0.len(),
                    0,
                    d.block_size,
                ).len(),
    {
        let mut schema = clone_schema(left.schema());
        let right_schema = clone_schema(right.schema());
        extend_schema(&mut schema, &right_schema);
        let r = CrossOperator {
            left: Box::new(left),
            right: Some(Box::new(right)),
            side: RightSide::new(right_schema, block_size),
            schema,
            current_left: None,
        };
        proof {
            assert forall|d: DiskModel| #[trigger]
                r.rows(d) == crossed(left.rows(d), right.rows(d), d.block_size) by {
                if let Some(more) = right.rows(d) {
                    assert(Seq::<RowModel>::empty() + more =~= more);
                }
            }
            assert forall|d: DiskModel| #[trigger]
                r.requests_ahead(d, true) == left.requests_ahead(d, true) + right.requests_ahead(
                    d,
                    true,
                ) + cross_requests(
                    right.rows(d)->0,
                    left.rows(d)->0.len(),
                    0,
                    d.block_size,
                ).len() by {
                let more = right.rows(d)->0;
                assert(Seq::<RowModel>::empty() + more =~= more);
            }
        }
        r
    }

    /// The rows for the current left row.
    pub open spec fn current_rows(&self, d: DiskModel) -> Seq<RowModel> {
        match self.current_left {
            Some(row) => beside(row.deep_view(), self.side.rest(d)->0),
            None => Seq::empty(),
        }
    }

    /// Neither child asks anything more of the disk.
    pub open spec fn children_dry(&self, d: DiskModel) -> bool
        decreases self, 0int,
    {
        &&& self.left.dry(d)
        &&& match self.right {
            Some(right) => right.dry(d),
            None => true,
        }
    }

    /// The requests that are still to be made for a right side of the given rows, as far as
    /// it has not been written.
    pub open spec fn spill_left(
        &self,
        rows: Seq<RowModel>,
        next: int,
        block_size: nat,
        left_rows: nat,
    ) -> Seq<Request> {
        let groups = spread(rows, block_size);
        let start = if self.side.count > 0 {
            self.side.start as nat
        } else {
            next as nat
        };
        spill_writes(groups, start, self.side.count as nat, block_size) + side_reads(
            start,
            groups.len(),
            block_size,
            left_rows,
        )
    }

    /// How many requests there are for the right side does not depend on where it is written.
    proof fn lemma_spill_left_len(
        &self,
        rows: Seq<RowModel>,
        next: int,
        block_size: nat,
        left_rows: nat,
    )
        ensures
            self.spill_left(rows, next, block_size, left_rows).len() == self.spill_left(
                rows,
                0,
                block_size,
                left_rows,
            ).len(),
    {
        let groups = spread(rows, block_size);
        lemma_writes_len(groups, next as nat, 0, self.side.count as nat, block_size);
        lemma_side_reads_len(next as nat, 0, groups.len(), block_size, left_rows);
    }

    /// The requests that are still to be made, apart from those of the children.
    pub open spec fn requests_left(&self, disk: &DiskManager) -> Seq<Request> {
        let left_rows = self.left.rows(disk@)->0.len();
        match self.right {
            Some(right) => self.spill_left(
                self.side.all@ + right.rows(disk@)->0,
                disk@.next,
                disk@.block_size,
                left_rows,
            ),
            None => (if self.side.loading() || self.current_left is Some {
                self.side.reads_left(disk)
            } else {
                Seq::empty()
            }) + repeated(self.side.row_reads(), left_rows),
        }
    }

    /// What has been asked of the disk, and what is still to be asked.
    pub open spec fn traffic(&self, disk: &DiskManager) -> Seq<Request> {
        disk.world@.requests + self.requests_left(disk)
    }

    pub open spec fn current_work(&self, d: DiskModel) -> nat {
        match self.current_left {
            Some(row) => self.side.rest_work(d) + 1,
            None => 0,
        }
    }

    /// A row that has been added leaves the same requests to be made.
    proof fn lemma_spilled(
        self,
        before: CrossOperator<'q>,
        old_disk: DiskManager,
        disk: DiskManager,
        more: Seq<RowModel>,
    )
        requires
            self.right is Some,
            self.left.rows(disk@) == before.left.rows(old_disk@),
            self.right->0.rows(disk@) == Some(more),
            disk@.block_size == old_disk@.block_size,
            old_disk@.block_size >= 2,
            0 <= old_disk@.next,
            all_fit(self.side.all@ + more, old_disk@.block_size),
            ({
                let groups = spread(self.side.all@, old_disk@.block_size);
                if groups.len() > before.side.count + BATCH_BLOCKS {
                    &&& self.side.count == before.side.count + BATCH_BLOCKS
                    &&& before.side.count > 0 ==> self.side.start == before.side.start
                    &&& before.side.count == 0 ==> self.side.start == old_disk@.next
                    &&& disk.world@.requests == old_disk.world@.requests.push(
                        (Request::Write {
                            start: (self.side.start + before.side.count) as nat,
                            data: image(
                                groups.subrange(
                                    before.side.count as int,
                                    before.side.count + BATCH_BLOCKS,
                                ),
                                old_disk@.block_size,
                            ),
                        }),
                    )
                } else {
                    &&& self.side.count == before.side.count
                    &&& self.side.start == before.side.start
                    &&& disk == old_disk
                }
            }),
        ensures
            self.traffic(&disk) == old_disk.world@.requests + before.spill_left(
                self.side.all@ + more,
                old_disk@.next,
                old_disk@.block_size,
                before.left.rows(old_disk@)->0.len(),
            ),
    {
        let bs = old_disk@.block_size;
        let rows = self.side.all@;
        let from = before.side.count as nat;
        let start = if from > 0 {
            before.side.start as nat
        } else {
            old_disk@.next as nat
        };
        let groups = spread(rows + more, bs);
        let reads = side_reads(start, groups.len(), bs, before.left.rows(old_disk@)->0.len());
        if spread(rows, bs).len() > from + BATCH_BLOCKS {
            lemma_next_write(rows, more, start, from, bs);
            let w = disk.world@.requests.last();
            let rest = spill_writes(groups, start, from + BATCH_BLOCKS as nat, bs);
            assert(self.requests_left(&disk) == rest + reads);
            assert(old_disk.world@.requests.push(w) + (rest + reads)
                =~= old_disk.world@.requests + ((seq![w] + rest) + reads));
        }
    }

    /// The last write leaves the reads to be made.
    proof fn lemma_completed(
        self,
        before: CrossOperator<'q>,
        old_disk: DiskManager,
        disk: DiskManager,
        left_rows: nat,
    )
        requires
            self.right is None,
            self.side.loading(),
            self.left.rows(disk@) is Some,
            self.left.rows(disk@)->0.len() == left_rows,
            0 <= old_disk@.next,
            ({
                let bs = old_disk@.block_size;
                let groups = spread(before.side.all@, bs);
                &&& self.side.count == groups.len()
                &&& 1 <= groups.len() - before.side.count <= BATCH_BLOCKS
                &&& before.side.count > 0 ==> self.side.start == before.side.start
                &&& before.side.count == 0 ==> self.side.start == old_disk@.next
                &&& disk.world@.requests == old_disk.world@.requests.push(
                    (Request::Write {
                        start: (self.side.start + before.side.count) as nat,
                        data: image(groups.skip(before.side.count as int), bs),
                    }),
                )
                &&& self.side.phase is Loading == fits_cache(groups.len(), bs)
                &&& self.side.reads_left(&disk) == if fits_cache(groups.len(), bs) {
                    read_plan(self.side.start as nat, groups.len(), 0, BATCH_BLOCKS as nat)
                } else {
                    seq![Request::Read { start: self.side.start as nat, count: 1 }]
                }
            }),
        ensures
            self.traffic(&disk) == old_disk.world@.requests + before.spill_left(
                before.side.all@,
                old_disk@.next,
                old_disk@.block_size,
                left_rows,
            ),
    {
        let bs = old_disk@.block_size;
        let groups = spread(before.side.all@, bs);
        let start = self.side.start as nat;
        let w = disk.world@.requests.last();
        let reads = side_reads(start, groups.len(), bs, left_rows);
        lemma_repeated_none(left_rows);
        if fits_cache(groups.len(), bs) {
            let plan = self.side.reads_left(&disk);
            assert(plan + Seq::<Request>::empty() =~= plan);
        }
        assert(self.requests_left(&disk) == reads);
        assert(old_disk.world@.requests.push(w) + reads =~= old_disk.world@.requests + (seq![w]
            + reads));
        assert(spill_writes(groups, start, before.side.count as nat, bs) =~= seq![w]);
    }

    /// Takes in a row that the right child has just given.
    fn spill_row(&mut self, row: Row, disk: &mut DiskManager) -> (s: Step)
        requires
            old(disk).wf(),
            old(disk).idle(),
            old(self).wf(),
            old(self).right matches Some(right) && right.settled() && right.quiet(),
            conforms(row.deep_view(), old(self).side.schema.deep_view()),
        ensures
            final(disk).wf(),
            final(disk).idle(),
            final(disk).follows(old(disk)),
            grows(old(disk)@, final(disk)@),
            !(s is Failed) ==> final(self).wf(),
            final(self).columns() == old(self).columns(),
            final(self).left == old(self).left,
            final(self).right == old(self).right,
            s is Pending || s is Failed,
            final(disk)@.healthy && old(self).placed(old(disk)@) ==> {
                let r = match old(self).right->0.rows(old(disk)@) {
                    Some(more) => Some(old(self).side.all@ + (seq![row.deep_view()] + more)),
                    None => None,
                };
                let all = crossed(old(self).left.rows(old(disk)@), r, old(disk)@.block_size);
                if s is Pending {
                    &&& final(self).placed(final(disk)@)
                    &&& final(self).children_dry(final(disk)@) == old(self).children_dry(
                        old(disk)@,
                    )
                    &&& final(self).rows(final(disk)@) == all
                    &&& r is Some && old(self).left.rows(old(disk)@) is Some ==> final(self).work(
                        final(disk)@,
                    ) == old(self).right->0.work(old(disk)@) + old(self).left.work(old(disk)@)
                        + old(self).left.rows(old(disk)@)->0.len() * row_cost(r->0.len()) + 2
                        * r->0.len() + 3
                    &&& all is Some ==> final(self).traffic(final(disk))
                        == old(disk).world@.requests + old(self).spill_left(
                        r->0,
                        old(disk)@.next,
                        old(disk)@.block_size,
                        old(self).left.rows(old(disk)@)->0.len(),
                    )
                    &&& all is Some ==> final(disk).world@.requests.len()
                        + final(self).requests_ahead(final(disk)@, true)
                        == old(disk).world@.requests.len() + old(self).right->0.requests_ahead(
                        old(disk)@,
                        true,
                    ) + old(self).left.requests_ahead(old(disk)@, true) + old(self).spill_left(
                        r->0,
                        0,
                        old(disk)@.block_size,
                        old(self).left.rows(old(disk)@)->0.len(),
                    ).len()
                } else {
                    all is None
                }
            },
    {
        let ghost before = *self;
        let ghost d = disk@;
        let ok = self.side.add_row(&row, disk);
        proof {
            if disk@.healthy && before.placed(d) {
                self.left.lemma_grows(d, disk@);
                self.right->0.lemma_grows(d, disk@);
                if let Some(more) = before.right->0.rows(d) {
                    let r = before.side.all@ + (seq![row.deep_view()] + more);
                    if ok {
                        assert(self.side.all@ + more =~= r);
                        if all_fit(r, d.block_size) {
                            let n = before.left.rows(d)->0.len();
                            self.lemma_spilled(before, *old(disk), *disk, more);
                            before.lemma_spill_left_len(r, d.next, d.block_size, n);
                            self.lemma_spill_left_len(r, disk@.next, d.block_size, n);
                            let own = self.spill_left(r, disk@.next, d.block_size, n);
                            assert(self.requests_left(disk) == own);
                            assert(self.traffic(disk).len() == disk.world@.requests.len()
                                + own.len());
                            assert(self.requests_ahead(disk@, true)
                                == self.right->0.requests_ahead(disk@, true)
                                + self.left.requests_ahead(disk@, true) + own.len());
                        }
                    } else {
                        assert(r[before.side.all@.len() as int] == row.deep_view());
                        assert(!all_fit(r, d.block_size));
                    }
                }
            }
        }
        if ok {
            Step::Pending
        } else {
            Step::Failed
        }
    }

    /// All right rows have come.
    fn end_spill(&mut self, disk: &mut DiskManager) -> (s: Step)
        requires
            old(disk).wf(),
            old(disk).idle(),
            old(self).wf(),
            old(self).right is Some,
        ensures
            final(disk).wf(),
            final(disk).idle(),
            final(disk).follows(old(disk)),
            grows(old(disk)@, final(disk)@),
            !(s is Failed) ==> final(self).wf(),
            final(self).columns() == old(self).columns(),
            final(self).left == old(self).left,
            s is Pending ==> final(self).right is None,
            s is Pending || s is Failed,
            final(disk)@.healthy && old(self).left.placed(old(disk)@) && old(self).side.placed(
                old(disk)@,
            ) ==> {
                let all = crossed(
                    old(self).left.rows(old(disk)@),
                    Some(old(self).side.all@),
                    old(disk)@.block_size,
                );
                if s is Pending {
                    &&& final(self).placed(final(disk)@)
                    &&& final(self).children_dry(final(disk)@) == old(self).left.dry(old(disk)@)
                    &&& final(self).rows(final(disk)@) == all
                    &&& old(self).left.rows(old(disk)@) is Some ==> final(self).work(final(disk)@)
                        <= old(self).left.work(old(disk)@) + old(self).left.rows(
                        old(disk)@,
                    )->0.len() * row_cost(old(self).side.all@.len()) + 2
                        * old(self).side.all@.len() + 2
                    &&& all is Some ==> final(self).traffic(final(disk))
                        == old(disk).world@.requests + old(self).spill_left(
                        old(self).side.all@,
                        old(disk)@.next,
                        old(disk)@.block_size,
                        old(self).left.rows(old(disk)@)->0.len(),
                    )
                    &&& all is Some ==> final(disk).world@.requests.len()
                        + final(self).requests_ahead(final(disk)@, true)
                        == old(disk).world@.requests.len() + old(self).left.requests_ahead(
                        old(disk)@,
                        true,
                    ) + old(self).spill_left(
                        old(self).side.all@,
                        0,
                        old(disk)@.block_size,
                        old(self).left.rows(old(disk)@)->0.len(),
                    ).len()
                } else {
                    all is None
                }
            },
    {
        let ghost before = *self;
        let ghost d = disk@;
        if self.side.finish(disk) {
            self.right = None;
            proof {
                if before.left.placed(d) {
                    self.left.lemma_grows(d, disk@);
                    if let Some(l) = before.left.rows(d) {
                        let all = product(l, before.side.all@);
                        assert(Seq::<RowModel>::empty() + all =~= all);
                        self.lemma_completed(before, *old(disk), *disk, l.len());
                        before.lemma_spill_left_len(
                            before.side.all@,
                            d.next,
                            d.block_size,
                            l.len(),
                        );
                        assert(self.requests_ahead(disk@, true) == self.left.requests_ahead(
                            disk@,
                            true,
                        ) + self.requests_left(disk).len());
                    }
                }
            }
            Step::Pending
        } else {
            Step::Failed
        }
    }

    /// The next pair of the current left row.
    fn next_pair(&mut self, disk: &mut DiskManager) -> (s: Step)
        requires
            old(self).wf(),
            old(self).right is None,
            old(self).current_left is Some,
            old(disk).wf(),
            disk_ready(old(disk), old(self).side.want()),
        ensures
            final(self).wf(),
            final(self).right is None,
            final(self).left == old(self).left,
            final(disk).wf(),
            final(self).columns() == old(self).columns(),
            final(disk).follows(old(disk)),
            final(disk)@ == old(disk)@,
            reads_at_most(old(disk), final(disk)),
            !(s is Failed) ==> disk_ready(final(disk), final(self).want()),
            !(s is Done),
            s is Row ==> final(disk).idle(),
            s matches Step::Row(r) ==> conforms(r.deep_view(), old(self).columns()),
            final(disk)@.healthy && old(self).placed(old(disk)@) ==> {
                &&& !(s is Failed)
                &&& final(self).placed(final(disk)@)
                &&& step_follows(
                    old(self).rows(old(disk)@),
                    final(self).rows(final(disk)@),
                    s,
                )
                &&& old(self).left.rows(old(disk)@) is Some ==> step_advances(
                    old(self).work(old(disk)@),
                    final(self).work(final(disk)@),
                    old(disk),
                    final(disk),
                )
            },
            !(s is Failed) ==> final(self).traffic(final(disk)) == old(self).traffic(old(disk)),
            !(s is Failed) && !old(self).side.loading() ==> final(disk).world@.requests.len()
                + final(self).requests_ahead(final(disk)@, final(disk).idle())
                == old(disk).world@.requests.len() + old(self).requests_ahead(
                old(disk)@,
                old(disk).idle(),
            ),
            final(self).side.phase is Cached == old(self).side.phase is Cached,
            old(self).side.phase is Cached ==> *final(disk) == *old(disk),
    {
        let ghost before = *self;
        let ghost d = disk@;
        let ghost row = before.current_left->0.deep_view();
        let step = self.side.next_right(disk);
        proof {
            before.side.lemma_loaded(d);
            self.side.lemma_loaded(d);
            if !(step is Failed) {
                let tail = repeated(self.side.row_reads(), self.left.rows(d)->0.len());
                let (a, b) = (old(disk).world@.requests, before.side.reads_left(old(disk)));
                let (x, y) = (disk.world@.requests, self.side.reads_left(disk));
                assert(a + (b + tail) =~= (a + b) + tail);
                assert(x + (y + tail) =~= (x + y) + tail);
                assert((x + y).len() == (a + b).len());
                assert(before.requests_ahead(d, old(disk).idle()) == before.left.requests_ahead(
                    d,
                    true,
                ) + b.len() + tail.len());
            }
        }
        match step {
            Step::Row(right_row) => match &self.current_left {
                Some(left_row) => {
                    let out = join_rows(left_row, &right_row);
                    proof {
                        lemma_joined_conform(
                            row,
                            right_row.deep_view(),
                            self.left.columns(),
                            self.side.schema.deep_view(),
                        );
                        if d.healthy && before.placed(d) {
                            let rest = before.side.rest(d)->0;
                            assert(beside(row, rest).drop_first() =~= beside(
                                row,
                                rest.drop_first(),
                            ));
                            if let Some(l) = before.left.rows(d) {
                                let tail = product(l, self.side.all@);
                                assert((beside(row, rest) + tail).drop_first() =~= beside(
                                    row,
                                    rest.drop_first(),
                                ) + tail);
                            }
                        }
                    }
                    Step::Row(out)
                },
                None => Step::Failed,
            },
            Step::Done => {
                self.current_left = None;
                proof {
                    if d.healthy && before.placed(d) {
                        assert(before.current_rows(d) =~= Seq::<RowModel>::empty());
                    }
                }
                Step::Pending
            },
            Step::Pending => Step::Pending,
            Step::Failed => Step::Failed,
        }
    }
}

/// Rows of two schemas side by side are of the schemas side by side.
pub proof fn lemma_joined_conform(
    left: RowModel,
    right: RowModel,
    left_schema: SchemaModel,
    right_schema: SchemaModel,
)
    requires
        conforms(left, left_schema),
        conforms(right, right_schema),
    ensures
        conforms(left + right, left_schema + right_schema),
{
}

impl<'q> Operator for CrossOperator<'q> {
    open spec fn wf(&self) -> bool
        decreases self,
    {
        &&& self.left.wf()
        &&& self.side.wf()
        &&& self.schema.deep_view() == self.left.columns() + self.side.schema.deep_view()
        &&& self.current_left matches Some(row) ==> {
            &&& conforms(row.deep_view(), self.left.columns())
            &&& self.left.settled()
            &&& self.left.quiet()
            &&& !self.side.spilling()
            &&& !self.side.loading()
        }
        &&& match self.right {
            Some(right) => {
                &&& right.wf()
                &&& right.columns() == self.side.schema.deep_view()
                &&& self.side.spilling()
                &&& self.left.quiet()
                &&& self.side.writing() ==> right.settled()
            },
            None => !self.side.spilling(),
        }
    }

    open spec fn columns(&self) -> SchemaModel {
        self.schema.deep_view()
    }

    open spec fn want(&self) -> Option<(u64, u64)>
        decreases self,
    {
        match self.right {
            Some(right) => right.want(),
            None => if self.side.loading() || self.current_left is Some {
                self.side.want()
            } else {
                self.left.want()
            },
        }
    }

    open spec fn placed(&self, d: DiskModel) -> bool
        decreases self,
    {
        &&& self.left.placed(d)
        &&& self.side.placed(d)
        &&& match self.right {
            Some(right) => right.placed(d),
            None => true,
        }
    }

    open spec fn rows(&self, d: DiskModel) -> Option<Seq<RowModel>>
        decreases self,
    {
        match self.right {
            Some(right) => crossed(
                self.left.rows(d),
                match right.rows(d) {
                    Some(more) => Some(self.side.all@ + more),
                    None => None,
                },
                d.block_size,
            ),
            None => match self.left.rows(d) {
                Some(l) => Some(self.current_rows(d) + product(l, self.side.all@)),
                None => None,
            },
        }
    }

    open spec fn work(&self, d: DiskModel) -> nat
        decreases self,
    {
        match (self.right, self.left.rows(d)) {
            (Some(right), Some(l)) => match right.rows(d) {
                Some(more) => {
                    let n = self.side.all@.len() + more.len();
                    right.work(d) + self.left.work(d) + l.len() * row_cost(n) + 2 * n + 3
                },
                None => 0,
            },
            (None, Some(l)) => self.left.work(d) + l.len() * row_cost(self.side.all@.len())
                + self.current_work(d) + self.side.load_work(d),
            _ => 0,
        }
    }

    open spec fn settled(&self) -> bool
        decreases self,
    {
        self.right is None && self.left.settled()
    }

    open spec fn dry(&self, d: DiskModel) -> bool
        decreases self,
    {
        self.right is None && self.side.phase is Cached && self.left.dry(d)
    }

    open spec fn writes_nothing(&self, d: DiskModel) -> bool
        decreases self,
    {
        self.right is None && self.left.writes_nothing(d)
    }

    open spec fn requests_ahead(&self, d: DiskModel, idle: bool) -> nat
        decreases self,
    {
        let left_rows = self.left.rows(d)->0.len();
        match self.right {
            Some(right) => right.requests_ahead(d, idle) + self.left.requests_ahead(d, true)
                + self.spill_left(
                self.side.all@ + right.rows(d)->0,
                0,
                d.block_size,
                left_rows,
            ).len(),
            None => if self.side.loading() || self.current_left is Some {
                self.left.requests_ahead(d, true) + self.side.reads_when(idle).len() + repeated(
                    self.side.row_reads(),
                    left_rows,
                ).len()
            } else {
                self.left.requests_ahead(d, idle) + repeated(
                    self.side.row_reads(),
                    left_rows,
                ).len()
            },
        }
    }

    open spec fn quiet(&self) -> bool
        decreases self,
    {
        match self.right {
            Some(right) => right.quiet() && self.left.quiet() && !self.side.writing(),
            None => self.left.quiet(),
        }
    }

    proof fn lemma_grows(&self, d: DiskModel, d2: DiskModel)
        decreases self,
    {
        self.left.lemma_grows(d, d2);
        match &self.right {
            Some(right) => right.lemma_grows(d, d2),
            None => self.side.lemma_not_writing(),
        }
        self.side.lemma_grows(d, d2);
    }

    fn schema(&self) -> (r: &Schema) {
        &self.schema
    }

    #[verifier::rlimit(60)]
    fn next(&mut self, disk: &mut DiskManager) -> (s: Step)
        ensures
            old(self).children_dry(old(disk)@) && !(s is Failed) && final(disk)@.healthy
                && old(self).placed(old(disk)@) && old(self).rows(old(disk)@) is Some ==> {
                &&& final(self).children_dry(final(disk)@)
                &&& final(self).traffic(final(disk)) == old(self).traffic(old(disk))
                &&& s is Done ==> final(self).requests_left(final(disk)) == Seq::<Request>::empty()
            },
            old(self).right is None && old(self).side.phase is Cached && !(s is Failed) ==> {
                &&& final(self).side.phase is Cached
                &&& old(self).current_left is Some ==> *final(disk) == *old(disk)
            },
        decreases *old(self),
    {
        let ghost before = *self;
        let ghost d = disk@;
        if let Some(right) = &mut self.right {
            let step = right.next(disk);
            let ghost d1 = disk@;
            proof {
                if before.placed(d) {
                    self.left.lemma_grows(d, d1);
                    if !before.side.writing() {
                        before.side.lemma_grows(d, d1);
                    }
                    if let Some(more) = before.right->0.rows(d) {
                        let n = before.side.all@.len();
                        if more.len() > 0 {
                            assert(more =~= seq![more[0]] + more.drop_first());
                        } else {
                            assert(before.side.all@ + more =~= before.side.all@);
                        }
                        assert(before.requests_ahead(d, old(disk).idle())
                            == before.right->0.requests_ahead(d, old(disk).idle())
                            + before.left.requests_ahead(d, true) + before.spill_left(
                            before.side.all@ + more,
                            0,
                            d.block_size,
                            before.left.rows(d)->0.len(),
                        ).len());
                        assert(before.left.rows(d) is Some ==> before.work(d)
                            == before.right->0.work(d) + before.left.work(d)
                            + before.left.rows(d)->0.len() * row_cost(
                            (before.side.all@ + more).len(),
                        ) + 2 * (n + more.len()) + 3);
                    }
                }
            }
            return match step {
                Step::Row(row) => self.spill_row(row, disk),
                Step::Done => self.end_spill(disk),
                Step::Pending => Step::Pending,
                Step::Failed => Step::Failed,
            };
        }
        if self.side.is_loading() {
            if self.side.load(disk) {
                proof {
                    let tail = repeated(self.side.row_reads(), self.left.rows(d)->0.len());
                    let (a, b) = (old(disk).world@.requests, before.side.reads_left(old(disk)));
                    let x = disk.world@.requests;
                    let y = if self.side.loading() {
                        self.side.reads_left(disk)
                    } else {
                        Seq::empty()
                    };
                    assert(a + (b + tail) =~= (a + b) + tail);
                    assert(x + (y + tail) =~= (x + y) + tail);
                    assert((x + y).len() == (a + b).len());
                    assert(before.requests_ahead(d, old(disk).idle())
                        == before.left.requests_ahead(d, true) + b.len() + tail.len());
                    assert(self.requests_ahead(d, disk.idle()) == self.left.requests_ahead(d, true)
                        + y.len() + tail.len());
                }
                return Step::Pending;
            }
            return Step::Failed;
        }
        if self.current_left.is_some() {
            return self.next_pair(disk);
        }
        let step = self.left.next(disk);
        let ghost d1 = disk@;
        proof {
            self.side.lemma_not_writing();
            if before.placed(d) {
                self.side.lemma_grows(d, d1);
            }
        }
        match step {
            Step::Row(row) => {
                self.side.rewind();
                self.current_left = Some(row);
                proof {
                    before.side.lemma_loaded(d);
                    self.side.lemma_loaded(d1);
                    assert(self.side.reads_left(disk) == before.side.row_reads());
                    if let Some(l) = before.left.rows(d) {
                        if l.len() > 0 {
                            lemma_one_less(l.len(), self.side.all@.len());
                        }
                    }
                }
                Step::Pending
            },
            Step::Done => Step::Done,
            Step::Pending => Step::Pending,
            Step::Failed => Step::Failed,
        }
    }
}

/// What a cross product asks of the disk from its first step to its last, where its children
/// ask nothing themselves: the right rows are written as they would be packed at once, 64
/// blocks in every write but the last, to the next unused blocks; and then they are read
/// back. Where they are kept in memory there is a read for every 64 blocks and one for the
/// rest, whatever the number of left rows. `before` and `after` are the disk at the start and
/// at the end of an operator that has been stepped to its end; no step changes what has been
/// asked for together with what is still to be asked for.
pub proof fn lemma_cross_requests(
    first: CrossOperator,
    before: DiskManager,
    last: CrossOperator,
    after: DiskManager,
)
    requires
        first.right is Some,
        first.side.count == 0,
        first.side.all@ == Seq::<RowModel>::empty(),
        first.left.rows(before@) is Some,
        first.right->0.rows(before@) is Some,
        before@.block_size >= 2,
        all_fit(first.right->0.rows(before@)->0, before@.block_size),
        last.traffic(&after) == first.traffic(&before),
        last.requests_left(&after) == Seq::<Request>::empty(),
    ensures
        ({
            let rows = first.right->0.rows(before@)->0;
            let bs = before@.block_size;
            let start = before@.next as nat;
            let groups = spread(rows, bs);
            let k = groups.len();
            let writes = spill_writes(groups, start, 0, bs);
            let reads = side_reads(start, k, bs, first.left.rows(before@)->0.len());
            &&& after.world@.requests == before.world@.requests + (writes + reads)
            &&& writes.len() == (k + 63) / 64
            &&& writes.len() >= 1
            &&& written_data(writes) == image(groups, bs)
            &&& forall|i: int|
                0 <= i < writes.len() ==> {
                    let end = if 64 * i + 64 < k {
                        64 * i + 64
                    } else {
                        k as int
                    };
                    &&& #[trigger] writes[i] == (Request::Write {
                        start: (start + 64 * i) as nat,
                        data: image(groups.subrange(64 * i, end), bs),
                    })
                    &&& 1 <= end - 64 * i <= 64
                    &&& i < writes.len() - 1 ==> end - 64 * i == 64
                }
            &&& fits_cache(k, bs) ==> {
                &&& reads.len() == (k + 63) / 64
                &&& forall|i: int|
                    0 <= i < reads.len() ==> {
                        &&& #[trigger] reads[i] is Read
                        &&& reads[i]->count <= 64
                    }
            }
        }),
{
    let rows = first.right->0.rows(before@)->0;
    let bs = before@.block_size;
    let start = before@.next as nat;
    let groups = spread(rows, bs);
    let writes = spill_writes(groups, start, 0, bs);
    let left_rows = first.left.rows(before@)->0.len();
    assert(first.side.all@ + rows =~= rows);
    lemma_spread(rows, bs);
    lemma_spill_writes(groups, start, 0, bs);
    assert(groups.skip(0) =~= groups);
    if fits_cache(groups.len(), bs) {
        lemma_cached_reads(start, groups.len(), bs, left_rows);
    }
    assert(after.world@.requests + Seq::<Request>::empty() =~= after.world@.requests);
    assert forall|i: int| 0 <= i < writes.len() implies {
        let end = if 64 * i + 64 < groups.len() {
            64 * i + 64
        } else {
            groups.len() as int
        };
        &&& #[trigger] writes[i] == (Request::Write {
            start: (start + 64 * i) as nat,
            data: image(groups.subrange(64 * i, end), bs),
        })
        &&& 1 <= end - 64 * i <= 64
        &&& i < writes.len() - 1 ==> end - 64 * i == 64
    } by {}
}

} // verus!
