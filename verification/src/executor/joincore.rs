//! A hash join, apart from the operators that feed it.

use vstd::prelude::*;

use crate::block::all_fit;
use crate::disk::{grows, reads_at_most, DiskManager, DiskModel, Request};
use crate::executor::cross::beside;
use crate::executor::jointable::{copy_indices, indices_ok, matching, Probe};
use crate::executor::partition::{estimate_row_bytes, rows_weight, PartitionBuffers, FLUSH_THRESHOLD,
    NUM_PARTITIONS};
use crate::executor::partjoin::{hash_joined, parts_cost, parts_joined, probe_cost, PartJoin};
use crate::executor::parttraffic::{divided, divided_join, give_rows, join_requests, lemma_give_more,
    lemma_give_one, lemma_left_len, lemma_right_len, lemma_same_parts, no_parts, parts_reads,
    Dividing};
use crate::executor::{disk_ready, step_advances, step_follows, Step};
use crate::key::key_of;
use crate::row::{all_conform, clone_row, clone_schema, conforms, row_bytes, Row, RowModel, Schema,
    SchemaModel};

verus! {

/// If the right side stays under this, it is kept in memory, and else both sides are
/// divided into partitions on disk.
pub const INMEM_BUILD_BUDGET: usize = 16777216;

/// What a hash join gives. Nothing where rows that have to go to disk are larger than
/// a block.
pub open spec fn joined(
    li: Seq<usize>,
    ri: Seq<usize>,
    left: Option<Seq<RowModel>>,
    right: Option<Seq<RowModel>>,
    block_size: nat,
) -> Option<Seq<RowModel>> {
    match (left, right) {
        (Some(l), Some(r)) => if rows_weight(r) < INMEM_BUILD_BUDGET {
            Some(hash_joined(li, ri, l, r))
        } else if all_fit(l, block_size) && all_fit(r, block_size) {
            Some(parts_joined(li, ri, l, r, 0))
        } else {
            None
        },
        _ => None,
    }
}

/// The steps of a join once all rows are there.
pub open spec fn join_cost(
    li: Seq<usize>,
    ri: Seq<usize>,
    left: Seq<RowModel>,
    right: Seq<RowModel>,
) -> nat {
    if rows_weight(right) < INMEM_BUILD_BUDGET {
        probe_cost(left.len(), right.len())
    } else {
        parts_cost(li, ri, left, right, 0)
    }
}

/// More rows do not weigh less, and where they fit, so do fewer.
pub proof fn lemma_more_rows(a: Seq<RowModel>, b: Seq<RowModel>, block_size: nat)
    ensures
        rows_weight(a + b) >= rows_weight(a),
        all_fit(a + b, block_size) ==> all_fit(a, block_size),
    decreases b.len(),
{
    if b.len() == 0 {
        assert(a + b =~= a);
    } else {
        lemma_more_rows(a, b.drop_last(), block_size);
        assert((a + b).drop_last() =~= a + b.drop_last());
    }
    if all_fit(a + b, block_size) {
        assert forall|k: int| 0 <= k < a.len() implies row_bytes(#[trigger] a[k]).len()
            <= block_size - 2 by {
            assert((a + b)[k] == a[k]);
        }
    }
}

/// How far a join has come.
pub enum JoinPhase {
    /// The right rows go to the table.
    Building { bytes: usize },
    /// The right rows go to partitions.
    DividingRight { right: PartitionBuffers },
    /// The left rows go to partitions.
    DividingLeft { left: PartitionBuffers, right: PartitionBuffers },
    /// The left rows meet the table.
    Probing,
    /// The partitions are joined.
    Reading { join: PartJoin },
}

/// A hash join. `all_left` and `all_right` are the rows that have been given to be kept.
pub struct JoinCore {
    pub left_schema: Schema,
    pub right_schema: Schema,
    pub probe: Probe,
    pub phase: JoinPhase,
    pub all_left: Ghost<Seq<RowModel>>,
    pub all_right: Ghost<Seq<RowModel>>,
}

/// The partitions hold the rows, divided by the given columns.
pub open spec fn side_ok(
    side: PartitionBuffers,
    indices: Seq<usize>,
    schema: SchemaModel,
    rows: Seq<RowModel>,
) -> bool {
    &&& side.wf()
    &&& side.indices@ == indices
    &&& side.schema.deep_view() == schema
    &&& side.given@ == rows
}

impl JoinCore {
    pub open spec fn li(&self) -> Seq<usize> {
        self.probe.left_indices@
    }

    pub open spec fn ri(&self) -> Seq<usize> {
        self.probe.table.indices@
    }

    pub open spec fn ls(&self) -> SchemaModel {
        self.left_schema.deep_view()
    }

    pub open spec fn rs(&self) -> SchemaModel {
        self.right_schema.deep_view()
    }

    pub open spec fn taking_right(&self) -> bool {
        self.phase is Building || self.phase is DividingRight
    }

    pub open spec fn dividing_left(&self) -> bool {
        self.phase is DividingLeft
    }

    pub open spec fn probing(&self) -> bool {
        self.phase is Probing
    }

    pub open spec fn reading(&self) -> bool {
        self.phase is Reading
    }

    /// A left row has matches to be given out.
    pub open spec fn matching(&self) -> bool {
        self.probe.current is Some
    }

    /// The columns of the join do not change.
    pub open spec fn same_shape(&self, other: &JoinCore) -> bool {
        &&& self.li() == other.li()
        &&& self.ri() == other.ri()
        &&& self.ls() == other.ls()
        &&& self.rs() == other.rs()
    }

    pub closed spec fn wf(&self) -> bool {
        &&& self.probe.wf(self.ls(), self.rs())
        &&& indices_ok(self.li(), self.ls().len())
        &&& indices_ok(self.ri(), self.rs().len())
        &&& !self.probing() ==> !self.matching()
        &&& match self.phase {
            JoinPhase::Building { bytes } => {
                &&& self.probe.table.rows.deep_view() == self.all_right@
                &&& bytes == rows_weight(self.all_right@)
                &&& bytes < INMEM_BUILD_BUDGET
            },
            JoinPhase::DividingRight { right } => {
                &&& side_ok(right, self.ri(), self.rs(), self.all_right@)
                &&& rows_weight(self.all_right@) >= INMEM_BUILD_BUDGET
                &&& self.probe.table.rows.deep_view() == Seq::<RowModel>::empty()
            },
            JoinPhase::DividingLeft { left, right } => {
                &&& side_ok(left, self.li(), self.ls(), self.all_left@)
                &&& side_ok(right, self.ri(), self.rs(), self.all_right@)
                &&& right.flushed()
                &&& rows_weight(self.all_right@) >= INMEM_BUILD_BUDGET
                &&& self.probe.table.rows.deep_view() == Seq::<RowModel>::empty()
            },
            JoinPhase::Probing => {
                &&& self.probe.table.rows.deep_view() == self.all_right@
                &&& rows_weight(self.all_right@) < INMEM_BUILD_BUDGET
            },
            JoinPhase::Reading { join } => {
                &&& join.wf()
                &&& join.left_schema() == self.ls()
                &&& join.right_schema() == self.rs()
            },
        }
    }

    pub closed spec fn placed(&self, d: DiskModel) -> bool {
        &&& 0 <= d.next
        &&& match self.phase {
            JoinPhase::Building { .. } => true,
            JoinPhase::DividingRight { right } => right.placed(d),
            JoinPhase::DividingLeft { left, right } => left.placed(d) && right.placed(d),
            JoinPhase::Probing => true,
            JoinPhase::Reading { join } => join.placed(d),
        }
    }

    pub closed spec fn want(&self) -> Option<(u64, u64)> {
        match self.phase {
            JoinPhase::Reading { join } => join.want(),
            _ => None,
        }
    }

    /// The rows still to come of the current left row.
    pub closed spec fn current_rows(&self) -> Seq<RowModel> {
        self.probe.rest()
    }

    /// The rows still to come of the partitions.
    pub closed spec fn read_rows(&self, d: DiskModel) -> Seq<RowModel> {
        match self.phase {
            JoinPhase::Reading { join } => join.rows(d),
            _ => Seq::empty(),
        }
    }

    pub closed spec fn read_work(&self, d: DiskModel) -> nat {
        match self.phase {
            JoinPhase::Reading { join } => join.work(d),
            _ => 0,
        }
    }

    /// The requests that have been made of the disk, and those that are still to be made if
    /// the given right and left rows are what is still to come.
    pub closed spec fn traffic(
        &self,
        disk: &DiskManager,
        right_rows: Seq<RowModel>,
        left_rows: Seq<RowModel>,
    ) -> Seq<Request> {
        let bs = disk@.block_size;
        match self.phase {
            JoinPhase::Building { .. } => join_requests(
                disk.world@.requests,
                disk@.next as nat,
                self.li(),
                self.ri(),
                left_rows,
                self.all_right@ + right_rows,
                bs,
            ),
            JoinPhase::DividingRight { right } => divided_join(
                right.state(disk),
                self.ri(),
                right_rows,
                self.li(),
                left_rows,
                bs,
            ),
            JoinPhase::DividingLeft { left, right } => {
                let all = divided(left.state(disk), self.li(), left_rows, bs);
                all.requests + parts_reads(all.parts, right.model(), 0)
            },
            JoinPhase::Probing => disk.world@.requests,
            JoinPhase::Reading { join } => disk.world@.requests + join.reads_left(disk),
        }
    }

    /// How many requests are still to be made if the given right and left rows are what is
    /// still to come, and the disk is free or else busy with what is wanted.
    pub closed spec fn requests_ahead(
        &self,
        block_size: nat,
        idle: bool,
        right_rows: Seq<RowModel>,
        left_rows: Seq<RowModel>,
    ) -> nat {
        match self.phase {
            JoinPhase::Building { .. } => join_requests(
                Seq::empty(),
                0,
                self.li(),
                self.ri(),
                left_rows,
                self.all_right@ + right_rows,
                block_size,
            ).len(),
            JoinPhase::DividingRight { right } => divided_join(
                Dividing { parts: right.model(), requests: Seq::empty(), next: 0 },
                self.ri(),
                right_rows,
                self.li(),
                left_rows,
                block_size,
            ).len(),
            JoinPhase::DividingLeft { left, right } => {
                let start = Dividing { parts: left.model(), requests: Seq::empty(), next: 0 };
                let all = divided(start, self.li(), left_rows, block_size);
                (all.requests + parts_reads(all.parts, right.model(), 0)).len()
            },
            JoinPhase::Probing => 0,
            JoinPhase::Reading { join } => join.reads_when(idle).len(),
        }
    }

    pub proof fn lemma_probing_ahead(
        &self,
        block_size: nat,
        idle: bool,
        left_rows: Seq<RowModel>,
    )
        requires
            self.probing(),
        ensures
            self.requests_ahead(block_size, idle, Seq::empty(), left_rows) == 0,
    {
    }

    pub proof fn lemma_traffic_len(
        &self,
        disk: &DiskManager,
        right_rows: Seq<RowModel>,
        left_rows: Seq<RowModel>,
    )
        requires
            self.wf(),
        ensures
            self.traffic(disk, right_rows, left_rows).len() == disk.world@.requests.len()
                + self.requests_ahead(disk@.block_size, disk.idle(), right_rows, left_rows),
    {
        let bs = disk@.block_size;
        let made = disk.world@.requests;
        let none = Seq::<Request>::empty();
        match &self.phase {
            JoinPhase::Building { .. } => {
                lemma_same_parts(no_parts());
                lemma_right_len(
                    Dividing { parts: no_parts(), requests: none, next: 0 },
                    Dividing { parts: no_parts(), requests: made, next: disk@.next as nat },
                    made.len(),
                    self.ri(),
                    self.all_right@ + right_rows,
                    self.li(),
                    left_rows,
                    bs,
                );
            },
            JoinPhase::DividingRight { right } => {
                right.lemma_held();
                lemma_same_parts(right.model());
                lemma_right_len(
                    Dividing { parts: right.model(), requests: none, next: 0 },
                    right.state(disk),
                    made.len(),
                    self.ri(),
                    right_rows,
                    self.li(),
                    left_rows,
                    bs,
                );
            },
            JoinPhase::DividingLeft { left, right } => {
                left.lemma_held();
                right.lemma_held();
                lemma_same_parts(left.model());
                lemma_same_parts(right.model());
                lemma_left_len(
                    Dividing { parts: left.model(), requests: none, next: 0 },
                    left.state(disk),
                    made.len(),
                    right.model(),
                    right.model(),
                    self.li(),
                    left_rows,
                    bs,
                );
            },
            _ => {},
        }
    }

    /// All requests of a join that has been given no rows.
    pub proof fn lemma_fresh_traffic(
        &self,
        disk: &DiskManager,
        right_rows: Seq<RowModel>,
        left_rows: Seq<RowModel>,
    )
        requires
            self.phase is Building,
            self.all_right@.len() == 0,
        ensures
            self.traffic(disk, right_rows, left_rows) == join_requests(
                disk.world@.requests,
                disk@.next as nat,
                self.li(),
                self.ri(),
                left_rows,
                right_rows,
                disk@.block_size,
            ),
    {
        assert(self.all_right@ + right_rows =~= right_rows);
    }

    /// Rows that meet a table in memory need nothing of the disk.
    pub proof fn lemma_probing_traffic(
        &self,
        disk: &DiskManager,
        right_rows: Seq<RowModel>,
        left_rows: Seq<RowModel>,
    )
        requires
            self.probing(),
        ensures
            self.traffic(disk, right_rows, left_rows) == disk.world@.requests,
    {
    }

    pub proof fn lemma_grows(&self, d: DiskModel, d2: DiskModel)
        requires
            self.wf(),
            self.placed(d),
            grows(d, d2),
        ensures
            self.placed(d2),
            self.read_rows(d2) == self.read_rows(d),
            self.read_work(d2) == self.read_work(d),
    {
        match &self.phase {
            JoinPhase::DividingRight { right } => right.lemma_grows(d, d2),
            JoinPhase::DividingLeft { left, right } => {
                left.lemma_grows(d, d2);
                right.lemma_grows(d, d2);
            },
            JoinPhase::Reading { join } => join.lemma_grows(d, d2),
            _ => {},
        }
    }

    /// The right rows in memory stay below the budget. While rows are divided, none are in
    /// the table, and the rows of each partition that are in memory stay below the threshold.
    pub proof fn lemma_held(&self)
        requires
            self.wf(),
        ensures
            self.taking_right() || self.dividing_left() || self.probing() ==> rows_weight(
                self.probe.table.rows.deep_view(),
            ) < INMEM_BUILD_BUDGET,
            self.phase matches JoinPhase::DividingRight { right } ==> {
                &&& self.probe.table.rows@.len() == 0
                &&& right.parts@.len() == NUM_PARTITIONS
                &&& forall|p: int|
                    0 <= p < NUM_PARTITIONS ==> rows_weight(
                        (#[trigger] right.parts@[p]).buf.deep_view(),
                    ) < FLUSH_THRESHOLD
            },
            self.phase matches JoinPhase::DividingLeft { left, right } ==> {
                &&& self.probe.table.rows@.len() == 0
                &&& right.flushed()
                &&& left.parts@.len() == NUM_PARTITIONS
                &&& forall|p: int|
                    0 <= p < NUM_PARTITIONS ==> rows_weight(
                        (#[trigger] left.parts@[p]).buf.deep_view(),
                    ) < FLUSH_THRESHOLD
            },
    {
        match &self.phase {
            JoinPhase::DividingRight { right } => {
                assert(self.probe.table.rows.deep_view().len() == 0);
                right.lemma_held();
            },
            JoinPhase::DividingLeft { left, right } => {
                assert(self.probe.table.rows.deep_view().len() == 0);
                left.lemma_held();
            },
            _ => {},
        }
    }

    pub proof fn lemma_idle(&self)
        requires
            !self.matching(),
        ensures
            self.current_rows() == Seq::<RowModel>::empty(),
    {
        self.probe.lemma_idle();
    }

    pub proof fn lemma_phase(&self)
        requires
            self.wf(),
        ensures
            self.probing() ==> rows_weight(self.all_right@) < INMEM_BUILD_BUDGET,
            self.dividing_left() ==> rows_weight(self.all_right@) >= INMEM_BUILD_BUDGET,
            !self.probing() ==> !self.matching(),
    {
    }

    /// A join that has been given no rows.
    pub fn new(
        left_schema: Schema,
        right_schema: Schema,
        left_indices: Vec<usize>,
        right_indices: Vec<usize>,
    ) -> (r: JoinCore)
        requires
            indices_ok(left_indices@, left_schema@.len()),
            indices_ok(right_indices@, right_schema@.len()),
        ensures
            r.wf(),
            r.taking_right(),
            !r.matching(),
            r.li() == left_indices@,
            r.ri() == right_indices@,
            r.ls() == left_schema.deep_view(),
            r.rs() == right_schema.deep_view(),
            r.all_right@ == Seq::<RowModel>::empty(),
            forall|d: DiskModel| #[trigger] r.placed(d) == (0 <= d.next),
            forall|bs: nat, right_rows: Seq<RowModel>, left_rows: Seq<RowModel>| #[trigger]
                r.requests_ahead(bs, true, right_rows, left_rows) == join_requests(
                    Seq::empty(),
                    0,
                    left_indices@,
                    right_indices@,
                    left_rows,
                    right_rows,
                    bs,
                ).len(),
            forall|disk: &DiskManager, right_rows: Seq<RowModel>, left_rows: Seq<RowModel>|
             #[trigger]
                r.traffic(disk, right_rows, left_rows) == join_requests(
                    disk.world@.requests,
                    disk@.next as nat,
                    left_indices@,
                    right_indices@,
                    left_rows,
                    right_rows,
                    disk@.block_size,
                ),
    {
        let probe = Probe::new(
            left_indices,
            right_indices,
            Ghost(left_schema.deep_view()),
            Ghost(right_schema.deep_view()),
        );
        let r = JoinCore {
            left_schema,
            right_schema,
            probe,
            phase: JoinPhase::Building { bytes: 0 },
            all_left: Ghost(Seq::empty()),
            all_right: Ghost(Seq::empty()),
        };
        proof {
            assert forall|disk: &DiskManager, more: Seq<RowModel>, left_rows: Seq<RowModel>|
             #[trigger]
                r.traffic(disk, more, left_rows) == join_requests(
                    disk.world@.requests,
                    disk@.next as nat,
                    left_indices@,
                    right_indices@,
                    left_rows,
                    more,
                    disk@.block_size,
                ) by {
                r.lemma_fresh_traffic(disk, more, left_rows);
            }
            assert forall|bs: nat, more: Seq<RowModel>, left_rows: Seq<RowModel>| #[trigger]
                r.requests_ahead(bs, true, more, left_rows) == join_requests(
                    Seq::empty(),
                    0,
                    left_indices@,
                    right_indices@,
                    left_rows,
                    more,
                    bs,
                ).len() by {
                assert(r.all_right@ + more =~= more);
            }
        }
        r
    }

    /// Moves the rows of the table to partitions.
    fn divide(&mut self, disk: &mut DiskManager) -> (r: Option<PartitionBuffers>)
        requires
            old(disk).wf(),
            old(disk).idle(),
            old(self).probe.wf(old(self).ls(), old(self).rs()),
            indices_ok(old(self).ri(), old(self).rs().len()),
            all_conform(old(self).probe.table.rows.deep_view(), old(self).rs()),
        ensures
            final(disk).wf(),
            final(disk).idle(),
            final(disk).follows(old(disk)),
            grows(old(disk)@, final(disk)@),
            final(self).same_shape(old(self)),
            final(self).all_left == old(self).all_left,
            final(self).all_right == old(self).all_right,
            final(self).phase == old(self).phase,
            final(self).probe.wf(old(self).ls(), old(self).rs()),
            !final(self).matching(),
            final(self).probe.table.rows.deep_view() == Seq::<RowModel>::empty(),
            match r {
                Some(right) => {
                    &&& side_ok(
                        right,
                        old(self).ri(),
                        old(self).rs(),
                        old(self).probe.table.rows.deep_view(),
                    )
                    &&& right.state(final(disk)) == give_rows(
                        (Dividing {
                            parts: no_parts(),
                            requests: old(disk).world@.requests,
                            next: old(disk)@.next as nat,
                        }),
                        old(self).ri(),
                        old(self).probe.table.rows.deep_view(),
                        old(disk)@.block_size,
                    )
                    &&& final(disk)@.healthy ==> right.placed(final(disk)@)
                },
                None => final(disk)@.healthy ==> !all_fit(
                    old(self).probe.table.rows.deep_view(),
                    old(disk)@.block_size,
                ),
            },
    {
        let ghost d = disk@;
        let ghost all = self.probe.table.rows.deep_view();
        let ghost s = self.rs();
        let mut right = PartitionBuffers::new(
            copy_indices(&self.probe.table.indices),
            clone_schema(&self.right_schema),
        );
        let rows = &self.probe.table.rows;
        let ghost start = right.state(disk);
        let mut i: usize = 0;
        proof {
            assert(all.take(0) =~= Seq::<RowModel>::empty());
        }
        while i < rows.len()
            invariant
                i <= rows.len(),
                all == rows.deep_view(),
                *rows == self.probe.table.rows,
                *self == *old(self),
                s == self.rs(),
                self.probe.wf(self.ls(), self.rs()),
                all_conform(all, s),
                d == old(disk)@,
                disk.wf(),
                disk.idle(),
                disk.follows(old(disk)),
                grows(d, disk@),
                side_ok(right, self.ri(), s, all.take(i as int)),
                right.state(disk) == give_rows(
                    start,
                    self.ri(),
                    all.take(i as int),
                    d.block_size,
                ),
                disk@.healthy ==> right.placed(disk@),
            decreases rows.len() - i,
        {
            let row = clone_row(&rows[i]);
            let ghost d1 = disk@;
            proof {
                assert(all[i as int] == row.deep_view());
                assert(conforms(all[i as int], s));
                assert(all.take(i + 1) =~= all.take(i as int).push(row.deep_view()));
                lemma_give_one(
                    start,
                    self.ri(),
                    all.take(i as int),
                    row.deep_view(),
                    d.block_size,
                );
            }
            if !right.push_row(row, disk) {
                proof {
                    assert(all =~= all.take(i + 1) + all.skip(i + 1));
                    lemma_more_rows(all.take(i + 1), all.skip(i + 1), d.block_size);
                }
                self.probe.clear(Ghost(self.ls()), Ghost(self.rs()));
                return None;
            }
            i += 1;
        }
        proof {
            assert(all.take(i as int) =~= all);
        }
        self.probe.clear(Ghost(self.ls()), Ghost(self.rs()));
        Some(right)
    }

    /// Takes in a right row.
    pub fn add_right(&mut self, row: Row, disk: &mut DiskManager) -> (ok: bool)
        requires
            old(disk).wf(),
            old(disk).idle(),
            old(self).wf(),
            old(self).taking_right(),
            conforms(row.deep_view(), old(self).rs()),
        ensures
            final(disk).wf(),
            final(disk).idle(),
            final(disk).follows(old(disk)),
            grows(old(disk)@, final(disk)@),
            final(self).same_shape(old(self)),
            ok ==> {
                &&& final(self).wf()
                &&& final(self).taking_right()
                &&& final(self).all_right@ == old(self).all_right@.push(row.deep_view())
                &&& forall|more: Seq<RowModel>, left_rows: Seq<RowModel>| #[trigger]
                    old(self).traffic(old(disk), seq![row.deep_view()] + more, left_rows)
                        == final(self).traffic(final(disk), more, left_rows)
            },
            rows_weight(old(self).all_right@.push(row.deep_view())) < INMEM_BUILD_BUDGET ==> {
                &&& ok
                &&& *final(disk) == *old(disk)
            },
            final(disk)@.healthy && old(self).placed(old(disk)@) ==> if ok {
                final(self).placed(final(disk)@)
            } else {
                let rows = old(self).all_right@.push(row.deep_view());
                &&& rows_weight(rows) >= INMEM_BUILD_BUDGET
                &&& !all_fit(rows, old(disk)@.block_size)
            },
    {
        let ghost before = *self;
        let ghost d = disk@;
        let ghost r = row.deep_view();
        let ghost more = self.all_right@.push(r);
        proof {
            assert(more.drop_last() =~= self.all_right@);
        }
        self.all_right = Ghost(more);
        match &mut self.phase {
            JoinPhase::Building { bytes } => {
                let weight = estimate_row_bytes(&row);
                let total: usize = bytes.saturating_add(weight);
                *bytes = total;
                self.probe.insert_row(row, Ghost(self.ls()), Ghost(self.rs()));
                if total >= INMEM_BUILD_BUDGET {
                    proof {
                        self.probe.lemma_rows_conform(self.ls(), self.rs());
                    }
                    let ghost start = Dividing {
                        parts: no_parts(),
                        requests: disk.world@.requests,
                        next: d.next as nat,
                    };
                    match self.divide(disk) {
                        Some(right) => {
                            self.phase = JoinPhase::DividingRight { right };
                            proof {
                                assert forall|rest: Seq<RowModel>, left_rows: Seq<RowModel>|
                                 #[trigger]
                                    before.traffic(old(disk), seq![r] + rest, left_rows)
                                        == self.traffic(disk, rest, left_rows) by {
                                    assert(before.all_right@ + (seq![r] + rest) =~= more + rest);
                                    lemma_more_rows(more, rest, d.block_size);
                                    lemma_give_more(start, self.ri(), more, rest, d.block_size);
                                }
                            }
                            true
                        },
                        None => false,
                    }
                } else {
                    proof {
                        assert forall|rest: Seq<RowModel>, left_rows: Seq<RowModel>| #[trigger]
                            before.traffic(old(disk), seq![r] + rest, left_rows) == self.traffic(
                                disk,
                                rest,
                                left_rows,
                            ) by {
                            assert(before.all_right@ + (seq![r] + rest) =~= more + rest);
                        }
                    }
                    true
                }
            },
            JoinPhase::DividingRight { right } => {
                let ok = right.push_row(row, disk);
                proof {
                    if ok {
                        assert forall|rest: Seq<RowModel>, left_rows: Seq<RowModel>| #[trigger]
                            before.traffic(old(disk), seq![r] + rest, left_rows) == self.traffic(
                                disk,
                                rest,
                                left_rows,
                            ) by {
                            let all = seq![r] + rest;
                            assert(all.drop_first() =~= rest);
                            assert(all[0] == r);
                        }
                    }
                }
                ok
            },
            _ => false,
        }
    }

    /// All right rows have come.
    pub fn end_right(&mut self, disk: &mut DiskManager) -> (ok: bool)
        requires
            old(disk).wf(),
            old(disk).idle(),
            old(self).wf(),
            old(self).taking_right(),
        ensures
            final(disk).wf(),
            final(disk).idle(),
            final(disk).follows(old(disk)),
            grows(old(disk)@, final(disk)@),
            final(self).same_shape(old(self)),
            ok ==> {
                &&& final(self).wf()
                &&& final(self).probing() || final(self).dividing_left()
                &&& !final(self).matching()
                &&& final(self).all_right == old(self).all_right
                &&& final(self).all_left@ == Seq::<RowModel>::empty()
                &&& forall|left_rows: Seq<RowModel>| #[trigger]
                    old(self).traffic(old(disk), Seq::empty(), left_rows) == final(self).traffic(
                        final(disk),
                        Seq::empty(),
                        left_rows,
                    )
            },
            rows_weight(old(self).all_right@) < INMEM_BUILD_BUDGET ==> {
                &&& ok
                &&& final(self).probing()
                &&& *final(disk) == *old(disk)
            },
            final(disk)@.healthy && old(self).placed(old(disk)@) ==> if ok {
                &&& final(self).placed(final(disk)@)
                &&& final(self).dividing_left() ==> all_fit(
                    old(self).all_right@,
                    old(disk)@.block_size,
                )
            } else {
                &&& rows_weight(old(self).all_right@) >= INMEM_BUILD_BUDGET
                &&& !all_fit(old(self).all_right@, old(disk)@.block_size)
            },
    {
        let ghost before = *self;
        self.all_left = Ghost(Seq::empty());
        let mut phase = JoinPhase::Probing;
        std::mem::swap(&mut self.phase, &mut phase);
        match phase {
            JoinPhase::DividingRight { right } => {
                let mut right = right;
                if !right.finish(disk) {
                    return false;
                }
                proof {
                    if disk@.healthy && before.placed(old(disk)@) {
                        right.lemma_fit(disk@);
                    }
                }
                let left = PartitionBuffers::new(
                    copy_indices(&self.probe.left_indices),
                    clone_schema(&self.left_schema),
                );
                self.phase = JoinPhase::DividingLeft { left, right };
                proof {
                    assert forall|left_rows: Seq<RowModel>| #[trigger]
                        before.traffic(old(disk), Seq::empty(), left_rows) == self.traffic(
                            disk,
                            Seq::empty(),
                            left_rows,
                        ) by {
                        let was = before.phase->DividingRight_right.state(old(disk));
                        assert(give_rows(was, self.ri(), Seq::empty(), old(disk)@.block_size)
                            == was);
                    }
                }
                true
            },
            _ => {
                proof {
                    let none = Seq::<RowModel>::empty();
                    assert(before.all_right@ + none =~= before.all_right@);
                }
                true
            },
        }
    }

    /// Takes in a left row that has to go to a partition.
    pub fn add_left(&mut self, row: Row, disk: &mut DiskManager) -> (ok: bool)
        requires
            old(disk).wf(),
            old(disk).idle(),
            old(self).wf(),
            old(self).dividing_left(),
            conforms(row.deep_view(), old(self).ls()),
        ensures
            final(disk).wf(),
            final(disk).idle(),
            final(disk).follows(old(disk)),
            grows(old(disk)@, final(disk)@),
            final(self).same_shape(old(self)),
            ok ==> {
                &&& final(self).wf()
                &&& final(self).dividing_left()
                &&& final(self).all_right == old(self).all_right
                &&& final(self).all_left@ == old(self).all_left@.push(row.deep_view())
                &&& forall|left_rows: Seq<RowModel>| #[trigger]
                    old(self).traffic(
                        old(disk),
                        Seq::empty(),
                        seq![row.deep_view()] + left_rows,
                    ) == final(self).traffic(final(disk), Seq::empty(), left_rows)
            },
            final(disk)@.healthy && old(self).placed(old(disk)@) ==> if ok {
                final(self).placed(final(disk)@)
            } else {
                !all_fit(old(self).all_left@.push(row.deep_view()), old(disk)@.block_size)
            },
    {
        let ghost before = *self;
        let ghost d = disk@;
        let ghost r = row.deep_view();
        self.all_left = Ghost(self.all_left@.push(r));
        match &mut self.phase {
            JoinPhase::DividingLeft { left, right } => {
                let ok = left.push_row(row, disk);
                proof {
                    if before.placed(d) {
                        right.lemma_grows(d, disk@);
                    }
                    if ok {
                        assert forall|rest: Seq<RowModel>| #[trigger]
                            before.traffic(old(disk), Seq::empty(), seq![r] + rest)
                                == self.traffic(disk, Seq::empty(), rest) by {
                            let all = seq![r] + rest;
                            assert(all.drop_first() =~= rest);
                            assert(all[0] == r);
                        }
                    }
                }
                ok
            },
            _ => false,
        }
    }

    /// All left rows have come, and are in partitions.
    pub fn end_left(&mut self, disk: &mut DiskManager) -> (ok: bool)
        requires
            old(disk).wf(),
            old(disk).idle(),
            old(self).wf(),
            old(self).dividing_left(),
        ensures
            final(disk).wf(),
            final(disk).idle(),
            final(disk).follows(old(disk)),
            grows(old(disk)@, final(disk)@),
            final(self).same_shape(old(self)),
            ok ==> final(self).wf() && final(self).reading() && final(self).want() is None,
            ok ==> final(self).traffic(final(disk), Seq::empty(), Seq::empty())
                == old(self).traffic(old(disk), Seq::empty(), Seq::empty()),
            final(disk)@.healthy && old(self).placed(old(disk)@) ==> if ok {
                &&& final(self).placed(final(disk)@)
                &&& all_fit(old(self).all_left@, old(disk)@.block_size)
                &&& final(self).read_rows(final(disk)@) == parts_joined(
                    old(self).li(),
                    old(self).ri(),
                    old(self).all_left@,
                    old(self).all_right@,
                    0,
                )
                &&& final(self).read_work(final(disk)@) == parts_cost(
                    old(self).li(),
                    old(self).ri(),
                    old(self).all_left@,
                    old(self).all_right@,
                    0,
                )
            } else {
                !all_fit(old(self).all_left@, old(disk)@.block_size)
            },
    {
        let ghost before = *self;
        let ghost d = disk@;
        let mut phase = JoinPhase::Probing;
        std::mem::swap(&mut self.phase, &mut phase);
        match phase {
            JoinPhase::DividingLeft { left, right } => {
                let mut left = left;
                if !left.finish(disk) {
                    return false;
                }
                proof {
                    if before.placed(d) {
                        right.lemma_grows(d, disk@);
                    }
                    if disk@.healthy && before.placed(d) {
                        left.lemma_fit(disk@);
                    }
                }
                let join = PartJoin::new(left, right);
                self.phase = JoinPhase::Reading { join };
                proof {
                    let was = before.phase->DividingLeft_left.state(old(disk));
                    assert(give_rows(was, self.li(), Seq::empty(), d.block_size) == was);
                }
                true
            },
            _ => false,
        }
    }

    /// Starts on a left row that meets the table.
    pub fn start_row(&mut self, row: Row)
        requires
            old(self).wf(),
            old(self).probing(),
            conforms(row.deep_view(), old(self).ls()),
        ensures
            final(self).wf(),
            final(self).probing(),
            final(self).matching(),
            final(self).same_shape(old(self)),
            final(self).all_right == old(self).all_right,
            forall|d: DiskModel| #[trigger] final(self).placed(d) == old(self).placed(d),
            final(self).current_rows() == beside(
                row.deep_view(),
                matching(
                    old(self).ri(),
                    old(self).all_right@,
                    key_of(old(self).li(), row.deep_view()),
                ),
            ),
            final(self).current_rows().len() <= old(self).all_right@.len(),
    {
        self.probe.start_row(row, Ghost(self.ls()), Ghost(self.rs()));
    }

    /// Gives out a match of the current left row.
    pub fn next_match(&mut self) -> (r: Option<Row>)
        requires
            old(self).wf(),
            old(self).probing(),
            old(self).matching(),
        ensures
            final(self).wf(),
            final(self).probing(),
            final(self).same_shape(old(self)),
            final(self).all_right == old(self).all_right,
            forall|d: DiskModel| #[trigger] final(self).placed(d) == old(self).placed(d),
            match r {
                Some(row) => {
                    &&& final(self).matching()
                    &&& conforms(row.deep_view(), old(self).ls() + old(self).rs())
                    &&& old(self).current_rows().len() > 0
                    &&& row.deep_view() == old(self).current_rows()[0]
                    &&& final(self).current_rows() == old(self).current_rows().drop_first()
                },
                None => {
                    &&& !final(self).matching()
                    &&& final(self).current_rows() == Seq::<RowModel>::empty()
                    &&& old(self).current_rows() == Seq::<RowModel>::empty()
                },
            },
    {
        self.probe.next_match(Ghost(self.ls()), Ghost(self.rs()))
    }

    /// Makes one step of joining the partitions.
    pub fn next_read(&mut self, disk: &mut DiskManager) -> (s: Step)
        requires
            old(self).wf(),
            old(self).reading(),
            old(disk).wf(),
            disk_ready(old(disk), old(self).want()),
        ensures
            final(self).same_shape(old(self)),
            !(s is Failed) ==> final(self).wf(),
            final(self).reading(),
            final(disk).wf(),
            final(disk)@ == old(disk)@,
            reads_at_most(old(disk), final(disk)),
            final(disk).follows(old(disk)),
            !(s is Failed) ==> disk_ready(final(disk), final(self).want()),
            s is Row || s is Done ==> final(disk).idle(),
            s matches Step::Row(r) ==> conforms(r.deep_view(), old(self).ls() + old(self).rs()),
            !(s is Failed) ==> final(self).traffic(final(disk), Seq::empty(), Seq::empty())
                == old(self).traffic(old(disk), Seq::empty(), Seq::empty()),
            s is Done ==> final(self).traffic(final(disk), Seq::empty(), Seq::empty())
                == final(disk).world@.requests,
            final(disk)@.healthy && old(self).placed(old(disk)@) ==> {
                &&& !(s is Failed)
                &&& final(self).placed(final(disk)@)
                &&& step_follows(
                    Some(old(self).read_rows(old(disk)@)),
                    Some(final(self).read_rows(final(disk)@)),
                    s,
                )
                &&& !(s is Done) ==> step_advances(
                    old(self).read_work(old(disk)@),
                    final(self).read_work(final(disk)@),
                    old(disk),
                    final(disk),
                )
            },
    {
        match &mut self.phase {
            JoinPhase::Reading { join } => {
                let step = join.next_read(disk);
                proof {
                    let made = disk.world@.requests;
                    assert(made + Seq::<Request>::empty() =~= made);
                }
                step
            },
            _ => Step::Failed,
        }
    }

    /// Whether a left row has matches to be given out.
    pub fn is_matching(&self) -> (r: bool)
        ensures
            r == self.matching(),
    {
        self.probe.current.is_some()
    }

    /// Whether left rows meet the table.
    pub fn is_probing(&self) -> (r: bool)
        ensures
            r == self.probing(),
    {
        matches!(self.phase, JoinPhase::Probing)
    }
}

} // verus!
