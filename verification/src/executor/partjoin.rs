//! Joining partition by partition.

use vstd::prelude::*;

use crate::disk::{grows, reads_at_most, DiskManager, DiskModel, Request};
use crate::executor::cross::beside;
use crate::executor::jointable::{copy_indices, indices_ok, matching, Probe};
use crate::executor::partition::{in_partition, PartitionBuffers, PartitionReader, NUM_PARTITIONS};
use crate::executor::parttraffic::{parts_reads, segments_reads};
use crate::executor::{disk_ready, step_advances, step_follows, Step};
use crate::key::key_of;
use crate::row::{conforms, Row, RowModel, SchemaModel};

verus! {

/// Each row of the left side with each of the right that has the same key, in the order
/// of the left, and for each left row in the order of the right.
pub open spec fn hash_joined(
    li: Seq<usize>,
    ri: Seq<usize>,
    left: Seq<RowModel>,
    right: Seq<RowModel>,
) -> Seq<RowModel>
    decreases left.len(),
{
    if left.len() == 0 {
        Seq::empty()
    } else {
        beside(left[0], matching(ri, right, key_of(li, left[0]))) + hash_joined(
            li,
            ri,
            left.drop_first(),
            right,
        )
    }
}

/// The partitions from `p` on joined one after the other.
pub open spec fn parts_joined(
    li: Seq<usize>,
    ri: Seq<usize>,
    left: Seq<RowModel>,
    right: Seq<RowModel>,
    p: nat,
) -> Seq<RowModel>
    decreases NUM_PARTITIONS - p,
{
    if p >= NUM_PARTITIONS {
        Seq::empty()
    } else {
        hash_joined(li, ri, in_partition(li, left, p), in_partition(ri, right, p)) + parts_joined(
            li,
            ri,
            left,
            right,
            p + 1,
        )
    }
}

/// The steps for the left rows of a join with `r` right rows.
pub open spec fn probe_cost(l: nat, r: nat) -> nat {
    l * (r + 2)
}

/// The steps for the partitions from `p` on.
pub open spec fn parts_cost(
    li: Seq<usize>,
    ri: Seq<usize>,
    left: Seq<RowModel>,
    right: Seq<RowModel>,
    p: nat,
) -> nat
    decreases NUM_PARTITIONS - p,
{
    if p >= NUM_PARTITIONS {
        0
    } else {
        let l = in_partition(li, left, p).len();
        let r = in_partition(ri, right, p).len();
        3 * r + 3 * l + probe_cost(l, r) + 4 + parts_cost(li, ri, left, right, p + 1)
    }
}

pub proof fn lemma_probe_cost(l: nat, r: nat)
    requires
        l > 0,
    ensures
        probe_cost(l, r) == probe_cost((l - 1) as nat, r) + r + 2,
{
    assert(l * (r + 2) == (l - 1) * (r + 2) + (r + 2)) by (nonlinear_arith)
        requires
            l > 0,
    ;
}

/// What is being read of the current partition.
pub enum PartReader {
    Closed,
    /// Its right rows, which go to the table.
    Right(PartitionReader),
    /// Its left rows.
    Left(PartitionReader),
}

/// A join of two divided sides. Partitions before `part` are done.
pub struct PartJoin {
    pub left: PartitionBuffers,
    pub right: PartitionBuffers,
    pub part: usize,
    pub reader: PartReader,
    pub probe: Probe,
}

proof fn lemma_tail_kept(
    a: Seq<Request>,
    b: Seq<Request>,
    x: Seq<Request>,
    y: Seq<Request>,
    tail: Seq<Request>,
)
    requires
        x + y == a + b,
    ensures
        x + (y + tail) == a + (b + tail),
{
    assert(x + (y + tail) =~= (x + y) + tail);
    assert(a + (b + tail) =~= (a + b) + tail);
}

impl PartJoin {
    pub open spec fn left_schema(&self) -> SchemaModel {
        self.left.schema.deep_view()
    }

    pub open spec fn right_schema(&self) -> SchemaModel {
        self.right.schema.deep_view()
    }

    /// The right rows of the current partition.
    pub open spec fn right_part(&self) -> Seq<RowModel> {
        in_partition(self.right.indices@, self.right.given@, self.part as nat)
    }

    pub closed spec fn wf(&self) -> bool {
        &&& self.left.wf()
        &&& self.right.wf()
        &&& self.left.flushed()
        &&& self.right.flushed()
        &&& self.part <= NUM_PARTITIONS
        &&& self.probe.wf(self.left_schema(), self.right_schema())
        &&& self.probe.left_indices@ == self.left.indices@
        &&& self.probe.table.indices@ == self.right.indices@
        &&& match self.reader {
            PartReader::Closed => self.probe.current is None,
            PartReader::Right(reader) => {
                &&& self.part < NUM_PARTITIONS
                &&& reader.wf()
                &&& reader.schema.deep_view() == self.right_schema()
                &&& self.probe.current is None
            },
            PartReader::Left(reader) => {
                &&& self.part < NUM_PARTITIONS
                &&& reader.wf()
                &&& reader.schema.deep_view() == self.left_schema()
            },
        }
    }

    pub closed spec fn want(&self) -> Option<(u64, u64)> {
        if self.probe.current is Some {
            None
        } else {
            match self.reader {
                PartReader::Closed => None,
                PartReader::Right(reader) => reader.want(),
                PartReader::Left(reader) => reader.want(),
            }
        }
    }

    /// The reads of the partitions from `p` on.
    pub open spec fn reads_from(&self, p: nat) -> Seq<Request> {
        parts_reads(self.left.model(), self.right.model(), p)
    }

    /// The reads that are still to be asked for, when the disk is free or busy with what is
    /// wanted.
    pub open spec fn reads_left(&self, disk: &DiskManager) -> Seq<Request> {
        self.reads_when(disk.idle())
    }

    /// The reads that are still to be asked for, when the disk is free or else busy with
    /// what is wanted.
    pub closed spec fn reads_when(&self, idle: bool) -> Seq<Request> {
        match self.reader {
            PartReader::Closed => self.reads_from(self.part as nat),
            PartReader::Right(reader) => reader.reads_when(idle) + (segments_reads(
                self.left.model()[self.part as int].segments,
            ) + self.reads_from((self.part + 1) as nat)),
            PartReader::Left(reader) => reader.reads_when(idle) + self.reads_from(
                (self.part + 1) as nat,
            ),
        }
    }

    pub closed spec fn placed(&self, d: DiskModel) -> bool {
        &&& 0 <= d.next
        &&& self.left.placed(d)
        &&& self.right.placed(d)
        &&& match self.reader {
            PartReader::Closed => true,
            PartReader::Right(reader) => {
                &&& reader.placed(d)
                &&& reader.rows(d) is Some
                &&& self.probe.table.rows.deep_view() + reader.rows(d)->0 == self.right_part()
            },
            PartReader::Left(reader) => {
                &&& reader.placed(d)
                &&& reader.rows(d) is Some
                &&& self.probe.table.rows.deep_view() == self.right_part()
            },
        }
    }

    pub open spec fn joined_from(&self, p: nat) -> Seq<RowModel> {
        parts_joined(
            self.left.indices@,
            self.right.indices@,
            self.left.given@,
            self.right.given@,
            p,
        )
    }

    pub open spec fn cost_from(&self, p: nat) -> nat {
        parts_cost(
            self.left.indices@,
            self.right.indices@,
            self.left.given@,
            self.right.given@,
            p,
        )
    }

    /// The rows still to come.
    pub closed spec fn rows(&self, d: DiskModel) -> Seq<RowModel> {
        match self.reader {
            PartReader::Left(reader) => self.probe.rest() + (hash_joined(
                self.left.indices@,
                self.right.indices@,
                reader.rows(d)->0,
                self.right_part(),
            ) + self.joined_from((self.part + 1) as nat)),
            _ => self.joined_from(self.part as nat),
        }
    }

    pub closed spec fn current_work(&self) -> nat {
        if self.probe.current is Some {
            self.probe.rest().len() + 1
        } else {
            0
        }
    }

    pub closed spec fn work(&self, d: DiskModel) -> nat {
        let l = in_partition(self.left.indices@, self.left.given@, self.part as nat).len();
        let r = self.right_part().len();
        match self.reader {
            PartReader::Closed => self.cost_from(self.part as nat),
            PartReader::Right(reader) => reader.work(d) + 3 * l + probe_cost(l, r) + 3
                + self.cost_from((self.part + 1) as nat),
            PartReader::Left(reader) => reader.work(d) + probe_cost(reader.rows(d)->0.len(), r)
                + self.current_work() + 2 + self.cost_from((self.part + 1) as nat),
        }
    }

    pub proof fn lemma_grows(&self, d: DiskModel, d2: DiskModel)
        requires
            self.wf(),
            self.placed(d),
            grows(d, d2),
        ensures
            self.placed(d2),
            self.rows(d2) == self.rows(d),
            self.work(d2) == self.work(d),
    {
        self.left.lemma_grows(d, d2);
        self.right.lemma_grows(d, d2);
        match &self.reader {
            PartReader::Closed => {},
            PartReader::Right(reader) => reader.lemma_grows(d, d2),
            PartReader::Left(reader) => reader.lemma_grows(d, d2),
        }
    }

    /// A join of two sides that lie on disk.
    pub fn new(left: PartitionBuffers, right: PartitionBuffers) -> (r: PartJoin)
        requires
            left.wf(),
            right.wf(),
            left.flushed(),
            right.flushed(),
            indices_ok(left.indices@, left.schema@.len()),
            indices_ok(right.indices@, right.schema@.len()),
        ensures
            r.wf(),
            r.left == left,
            r.right == right,
            r.want() is None,
            forall|d: DiskModel| #[trigger]
                r.placed(d) == (0 <= d.next && left.placed(d) && right.placed(d)),
            forall|idle: bool| #[trigger] r.reads_when(idle) == r.reads_from(0),
            forall|d: DiskModel| #[trigger] r.rows(d) == r.joined_from(0),
            forall|d: DiskModel| #[trigger] r.work(d) == r.cost_from(0),
    {
        let probe = Probe::new(
            copy_indices(&left.indices),
            copy_indices(&right.indices),
            Ghost(left.schema.deep_view()),
            Ghost(right.schema.deep_view()),
        );
        PartJoin { left, right, part: 0, reader: PartReader::Closed, probe }
    }

    /// Gives out a match of the current left row.
    fn next_match(&mut self) -> (s: Step)
        requires
            old(self).wf(),
            old(self).probe.current is Some,
        ensures
            final(self).wf(),
            final(self).left == old(self).left,
            final(self).right == old(self).right,
            s is Row || s is Pending,
            s is Pending ==> final(self).probe.current is None,
            s is Row ==> final(self).probe.current is Some,
            forall|idle: bool| #[trigger]
                final(self).reads_when(idle) == old(self).reads_when(idle),
            s matches Step::Row(r) ==> conforms(
                r.deep_view(),
                old(self).left_schema() + old(self).right_schema(),
            ),
            forall|d: DiskModel| #[trigger]
                old(self).placed(d) ==> {
                    &&& final(self).placed(d)
                    &&& step_follows(Some(old(self).rows(d)), Some(final(self).rows(d)), s)
                    &&& final(self).work(d) < old(self).work(d)
                },
    {
        let ghost before = *self;
        let r = self.probe.next_match(Ghost(self.left_schema()), Ghost(self.right_schema()));
        match r {
            Some(row) => {
                proof {
                    assert forall|d: DiskModel| #[trigger] before.placed(d) implies {
                        &&& self.placed(d)
                        &&& step_follows(
                            Some(before.rows(d)),
                            Some(self.rows(d)),
                            Step::Row(row),
                        )
                        &&& self.work(d) < before.work(d)
                    } by {
                        assert(self.rows(d) =~= before.rows(d).drop_first());
                    }
                }
                Step::Row(row)
            },
            None => {
                proof {
                    assert forall|d: DiskModel| #[trigger] before.placed(d) implies {
                        &&& self.placed(d)
                        &&& self.rows(d) == before.rows(d)
                        &&& self.work(d) < before.work(d)
                    } by {}
                }
                Step::Pending
            },
        }
    }

    /// Opens the next partition.
    fn open_right(&mut self)
        requires
            old(self).wf(),
            old(self).reader is Closed,
            old(self).part < NUM_PARTITIONS,
        ensures
            final(self).wf(),
            final(self).left == old(self).left,
            final(self).right == old(self).right,
            final(self).probe.current is None,
            final(self).want() is None,
            final(self).reads_when(true) == old(self).reads_when(true),
            forall|d: DiskModel| #[trigger]
                old(self).placed(d) ==> {
                    &&& final(self).placed(d)
                    &&& final(self).rows(d) == old(self).rows(d)
                    &&& final(self).work(d) < old(self).work(d)
                },
    {
        let ghost before = *self;
        self.probe.clear(Ghost(self.left_schema()), Ghost(self.right_schema()));
        let reader = self.right.open_part(self.part);
        self.reader = PartReader::Right(reader);
        proof {
            assert forall|d: DiskModel| #[trigger] before.placed(d) implies {
                &&& self.placed(d)
                &&& self.rows(d) == before.rows(d)
                &&& self.work(d) < before.work(d)
            } by {
                assert(self.right.placed(d));
                let rows = reader.rows(d)->0;
                assert(Seq::<RowModel>::empty() + rows =~= rows);
            }
        }
    }

    /// All right rows of the partition are in the table: turns to the left rows.
    fn open_left(&mut self, Ghost(d): Ghost<DiskModel>)
        requires
            old(self).wf(),
            old(self).reader is Right,
        ensures
            final(self).wf(),
            final(self).left == old(self).left,
            final(self).right == old(self).right,
            final(self).probe.current is None,
            final(self).want() is None,
            old(self).reader->Right_0.reads_when(true) == Seq::<Request>::empty()
                ==> final(self).reads_when(true) == old(self).reads_when(true),
            old(self).placed(d) && old(self).reader->Right_0.rows(d)->0.len() == 0 ==> {
                &&& final(self).placed(d)
                &&& final(self).rows(d) == old(self).rows(d)
                &&& final(self).work(d) < old(self).work(d)
            },
    {
        let ghost before = *self;
        let reader = self.left.open_part(self.part);
        self.reader = PartReader::Left(reader);
        proof {
            self.probe.lemma_idle();
            let rest = segments_reads(self.left.model()[self.part as int].segments)
                + self.reads_from((self.part + 1) as nat);
            assert(Seq::<Request>::empty() + rest =~= rest);
            if before.placed(d) && before.reader->Right_0.rows(d)->0.len() == 0 {
                assert(self.left.placed(d));
                let none = before.reader->Right_0.rows(d)->0;
                let table = self.probe.table.rows.deep_view();
                assert(table + none =~= table);
                let all = before.rows(d);
                assert(Seq::<RowModel>::empty() + all =~= all);
            }
        }
    }

    /// Makes one step.
    pub fn next_read(&mut self, disk: &mut DiskManager) -> (s: Step)
        requires
            old(self).wf(),
            old(disk).wf(),
            disk_ready(old(disk), old(self).want()),
        ensures
            !(s is Failed) ==> final(self).wf(),
            final(self).left == old(self).left,
            final(self).right == old(self).right,
            final(disk).wf(),
            final(disk)@ == old(disk)@,
            reads_at_most(old(disk), final(disk)),
            final(disk).follows(old(disk)),
            !(s is Failed) ==> disk_ready(final(disk), final(self).want()),
            s is Row || s is Done ==> final(disk).idle(),
            s matches Step::Row(r) ==> conforms(
                r.deep_view(),
                old(self).left_schema() + old(self).right_schema(),
            ),
            !(s is Failed) ==> final(disk).world@.requests + final(self).reads_left(final(disk))
                == old(disk).world@.requests + old(self).reads_left(old(disk)),
            s is Done ==> final(self).reads_left(final(disk)) == Seq::<Request>::empty(),
            final(disk)@.healthy && old(self).placed(old(disk)@) ==> {
                &&& !(s is Failed)
                &&& final(self).placed(final(disk)@)
                &&& step_follows(
                    Some(old(self).rows(old(disk)@)),
                    Some(final(self).rows(final(disk)@)),
                    s,
                )
                &&& !(s is Done) ==> step_advances(
                    old(self).work(old(disk)@),
                    final(self).work(final(disk)@),
                    old(disk),
                    final(disk),
                )
            },
    {
        let ghost before = *self;
        let ghost d = disk@;
        let ghost ls = self.left_schema();
        let ghost rs = self.right_schema();
        if self.probe.current.is_some() {
            let step = self.next_match();
            proof {
                assert(before.placed(d) ==> self.placed(d));
            }
            return step;
        }
        proof {
            self.probe.lemma_idle();
        }
        match &mut self.reader {
            PartReader::Closed => {
                if self.part >= NUM_PARTITIONS {
                    return Step::Done;
                }
                self.open_right();
                proof {
                    assert(before.placed(d) ==> self.placed(d));
                }
                Step::Pending
            },
            PartReader::Right(reader) => match reader.next_row(disk) {
                Step::Row(row) => {
                    proof {
                        let tail = segments_reads(self.left.model()[self.part as int].segments)
                            + self.reads_from((self.part + 1) as nat);
                        lemma_tail_kept(
                            old(disk).world@.requests,
                            before.reader->Right_0.reads_left(old(disk)),
                            disk.world@.requests,
                            self.reader->Right_0.reads_left(disk),
                            tail,
                        );
                    }
                    let ghost rest = before.reader->Right_0.rows(d)->0;
                    let ghost table = before.probe.table.rows.deep_view();
                    self.probe.insert_row(row, Ghost(ls), Ghost(rs));
                    proof {
                        if d.healthy && before.placed(d) {
                            assert(table.push(row.deep_view()) + rest.drop_first() =~= table
                                + rest);
                        }
                    }
                    Step::Pending
                },
                Step::Done => {
                    assert(*self == before);
                    proof {
                        let tail = segments_reads(self.left.model()[self.part as int].segments)
                            + self.reads_from((self.part + 1) as nat);
                        lemma_tail_kept(
                            old(disk).world@.requests,
                            before.reader->Right_0.reads_left(old(disk)),
                            disk.world@.requests,
                            Seq::empty(),
                            tail,
                        );
                    }
                    self.open_left(Ghost(d));
                    Step::Pending
                },
                Step::Pending => {
                    proof {
                        let tail = segments_reads(self.left.model()[self.part as int].segments)
                            + self.reads_from((self.part + 1) as nat);
                        lemma_tail_kept(
                            old(disk).world@.requests,
                            before.reader->Right_0.reads_left(old(disk)),
                            disk.world@.requests,
                            self.reader->Right_0.reads_left(disk),
                            tail,
                        );
                    }
                    Step::Pending
                },
                Step::Failed => Step::Failed,
            },
            PartReader::Left(reader) => match reader.next_row(disk) {
                Step::Row(row) => {
                    let ghost rest = before.reader->Left_0.rows(d)->0;
                    proof {
                        lemma_tail_kept(
                            old(disk).world@.requests,
                            before.reader->Left_0.reads_left(old(disk)),
                            disk.world@.requests,
                            self.reader->Left_0.reads_left(disk),
                            self.reads_from((self.part + 1) as nat),
                        );
                    }
                    self.probe.start_row(row, Ghost(ls), Ghost(rs));
                    proof {
                        if d.healthy && before.placed(d) {
                            lemma_probe_cost(rest.len(), self.right_part().len());
                            assert(self.rows(d) =~= before.rows(d));
                        }
                    }
                    Step::Pending
                },
                Step::Done => {
                    proof {
                        lemma_tail_kept(
                            old(disk).world@.requests,
                            before.reader->Left_0.reads_left(old(disk)),
                            disk.world@.requests,
                            Seq::empty(),
                            self.reads_from((self.part + 1) as nat),
                        );
                    }
                    self.reader = PartReader::Closed;
                    self.part = self.part + 1;
                    proof {
                        if d.healthy && before.placed(d) {
                            assert(self.rows(d) =~= before.rows(d));
                        }
                        let rest = self.reads_from(self.part as nat);
                        assert(Seq::<Request>::empty() + rest =~= rest);
                    }
                    Step::Pending
                },
                Step::Pending => {
                    proof {
                        lemma_tail_kept(
                            old(disk).world@.requests,
                            before.reader->Left_0.reads_left(old(disk)),
                            disk.world@.requests,
                            self.reader->Left_0.reads_left(disk),
                            self.reads_from((self.part + 1) as nat),
                        );
                    }
                    Step::Pending
                },
                Step::Failed => Step::Failed,
            },
        }
    }
}

} // verus!
