//! The operators of a query plan.
//!
//! An operator is asked for one step at a time. A step gives a row, or the end of the
//! rows, or neither yet: then the operator has done part of its work, and the disk may
//! have to answer before it is asked again.

pub mod answerlaws;
pub mod builder;
pub mod cross;
pub mod cursor;
pub mod equivalence;
pub mod filter;
pub mod flatten;
pub mod hashjoin;
pub mod joinanswers;
pub mod joincore;
pub mod joinlaws;
pub mod jointable;
pub mod keylaws;
pub mod merge;
pub mod mergelaws;
pub mod node;
pub mod order;
pub mod partition;
pub mod partjoin;
pub mod parttraffic;
pub mod plan;
pub mod planfits;
pub mod planlaws;
pub mod project;
pub mod runtraffic;
pub mod scan;
pub mod skiplaws;
pub mod sort;
pub mod sortanswers;
pub mod sorter;
pub mod sortkey;
pub mod sortlaws;
pub mod spill;
pub mod tielaws;
pub mod traffic;

use vstd::prelude::*;

use crate::disk::{grows, reads_at_most, DiskManager, DiskModel};
use crate::row::{conforms, Row, RowModel, Schema, SchemaModel};

verus! {

/// What one step of an operator gives.
#[derive(Debug)]
pub enum Step {
    /// The next row.
    Row(Row),
    /// There are no more rows.
    Done,
    /// Neither yet.
    Pending,
    /// The rows cannot be had.
    Failed,
}

/// The rows still to come, before and after a step. `None` stands for rows that cannot
/// all be had, because what the disk holds does not decode or a row is too large for the
/// place it has to go to.
pub open spec fn step_follows(
    before: Option<Seq<RowModel>>,
    after: Option<Seq<RowModel>>,
    s: Step,
) -> bool {
    match before {
        Some(rows) => match s {
            Step::Row(r) => {
                &&& rows.len() > 0
                &&& r.deep_view() == rows[0]
                &&& after == Some(rows.drop_first())
            },
            Step::Done => rows.len() == 0 && after == Some(rows),
            Step::Pending => after == Some(rows),
            Step::Failed => false,
        },
        None => match s {
            Step::Row(_) => after is None,
            Step::Done => false,
            Step::Pending => after is None,
            Step::Failed => true,
        },
    }
}

/// The disk is free, or busy with what the operator wants to read next.
pub open spec fn disk_ready(disk: &DiskManager, want: Option<(u64, u64)>) -> bool {
    disk.idle() || (disk.asked() is Some && disk.asked() == want)
}

/// A step that is not the last brings the end nearer, unless the disk had yet to answer
/// or has just been asked.
pub open spec fn step_advances(
    work_before: nat,
    work_after: nat,
    disk_before: &DiskManager,
    disk_after: &DiskManager,
) -> bool {
    ||| work_after < work_before
    ||| disk_before.idle() && disk_after.awaiting() && work_after <= work_before
    ||| disk_before.awaiting() && work_after <= work_before
}

/// An operator of a query plan.
pub trait Operator {
    /// The state of the operator makes sense by itself.
    spec fn wf(&self) -> bool;

    /// The columns of its rows.
    spec fn columns(&self) -> SchemaModel;

    /// The blocks that it wants to read next, if any.
    spec fn want(&self) -> Option<(u64, u64)>;

    /// The state of the operator fits what the disk holds.
    spec fn placed(&self, d: DiskModel) -> bool;

    /// The rows still to come from a disk that holds what `d` says.
    spec fn rows(&self, d: DiskModel) -> Option<Seq<RowModel>>;

    /// A bound on the steps still to be made.
    spec fn work(&self, d: DiskModel) -> nat;

    /// The operator will write nothing more to the disk.
    spec fn settled(&self) -> bool;

    /// The operator will ask nothing more of a disk that holds what `d` says, neither reads
    /// nor writes.
    spec fn dry(&self, d: DiskModel) -> bool;

    /// The operator will write nothing more to a disk that holds what `d` says.
    spec fn writes_nothing(&self, d: DiskModel) -> bool;

    /// How many requests are still to be made of a disk that holds what `d` says, and that is
    /// free or else busy with what the operator wants.
    spec fn requests_ahead(&self, d: DiskModel, idle: bool) -> nat;

    /// Others may write to unused blocks now: the operator is not in the middle of writing
    /// blocks that have to follow each other.
    spec fn quiet(&self) -> bool;

    /// What others write to unused blocks changes nothing.
    proof fn lemma_grows(&self, d: DiskModel, d2: DiskModel)
        requires
            self.wf(),
            self.quiet(),
            self.placed(d),
            grows(d, d2),
        ensures
            self.placed(d2),
            self.rows(d2) == self.rows(d),
            self.work(d2) == self.work(d),
            self.dry(d2) == self.dry(d),
            self.writes_nothing(d2) == self.writes_nothing(d),
            self.requests_ahead(d2, true) == self.requests_ahead(d, true),
    ;

    /// The columns of its rows.
    fn schema(&self) -> (r: &Schema)
        ensures
            r.deep_view() == self.columns(),
    ;

    /// Makes one step.
    fn next(&mut self, disk: &mut DiskManager) -> (s: Step)
        requires
            old(self).wf(),
            old(disk).wf(),
            disk_ready(old(disk), old(self).want()),
        ensures
            !(s is Failed) ==> final(self).wf(),
            final(disk).wf(),
            final(self).columns() == old(self).columns(),
            final(disk).follows(old(disk)),
            grows(old(disk)@, final(disk)@),
            !(s is Failed) ==> disk_ready(final(disk), final(self).want()),
            s is Row || s is Done ==> final(disk).idle(),
            s matches Step::Row(r) ==> conforms(r.deep_view(), old(self).columns()),
            s is Row ==> final(self).settled() && final(self).quiet(),
            old(self).settled() ==> {
                &&& final(self).settled()
                &&& final(disk)@ == old(disk)@
                &&& reads_at_most(old(disk), final(disk))
            },
            old(disk)@.healthy && old(self).placed(old(disk)@) ==> {
                &&& old(self).dry(old(disk)@) ==> {
                    &&& *final(disk) == *old(disk)
                    &&& !(s is Failed) ==> final(self).dry(final(disk)@)
                }
                &&& old(self).writes_nothing(old(disk)@) ==> {
                    &&& final(disk)@ == old(disk)@
                    &&& reads_at_most(old(disk), final(disk))
                    &&& !(s is Failed) ==> final(self).writes_nothing(final(disk)@)
                }
            },
            final(disk)@.healthy && old(self).placed(old(disk)@) ==> {
                &&& !(s is Failed) ==> final(self).placed(final(disk)@)
                &&& step_follows(
                    old(self).rows(old(disk)@),
                    final(self).rows(final(disk)@),
                    s,
                )
                &&& old(self).rows(old(disk)@) is Some && !(s is Done) ==> step_advances(
                    old(self).work(old(disk)@),
                    final(self).work(final(disk)@),
                    old(disk),
                    final(disk),
                )
                &&& old(self).rows(old(disk)@) is Some ==> {
                    &&& final(disk).world@.requests.len() + final(self).requests_ahead(
                        final(disk)@,
                        final(disk).idle(),
                    ) == old(disk).world@.requests.len() + old(self).requests_ahead(
                        old(disk)@,
                        old(disk).idle(),
                    )
                    &&& s is Done ==> final(self).requests_ahead(final(disk)@, true) == 0
                }
            },
    ;
}

} // verus!
