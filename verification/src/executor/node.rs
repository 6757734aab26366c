//! The operators of a plan as one type.

use vstd::prelude::*;

use crate::disk::{DiskManager, DiskModel};
use crate::executor::cross::CrossOperator;
use crate::executor::filter::FilterOperator;
use crate::executor::hashjoin::HashJoinOperator;
use crate::executor::project::ProjectOperator;
use crate::executor::scan::ScanOperator;
use crate::executor::sort::SortOperator;
use crate::executor::{Operator, Step};
use crate::row::{RowModel, Schema, SchemaModel};

verus! {

/// An operator of any kind.
pub enum PlanNode<'q> {
    Scan(ScanOperator),
    Filter(FilterOperator<'q>),
    Project(ProjectOperator<'q>),
    Sort(SortOperator<'q>),
    Cross(CrossOperator<'q>),
    HashJoin(HashJoinOperator<'q>),
}

impl<'q> Operator for PlanNode<'q> {
    open spec fn wf(&self) -> bool
        decreases self,
    {
        match self {
            PlanNode::Scan(op) => op.wf(),
            PlanNode::Filter(op) => op.wf(),
            PlanNode::Project(op) => op.wf(),
            PlanNode::Sort(op) => op.wf(),
            PlanNode::Cross(op) => op.wf(),
            PlanNode::HashJoin(op) => op.wf(),
        }
    }

    open spec fn columns(&self) -> SchemaModel
        decreases self,
    {
        match self {
            PlanNode::Scan(op) => op.columns(),
            PlanNode::Filter(op) => op.columns(),
            PlanNode::Project(op) => op.columns(),
            PlanNode::Sort(op) => op.columns(),
            PlanNode::Cross(op) => op.columns(),
            PlanNode::HashJoin(op) => op.columns(),
        }
    }

    open spec fn want(&self) -> Option<(u64, u64)>
        decreases self,
    {
        match self {
            PlanNode::Scan(op) => op.want(),
            PlanNode::Filter(op) => op.want(),
            PlanNode::Project(op) => op.want(),
            PlanNode::Sort(op) => op.want(),
            PlanNode::Cross(op) => op.want(),
            PlanNode::HashJoin(op) => op.want(),
        }
    }

    open spec fn placed(&self, d: DiskModel) -> bool
        decreases self,
    {
        match self {
            PlanNode::Scan(op) => op.placed(d),
            PlanNode::Filter(op) => op.placed(d),
            PlanNode::Project(op) => op.placed(d),
            PlanNode::Sort(op) => op.placed(d),
            PlanNode::Cross(op) => op.placed(d),
            PlanNode::HashJoin(op) => op.placed(d),
        }
    }

    open spec fn rows(&self, d: DiskModel) -> Option<Seq<RowModel>>
        decreases self,
    {
        match self {
            PlanNode::Scan(op) => op.rows(d),
            PlanNode::Filter(op) => op.rows(d),
            PlanNode::Project(op) => op.rows(d),
            PlanNode::Sort(op) => op.rows(d),
            PlanNode::Cross(op) => op.rows(d),
            PlanNode::HashJoin(op) => op.rows(d),
        }
    }

    open spec fn work(&self, d: DiskModel) -> nat
        decreases self,
    {
        match self {
            PlanNode::Scan(op) => op.work(d),
            PlanNode::Filter(op) => op.work(d),
            PlanNode::Project(op) => op.work(d),
            PlanNode::Sort(op) => op.work(d),
            PlanNode::Cross(op) => op.work(d),
            PlanNode::HashJoin(op) => op.work(d),
        }
    }

    open spec fn settled(&self) -> bool
        decreases self,
    {
        match self {
            PlanNode::Scan(op) => op.settled(),
            PlanNode::Filter(op) => op.settled(),
            PlanNode::Project(op) => op.settled(),
            PlanNode::Sort(op) => op.settled(),
            PlanNode::Cross(op) => op.settled(),
            PlanNode::HashJoin(op) => op.settled(),
        }
    }

    open spec fn dry(&self, d: DiskModel) -> bool
        decreases self,
    {
        match self {
            PlanNode::Scan(op) => op.dry(d),
            PlanNode::Filter(op) => op.dry(d),
            PlanNode::Project(op) => op.dry(d),
            PlanNode::Sort(op) => op.dry(d),
            PlanNode::Cross(op) => op.dry(d),
            PlanNode::HashJoin(op) => op.dry(d),
        }
    }

    open spec fn writes_nothing(&self, d: DiskModel) -> bool
        decreases self,
    {
        match self {
            PlanNode::Scan(op) => op.writes_nothing(d),
            PlanNode::Filter(op) => op.writes_nothing(d),
            PlanNode::Project(op) => op.writes_nothing(d),
            PlanNode::Sort(op) => op.writes_nothing(d),
            PlanNode::Cross(op) => op.writes_nothing(d),
            PlanNode::HashJoin(op) => op.writes_nothing(d),
        }
    }

    open spec fn requests_ahead(&self, d: DiskModel, idle: bool) -> nat
        decreases self,
    {
        match self {
            PlanNode::Scan(op) => op.requests_ahead(d, idle),
            PlanNode::Filter(op) => op.requests_ahead(d, idle),
            PlanNode::Project(op) => op.requests_ahead(d, idle),
            PlanNode::Sort(op) => op.requests_ahead(d, idle),
            PlanNode::Cross(op) => op.requests_ahead(d, idle),
            PlanNode::HashJoin(op) => op.requests_ahead(d, idle),
        }
    }

    open spec fn quiet(&self) -> bool
        decreases self,
    {
        match self {
            PlanNode::Scan(op) => op.quiet(),
            PlanNode::Filter(op) => op.quiet(),
            PlanNode::Project(op) => op.quiet(),
            PlanNode::Sort(op) => op.quiet(),
            PlanNode::Cross(op) => op.quiet(),
            PlanNode::HashJoin(op) => op.quiet(),
        }
    }

    proof fn lemma_grows(&self, d: DiskModel, d2: DiskModel)
        decreases self,
    {
        match self {
            PlanNode::Scan(op) => op.lemma_grows(d, d2),
            PlanNode::Filter(op) => op.lemma_grows(d, d2),
            PlanNode::Project(op) => op.lemma_grows(d, d2),
            PlanNode::Sort(op) => op.lemma_grows(d, d2),
            PlanNode::Cross(op) => op.lemma_grows(d, d2),
            PlanNode::HashJoin(op) => op.lemma_grows(d, d2),
        }
    }

    fn schema(&self) -> (r: &Schema)
        decreases self,
    {
        match self {
            PlanNode::Scan(op) => op.schema(),
            PlanNode::Filter(op) => op.schema(),
            PlanNode::Project(op) => op.schema(),
            PlanNode::Sort(op) => op.schema(),
            PlanNode::Cross(op) => op.schema(),
            PlanNode::HashJoin(op) => op.schema(),
        }
    }

    fn next(&mut self, disk: &mut DiskManager) -> (s: Step)
        decreases *old(self),
    {
        let ghost before = *self;
        let ghost d = disk@;
        let step = match self {
            PlanNode::Scan(op) => op.next(disk),
            PlanNode::Filter(op) => op.next(disk),
            PlanNode::Project(op) => op.next(disk),
            PlanNode::Sort(op) => op.next(disk),
            PlanNode::Cross(op) => op.next(disk),
            PlanNode::HashJoin(op) => op.next(disk),
        };
        proof {
            assert(before.settled() == match before {
                PlanNode::Scan(op) => op.settled(),
                PlanNode::Filter(op) => op.settled(),
                PlanNode::Project(op) => op.settled(),
                PlanNode::Sort(op) => op.settled(),
                PlanNode::Cross(op) => op.settled(),
                PlanNode::HashJoin(op) => op.settled(),
            });
            assert(self.settled() == match *self {
                PlanNode::Scan(op) => op.settled(),
                PlanNode::Filter(op) => op.settled(),
                PlanNode::Project(op) => op.settled(),
                PlanNode::Sort(op) => op.settled(),
                PlanNode::Cross(op) => op.settled(),
                PlanNode::HashJoin(op) => op.settled(),
            });
            assert(before.dry(d) == match before {
                PlanNode::Scan(op) => op.dry(d),
                PlanNode::Filter(op) => op.dry(d),
                PlanNode::Project(op) => op.dry(d),
                PlanNode::Sort(op) => op.dry(d),
                PlanNode::Cross(op) => op.dry(d),
                PlanNode::HashJoin(op) => op.dry(d),
            });
            assert(self.dry(disk@) == match *self {
                PlanNode::Scan(op) => op.dry(disk@),
                PlanNode::Filter(op) => op.dry(disk@),
                PlanNode::Project(op) => op.dry(disk@),
                PlanNode::Sort(op) => op.dry(disk@),
                PlanNode::Cross(op) => op.dry(disk@),
                PlanNode::HashJoin(op) => op.dry(disk@),
            });
            assert(before.writes_nothing(d) == match before {
                PlanNode::Scan(op) => op.writes_nothing(d),
                PlanNode::Filter(op) => op.writes_nothing(d),
                PlanNode::Project(op) => op.writes_nothing(d),
                PlanNode::Sort(op) => op.writes_nothing(d),
                PlanNode::Cross(op) => op.writes_nothing(d),
                PlanNode::HashJoin(op) => op.writes_nothing(d),
            });
            assert(self.writes_nothing(disk@) == match *self {
                PlanNode::Scan(op) => op.writes_nothing(disk@),
                PlanNode::Filter(op) => op.writes_nothing(disk@),
                PlanNode::Project(op) => op.writes_nothing(disk@),
                PlanNode::Sort(op) => op.writes_nothing(disk@),
                PlanNode::Cross(op) => op.writes_nothing(disk@),
                PlanNode::HashJoin(op) => op.writes_nothing(disk@),
            });
            assert(before.requests_ahead(d, old(disk).idle()) == match before {
                PlanNode::Scan(op) => op.requests_ahead(d, old(disk).idle()),
                PlanNode::Filter(op) => op.requests_ahead(d, old(disk).idle()),
                PlanNode::Project(op) => op.requests_ahead(d, old(disk).idle()),
                PlanNode::Sort(op) => op.requests_ahead(d, old(disk).idle()),
                PlanNode::Cross(op) => op.requests_ahead(d, old(disk).idle()),
                PlanNode::HashJoin(op) => op.requests_ahead(d, old(disk).idle()),
            });
            assert(self.requests_ahead(disk@, disk.idle()) == match *self {
                PlanNode::Scan(op) => op.requests_ahead(disk@, disk.idle()),
                PlanNode::Filter(op) => op.requests_ahead(disk@, disk.idle()),
                PlanNode::Project(op) => op.requests_ahead(disk@, disk.idle()),
                PlanNode::Sort(op) => op.requests_ahead(disk@, disk.idle()),
                PlanNode::Cross(op) => op.requests_ahead(disk@, disk.idle()),
                PlanNode::HashJoin(op) => op.requests_ahead(disk@, disk.idle()),
            });
            assert(self.quiet() == match *self {
                PlanNode::Scan(op) => op.quiet(),
                PlanNode::Filter(op) => op.quiet(),
                PlanNode::Project(op) => op.quiet(),
                PlanNode::Sort(op) => op.quiet(),
                PlanNode::Cross(op) => op.quiet(),
                PlanNode::HashJoin(op) => op.quiet(),
            });
        }
        step
    }
}

} // verus!
