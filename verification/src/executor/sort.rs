//! Sorting the rows of an operator.

use vstd::multiset::Multiset;
use vstd::prelude::*;

use crate::disk::{DiskManager, DiskModel, Request};
use crate::executor::node::PlanNode;
use crate::executor::runtraffic::{runs_requests, sort_requests};
use crate::executor::sorter::{cut_runs, merge_batch, none_filled, sort_result, sorted_runs,
    stays_in_memory, RowSorter, RunMeta};
use crate::executor::{Operator, Step};
use crate::query::SortSpec;
use crate::row::{clone_schema, Row, RowModel, Schema, SchemaModel};

verus! {

/// Sorts the rows of its child.
pub struct SortOperator<'q> {
    /// There until all its rows have come.
    pub child: Option<Box<PlanNode<'q>>>,
    pub sorter: RowSorter<'q>,
}

impl<'q> SortOperator<'q> {
    /// No run of the rows goes to the disk: what has come, with what the child is still to
    /// give, fills none.
    pub open spec fn in_memory(&self, d: DiskModel) -> bool
        decreases self, 0int,
    {
        match self.child {
            Some(child) => {
                &&& self.sorter.run_rows@.len() == 0
                &&& child.rows(d) matches Some(rest)
                    && none_filled(cut_runs(self.sorter.buf.deep_view(), rest))
            },
            None => self.sorter.output is InMemory,
        }
    }

    /// The requests that are still to be made, apart from those of the child.
    pub open spec fn requests_left(&self, disk: &DiskManager) -> Multiset<Request>
        decreases self, 0int,
    {
        match self.child {
            Some(child) => self.sorter.requests_left(disk, child.rows(disk@)->0),
            None => self.sorter.requests_left(disk, Seq::empty()),
        }
    }

    /// The requests that have been made of the disk, and those that are still to be made.
    pub open spec fn traffic(&self, disk: &DiskManager) -> Multiset<Request>
        decreases self, 1int,
    {
        disk.world@.requests.to_multiset().add(self.requests_left(disk))
    }

    /// The child, if it is still there, asks nothing more of the disk.
    pub open spec fn child_dry(&self, d: DiskModel) -> bool
        decreases self, 0int,
    {
        match self.child {
            Some(child) => child.dry(d),
            None => true,
        }
    }

    pub fn new(sort_specs: &'q Vec<SortSpec>, child: PlanNode<'q>) -> (r: SortOperator<'q>)
        requires
            child.wf(),
        ensures
            r.wf(),
            r.columns() == child.columns(),
            r.child matches Some(c) && *c == child,
            forall|d: DiskModel| #[trigger] r.placed(d) == child.placed(d),
            forall|d: DiskModel| #[trigger]
                r.rows(d) == match child.rows(d) {
                    Some(rows) => sort_result(
                        sort_specs.deep_view(),
                        child.columns(),
                        d.block_size,
                        rows,
                    ),
                    None => None,
                },
            forall|d: DiskModel| #[trigger]
                r.in_memory(d) == (child.rows(d) matches Some(rows) && stays_in_memory(rows)),
            forall|disk: &DiskManager| #[trigger]
                r.requests_left(disk) == sort_requests(
                    sort_specs.deep_view(),
                    child.columns(),
                    disk@.block_size,
                    Seq::empty(),
                    Seq::empty(),
                    child.rows(disk@)->0,
                    disk@.next as nat,
                ),
            forall|d: DiskModel| #[trigger]
                r.requests_ahead(d, true) == child.requests_ahead(d, true) + sort_requests(
                    sort_specs.deep_view(),
                    child.columns(),
                    d.block_size,
                    Seq::empty(),
                    Seq::empty(),
                    child.rows(d)->0,
                    0,
                ).len(),
    {
        let schema = clone_schema(child.schema());
        let sorter = RowSorter::new(sort_specs, schema);
        assert(sorter.buf.deep_view() =~= Seq::<RowModel>::empty());
        assert(sorter.runs@ =~= Seq::<RunMeta>::empty());
        SortOperator { child: Some(Box::new(child)), sorter }
    }
}

impl<'q> Operator for SortOperator<'q> {
    open spec fn wf(&self) -> bool
        decreases self,
    {
        match self.child {
            Some(child) => {
                &&& child.wf()
                &&& child.columns() == self.sorter.schema.deep_view()
                &&& self.sorter.collecting()
            },
            None => self.sorter.output_wf(),
        }
    }

    open spec fn columns(&self) -> SchemaModel {
        self.sorter.schema.deep_view()
    }

    open spec fn want(&self) -> Option<(u64, u64)>
        decreases self,
    {
        match self.child {
            Some(child) => child.want(),
            None => self.sorter.output_want(),
        }
    }

    open spec fn placed(&self, d: DiskModel) -> bool
        decreases self,
    {
        match self.child {
            Some(child) => child.placed(d) && self.sorter.runs_placed(d),
            None => self.sorter.output_placed(d),
        }
    }

    open spec fn rows(&self, d: DiskModel) -> Option<Seq<RowModel>>
        decreases self,
    {
        match self.child {
            Some(child) => match child.rows(d) {
                Some(rest) => self.sorter.outcome(d.block_size, rest),
                None => None,
            },
            None => self.sorter.output_rows(d),
        }
    }

    open spec fn work(&self, d: DiskModel) -> nat
        decreases self,
    {
        match self.child {
            Some(child) => match child.rows(d) {
                Some(rest) => child.work(d) + self.sorter.runs_work() + 3 * (self.sorter.buf@.len()
                    + rest.len()) + 1,
                None => 0,
            },
            None => self.sorter.output_work(d),
        }
    }

    open spec fn settled(&self) -> bool
        decreases self,
    {
        self.child is None
    }

    open spec fn dry(&self, d: DiskModel) -> bool
        decreases self,
    {
        &&& self.in_memory(d)
        &&& match self.child {
            Some(child) => child.dry(d),
            None => true,
        }
    }

    open spec fn writes_nothing(&self, d: DiskModel) -> bool
        decreases self,
    {
        match self.child {
            Some(child) => child.writes_nothing(d) && self.in_memory(d),
            None => true,
        }
    }

    open spec fn requests_ahead(&self, d: DiskModel, idle: bool) -> nat
        decreases self,
    {
        match self.child {
            Some(child) => child.requests_ahead(d, idle) + self.sorter.requests_ahead(
                d.block_size,
                true,
                child.rows(d)->0,
            ),
            None => self.sorter.requests_ahead(d.block_size, idle, Seq::empty()),
        }
    }

    open spec fn quiet(&self) -> bool
        decreases self,
    {
        match self.child {
            Some(child) => child.quiet(),
            None => true,
        }
    }

    proof fn lemma_grows(&self, d: DiskModel, d2: DiskModel)
        decreases self,
    {
        match &self.child {
            Some(child) => {
                child.lemma_grows(d, d2);
                self.sorter.lemma_runs_grow(d, d2);
            },
            None => self.sorter.lemma_output_grows(d, d2),
        }
    }

    fn schema(&self) -> (r: &Schema) {
        &self.sorter.schema
    }

    fn next(&mut self, disk: &mut DiskManager) -> (s: Step)
        ensures
            old(disk)@.healthy && old(self).placed(old(disk)@) && old(self).in_memory(old(disk)@)
                ==> {
                &&& old(self).child_dry(old(disk)@) ==> *final(disk) == *old(disk)
                &&& final(disk)@.healthy && !(s is Failed) ==> final(self).in_memory(final(disk)@)
            },
            old(self).child_dry(old(disk)@) && !(s is Failed) && final(disk)@.healthy
                && old(self).placed(old(disk)@) && old(self).rows(old(disk)@) is Some ==> {
                &&& final(self).child_dry(final(disk)@)
                &&& final(self).traffic(final(disk)) == old(self).traffic(old(disk))
                &&& s is Done ==> final(self).requests_left(final(disk)) == Multiset::<
                    Request,
                >::empty()
            },
        decreases *old(self),
    {
        let ghost before = *self;
        let ghost d = disk@;
        let step = match &mut self.child {
            Some(child) => child.next(disk),
            None => {
                let step = self.sorter.next_sorted(disk);
                proof {
                    before.sorter.lemma_traffic_len(old(disk), Seq::empty());
                    self.sorter.lemma_traffic_len(disk, Seq::empty());
                }
                return step;
            },
        };
        let ghost disk1 = *disk;
        let ghost child = before.child->0;
        let ghost d1 = disk@;
        proof {
            if before.sorter.runs_placed(d) {
                before.sorter.lemma_runs_grow(d, d1);
            }
        }
        match step {
            Step::Row(row) => {
                let ok = self.sorter.absorb(row, disk);
                proof {
                    if disk@.healthy && before.placed(d) {
                        self.child->0.lemma_grows(d1, disk@);
                        if let Some(all) = child.rows(d) {
                            let rest = all.drop_first();
                            assert(all =~= seq![row.deep_view()] + rest);
                            before.sorter.lemma_traffic_len(&disk1, all);
                            self.sorter.lemma_traffic_len(disk, rest);
                        }
                    }
                }
                if ok {
                    Step::Pending
                } else {
                    Step::Failed
                }
            },
            Step::Done => {
                proof {
                    if d1.healthy && before.placed(d) {
                        assert(child.rows(d)->0 =~= Seq::<RowModel>::empty());
                    }
                }
                if self.sorter.initialize(disk) {
                    self.child = None;
                    proof {
                        before.sorter.lemma_traffic_len(&disk1, Seq::empty());
                        self.sorter.lemma_traffic_len(disk, Seq::empty());
                        assert(self.work(disk@) == self.sorter.output_work(disk@));
                        assert(child.rows(d) is Some ==> before.work(d) == child.work(d)
                            + before.sorter.runs_work() + 3 * (before.sorter.buf@.len()
                            + child.rows(d)->0.len()) + 1);
                    }
                    Step::Pending
                } else {
                    Step::Failed
                }
            },
            Step::Pending => Step::Pending,
            Step::Failed => Step::Failed,
        }
    }
}

/// What a sort asks of the disk from its first step to its last, where its child asks nothing
/// itself. Rows that fill no run stay in memory, and nothing is asked. Else the rows are cut
/// into runs; each is sorted, written with one request behind the one before it, from the
/// first unused block on, and read back once, as many blocks at a time as the merge allows
/// each run. `before` and `after` are the disk at the start and at the end of an operator
/// that has been stepped to its end; no step changes what has been asked for together with
/// what is still to be asked for.
pub proof fn lemma_sort_requests(
    first: SortOperator,
    before: DiskManager,
    last: SortOperator,
    after: DiskManager,
)
    requires
        first.child is Some,
        first.child->0.rows(before@) is Some,
        first.sorter.output is Pending,
        first.sorter.runs@.len() == 0,
        first.sorter.buf@.len() == 0,
        last.traffic(&after) == first.traffic(&before),
        last.requests_left(&after) == Multiset::<Request>::empty(),
    ensures
        ({
            let rows = first.child->0.rows(before@)->0;
            let bs = before@.block_size;
            let runs = cut_runs(Seq::empty(), rows);
            let made = after.world@.requests.to_multiset();
            let had = before.world@.requests.to_multiset();
            if stays_in_memory(rows) {
                made == had
            } else {
                sorted_runs(first.sorter.cs(), first.columns(), bs, runs) matches Some(sorted)
                    ==> made == had.add(
                    runs_requests(
                        sorted,
                        before@.next as nat,
                        bs,
                        merge_batch(sorted.len() as int, bs as int) as nat,
                    ),
                )
            }
        }),
{
    let rows = first.child->0.rows(before@)->0;
    let bs = before@.block_size;
    let made = after.world@.requests.to_multiset();
    let had = before.world@.requests.to_multiset();
    assert(first.sorter.buf.deep_view() =~= Seq::<RowModel>::empty());
    assert(last.traffic(&after) =~= made);
    if stays_in_memory(rows) {
        assert(first.traffic(&before) =~= had);
    } else if let Some(sorted) = sorted_runs(
        first.sorter.cs(),
        first.columns(),
        bs,
        cut_runs(Seq::empty(), rows),
    ) {
        let batch = merge_batch(sorted.len() as int, bs as int) as nat;
        let left = runs_requests(sorted, before@.next as nat, bs, batch);
        assert(first.requests_left(&before) =~= left);
    }
}

} // verus!
