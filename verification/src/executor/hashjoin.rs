//! The hash join of two operators.

use vstd::prelude::*;

use crate::block::all_fit;
use crate::disk::{grows, DiskManager, DiskModel, Request};
use crate::executor::joincore::{join_cost, joined, lemma_more_rows, JoinCore, INMEM_BUILD_BUDGET};
use crate::executor::jointable::indices_ok;
use crate::executor::node::PlanNode;
use crate::executor::partition::rows_weight;
use crate::executor::partjoin::{hash_joined, lemma_probe_cost, parts_cost, parts_joined,
    probe_cost};
use crate::executor::parttraffic::{divided, join_requests, no_parts, parts_reads, Dividing};
use crate::executor::{step_follows, Operator, Step};
use crate::row::{clone_schema, conforms, extend_schema, Row, RowModel, Schema, SchemaModel};

verus! {

/// The left columns of some pairs of key columns.
pub open spec fn left_keys(keys: Seq<(usize, usize)>) -> Seq<usize> {
    Seq::new(keys.len(), |i: int| keys[i].0)
}

/// The right columns of some pairs of key columns.
pub open spec fn right_keys(keys: Seq<(usize, usize)>) -> Seq<usize> {
    Seq::new(keys.len(), |i: int| keys[i].1)
}

/// Joins the rows of its children that have equal keys.
pub struct HashJoinOperator<'q> {
    /// There until its rows are no longer needed.
    pub left: Option<Box<PlanNode<'q>>>,
    /// There until all its rows have come.
    pub right: Option<Box<PlanNode<'q>>>,
    pub core: JoinCore,
    pub schema: Schema,
}

impl<'q> HashJoinOperator<'q> {
    pub fn new(left: PlanNode<'q>, right: PlanNode<'q>, join_keys: &Vec<(usize, usize)>) -> (r:
        HashJoinOperator<'q>)
        requires
            left.wf(),
            right.wf(),
            left.quiet(),
            right.quiet(),
            indices_ok(left_keys(join_keys@), left.columns().len()),
            indices_ok(right_keys(join_keys@), right.columns().len()),
        ensures
            r.wf(),
            r.quiet(),
            r.columns() == left.columns() + right.columns(),
            r.left matches Some(left_) && *left_ == left,
            r.right matches Some(right_) && *right_ == right,
            forall|d: DiskModel| #[trigger]
                r.placed(d) == (left.placed(d) && right.placed(d) && 0 <= d.next),
            forall|d: DiskModel| #[trigger]
                r.rows(d) == joined(
                    left_keys(join_keys@),
                    right_keys(join_keys@),
                    left.rows(d),
                    right.rows(d),
                    d.block_size,
                ),
            forall|d: DiskModel| #[trigger]
                r.in_memory(d) == (right.rows(d) matches Some(rows) && rows_weight(rows)
                    < INMEM_BUILD_BUDGET),
            forall|disk: &DiskManager| #[trigger]
                r.traffic(disk) == join_requests(
                    disk.world@.requests,
                    disk@.next as nat,
                    left_keys(join_keys@),
                    right_keys(join_keys@),
                    left.rows(disk@)->0,
                    right.rows(disk@)->0,
                    disk@.block_size,
                ),
            forall|d: DiskModel| #[trigger]
                r.requests_ahead(d, true) == left.requests_ahead(d, true) + right.requests_ahead(
                    d,
                    true,
                ) + join_requests(
                    Seq::empty(),
                    0,
                    left_keys(join_keys@),
                    right_keys(join_keys@),
                    left.rows(d)->0,
                    right.rows(d)->0,
                    d.block_size,
                ).len(),
    {
        let left_schema = clone_schema(left.schema());
        let right_schema = clone_schema(right.schema());
        let mut schema = clone_schema(left.schema());
        extend_schema(&mut schema, &right_schema);
        let mut left_indices: Vec<usize> = Vec::new();
        let mut right_indices: Vec<usize> = Vec::new();
        let mut i: usize = 0;
        while i < join_keys.len()
            invariant
                i <= join_keys.len(),
                left_indices@ == left_keys(join_keys@).take(i as int),
                right_indices@ == right_keys(join_keys@).take(i as int),
            decreases join_keys.len() - i,
        {
            left_indices.push(join_keys[i].0);
            right_indices.push(join_keys[i].1);
            i += 1;
            assert(left_indices@ =~= left_keys(join_keys@).take(i as int));
            assert(right_indices@ =~= right_keys(join_keys@).take(i as int));
        }
        assert(left_indices@ =~= left_keys(join_keys@));
        assert(right_indices@ =~= right_keys(join_keys@));
        let core = JoinCore::new(left_schema, right_schema, left_indices, right_indices);
        let r = HashJoinOperator {
            left: Some(Box::new(left)),
            right: Some(Box::new(right)),
            core,
            schema,
        };
        proof {
            assert forall|d: DiskModel| #[trigger]
                r.rows(d) == joined(
                    left_keys(join_keys@),
                    right_keys(join_keys@),
                    left.rows(d),
                    right.rows(d),
                    d.block_size,
                ) by {
                if let Some(more) = right.rows(d) {
                    assert(Seq::<RowModel>::empty() + more =~= more);
                }
            }
            assert forall|d: DiskModel| #[trigger]
                r.in_memory(d) == (right.rows(d) matches Some(rows) && rows_weight(rows)
                    < INMEM_BUILD_BUDGET) by {
                if let Some(rows) = right.rows(d) {
                    assert(Seq::<RowModel>::empty() + rows =~= rows);
                }
            }
        }
        r
    }

    /// The right rows, with those that the right child is still to give, stay in memory.
    pub open spec fn in_memory(&self, d: DiskModel) -> bool
        decreases self, 0int,
    {
        &&& self.left is Some
        &&& match self.right {
            Some(right) => right.rows(d) matches Some(more)
                && rows_weight(self.core.all_right@ + more) < INMEM_BUILD_BUDGET,
            None => self.core.probing(),
        }
    }

    /// Neither child asks anything more of the disk.
    pub open spec fn children_dry(&self, d: DiskModel) -> bool
        decreases self, 0int,
    {
        &&& match self.left {
            Some(left) => left.dry(d),
            None => true,
        }
        &&& match self.right {
            Some(right) => right.dry(d),
            None => true,
        }
    }

    /// The requests that have been made of the disk, and those that are still to be made,
    /// apart from those of the children.
    pub open spec fn traffic(&self, disk: &DiskManager) -> Seq<Request>
        decreases self, 0int,
    {
        let right_rows = match self.right {
            Some(right) => right.rows(disk@)->0,
            None => Seq::empty(),
        };
        let left_rows = match self.left {
            Some(left) => left.rows(disk@)->0,
            None => Seq::empty(),
        };
        self.core.traffic(disk, right_rows, left_rows)
    }

    pub open spec fn current_work(&self) -> nat {
        if self.core.matching() {
            self.core.current_rows().len() + 1
        } else {
            0
        }
    }

    /// What comes out while right rows are coming.
    pub open spec fn rows_with_right(
        &self,
        d: DiskModel,
        left: Option<Seq<RowModel>>,
        more: Option<Seq<RowModel>>,
    ) -> Option<Seq<RowModel>> {
        joined(
            self.core.li(),
            self.core.ri(),
            left,
            match more {
                Some(rows) => Some(self.core.all_right@ + rows),
                None => None,
            },
            d.block_size,
        )
    }

    /// What comes out while left rows are coming.
    pub open spec fn rows_with_left(&self, d: DiskModel, more: Option<Seq<RowModel>>) -> Option<
        Seq<RowModel>,
    > {
        match more {
            Some(rows) => if self.core.probing() {
                Some(
                    self.core.current_rows() + hash_joined(
                        self.core.li(),
                        self.core.ri(),
                        rows,
                        self.core.all_right@,
                    ),
                )
            } else if all_fit(self.core.all_left@ + rows, d.block_size) {
                Some(
                    parts_joined(
                        self.core.li(),
                        self.core.ri(),
                        self.core.all_left@ + rows,
                        self.core.all_right@,
                        0,
                    ),
                )
            } else {
                None
            },
            None => None,
        }
    }

    /// The work that is left while left rows are coming, apart from that of the child.
    pub open spec fn work_with_left(&self, rows: Seq<RowModel>) -> nat {
        if self.core.probing() {
            probe_cost(rows.len(), self.core.all_right@.len()) + self.current_work()
        } else {
            parts_cost(
                self.core.li(),
                self.core.ri(),
                self.core.all_left@ + rows,
                self.core.all_right@,
                0,
            ) + 2
        }
    }

    /// Takes in a row that the right child has just given.
    fn take_right(&mut self, row: Row, disk: &mut DiskManager) -> (s: Step)
        requires
            old(disk).wf(),
            old(disk).idle(),
            old(self).wf(),
            old(self).right matches Some(right) && right.quiet(),
            conforms(row.deep_view(), old(self).core.rs()),
        ensures
            final(disk).wf(),
            final(disk).idle(),
            final(disk).follows(old(disk)),
            grows(old(disk)@, final(disk)@),
            !(s is Failed) ==> final(self).wf(),
            final(self).columns() == old(self).columns(),
            final(self).right is Some,
            s is Pending || s is Failed,
            rows_weight(old(self).core.all_right@.push(row.deep_view())) < INMEM_BUILD_BUDGET
                ==> *final(disk) == *old(disk),
            s is Pending ==> {
                &&& final(self).left == old(self).left
                &&& final(self).right == old(self).right
                &&& final(self).core.all_right@ == old(self).core.all_right@.push(row.deep_view())
            },
            final(disk)@.healthy && old(self).placed(old(disk)@) ==> {
                let left = old(self).left->0.rows(old(disk)@);
                let more = match old(self).right->0.rows(old(disk)@) {
                    Some(rest) => Some(seq![row.deep_view()] + rest),
                    None => None,
                };
                let all = old(self).rows_with_right(old(disk)@, left, more);
                if s is Pending {
                    &&& final(self).placed(final(disk)@)
                    &&& final(self).children_dry(final(disk)@) == old(self).children_dry(
                        old(disk)@,
                    )
                    &&& more is Some ==> final(self).traffic(final(disk))
                        == old(self).core.traffic(old(disk), more->0, left->0)
                    &&& more is Some ==> final(disk).world@.requests.len()
                        + final(self).requests_ahead(final(disk)@, true)
                        == old(disk).world@.requests.len()
                        + old(self).right->0.requests_ahead(old(disk)@, true)
                        + old(self).left->0.requests_ahead(old(disk)@, true)
                        + old(self).core.requests_ahead(
                        old(disk)@.block_size,
                        true,
                        more->0,
                        left->0,
                    )
                    &&& final(self).rows(final(disk)@) == all
                    &&& all is Some ==> final(self).work(final(disk)@)
                        == old(self).right->0.work(old(disk)@) + old(self).left->0.work(
                        old(disk)@,
                    ) + join_cost(
                        old(self).core.li(),
                        old(self).core.ri(),
                        left->0,
                        old(self).core.all_right@ + more->0,
                    ) + 3
                } else {
                    all is None
                }
            },
    {
        let ghost before = *self;
        let ghost d = disk@;
        let ok = self.core.add_right(row, disk);
        proof {
            if disk@.healthy && before.placed(d) {
                self.left->0.lemma_grows(d, disk@);
                self.right->0.lemma_grows(d, disk@);
                if let Some(rest) = before.right->0.rows(d) {
                    let more = seq![row.deep_view()] + rest;
                    let grown = before.core.all_right@.push(row.deep_view());
                    assert(before.core.all_right@ + more =~= grown + rest);
                    lemma_more_rows(grown, rest, d.block_size);
                    if ok {
                        let left_rows = before.left->0.rows(d)->0;
                        before.core.lemma_traffic_len(old(disk), more, left_rows);
                        self.core.lemma_traffic_len(disk, rest, left_rows);
                    }
                }
            }
        }
        if ok {
            Step::Pending
        } else {
            Step::Failed
        }
    }

    /// All right rows have come.
    fn finish_right(&mut self, disk: &mut DiskManager) -> (s: Step)
        requires
            old(disk).wf(),
            old(disk).idle(),
            old(self).wf(),
            old(self).right is Some,
        ensures
            final(disk).wf(),
            final(disk).idle(),
            final(disk).follows(old(disk)),
            grows(old(disk)@, final(disk)@),
            !(s is Failed) ==> final(self).wf(),
            final(self).columns() == old(self).columns(),
            s is Pending || s is Failed,
            rows_weight(old(self).core.all_right@) < INMEM_BUILD_BUDGET ==> {
                &&& *final(disk) == *old(disk)
                &&& s is Pending
                &&& final(self).core.probing()
            },
            s is Pending ==> final(self).left == old(self).left && final(self).right is None,
            final(disk)@.healthy && old(self).left->0.placed(old(disk)@)
                && old(self).core.placed(old(disk)@) ==> {
                let left = old(self).left->0.rows(old(disk)@);
                let all = old(self).rows_with_right(old(disk)@, left, Some(Seq::empty()));
                if s is Pending {
                    &&& final(self).placed(final(disk)@)
                    &&& final(self).children_dry(final(disk)@) == old(self).left->0.dry(old(disk)@)
                    &&& final(self).traffic(final(disk)) == old(self).core.traffic(
                        old(disk),
                        Seq::empty(),
                        left->0,
                    )
                    &&& final(disk).world@.requests.len() + final(self).requests_ahead(
                        final(disk)@,
                        true,
                    ) == old(disk).world@.requests.len() + old(self).left->0.requests_ahead(
                        old(disk)@,
                        true,
                    ) + old(self).core.requests_ahead(
                        old(disk)@.block_size,
                        true,
                        Seq::empty(),
                        left->0,
                    )
                    &&& final(self).rows(final(disk)@) == all
                    &&& all is Some ==> final(self).work(final(disk)@) < old(self).left->0.work(
                        old(disk)@,
                    ) + join_cost(
                        old(self).core.li(),
                        old(self).core.ri(),
                        left->0,
                        old(self).core.all_right@,
                    ) + 3
                } else {
                    all is None
                }
            },
    {
        let ghost before = *self;
        let ghost d = disk@;
        let ghost none = Seq::<RowModel>::empty();
        proof {
            assert(before.core.all_right@ + none =~= before.core.all_right@);
        }
        if !self.core.end_right(disk) {
            return Step::Failed;
        }
        self.right = None;
        proof {
            self.core.lemma_phase();
            self.core.lemma_idle();
            if disk@.healthy && before.left->0.placed(d) {
                self.left->0.lemma_grows(d, disk@);
                let left_rows = before.left->0.rows(d)->0;
                before.core.lemma_traffic_len(old(disk), none, left_rows);
                self.core.lemma_traffic_len(disk, none, left_rows);
                if let Some(l) = before.left->0.rows(d) {
                    assert(none + l =~= l);
                    let out = hash_joined(
                        self.core.li(),
                        self.core.ri(),
                        l,
                        self.core.all_right@,
                    );
                    assert(none + out =~= out);
                }
            }
        }
        Step::Pending
    }

    /// Takes in a row that the left child has just given.
    fn take_left(&mut self, row: Row, disk: &mut DiskManager) -> (s: Step)
        requires
            old(disk).wf(),
            old(disk).idle(),
            old(self).wf(),
            old(self).right is None,
            old(self).left matches Some(left) && left.quiet() && left.settled(),
            !old(self).core.matching(),
            conforms(row.deep_view(), old(self).core.ls()),
        ensures
            final(disk).wf(),
            final(disk).idle(),
            final(disk).follows(old(disk)),
            grows(old(disk)@, final(disk)@),
            old(self).core.probing() ==> {
                &&& *final(disk) == *old(disk)
                &&& final(self).settled()
                &&& final(self).core.probing()
                &&& final(self).left == old(self).left
            },
            !(s is Failed) ==> final(self).wf(),
            final(self).columns() == old(self).columns(),
            s is Pending || s is Failed,
            final(disk)@.healthy && old(self).placed(old(disk)@) ==> {
                let more = match old(self).left->0.rows(old(disk)@) {
                    Some(rest) => Some(seq![row.deep_view()] + rest),
                    None => None,
                };
                let all = old(self).rows_with_left(old(disk)@, more);
                if s is Pending {
                    &&& final(self).placed(final(disk)@)
                    &&& final(self).children_dry(final(disk)@) == old(self).left->0.dry(old(disk)@)
                    &&& more is Some ==> final(self).traffic(final(disk))
                        == old(self).core.traffic(old(disk), Seq::empty(), more->0)
                    &&& more is Some ==> final(disk).world@.requests.len()
                        + final(self).requests_ahead(final(disk)@, true)
                        == old(disk).world@.requests.len()
                        + old(self).left->0.requests_ahead(old(disk)@, true)
                        + old(self).core.requests_ahead(
                        old(disk)@.block_size,
                        true,
                        Seq::empty(),
                        more->0,
                    )
                    &&& final(self).rows(final(disk)@) == all
                    &&& all is Some ==> final(self).work(final(disk)@)
                        <= old(self).left->0.work(old(disk)@) + old(self).work_with_left(more->0)
                } else {
                    all is None
                }
            },
    {
        let ghost before = *self;
        let ghost d = disk@;
        if self.core.is_probing() {
            proof {
                before.core.lemma_idle();
                if let Some(rest) = before.left->0.rows(d) {
                    let more = seq![row.deep_view()] + rest;
                    assert(more.drop_first() =~= rest);
                    lemma_probe_cost(more.len(), before.core.all_right@.len());
                }
            }
            self.core.start_row(row);
            proof {
                if let Some(rest) = before.left->0.rows(d) {
                    let more = seq![row.deep_view()] + rest;
                    before.core.lemma_probing_traffic(old(disk), Seq::empty(), more);
                    self.core.lemma_probing_traffic(disk, Seq::empty(), rest);
                    before.core.lemma_traffic_len(old(disk), Seq::empty(), more);
                    self.core.lemma_traffic_len(disk, Seq::empty(), rest);
                    let out = hash_joined(
                        before.core.li(),
                        before.core.ri(),
                        more,
                        before.core.all_right@,
                    );
                    assert(Seq::<RowModel>::empty() + out =~= out);
                }
            }
            return Step::Pending;
        }
        let ok = self.core.add_left(row, disk);
        proof {
            if ok {
                self.core.lemma_phase();
            }
            if disk@.healthy && before.placed(d) {
                self.left->0.lemma_grows(d, disk@);
                if let Some(rest) = before.left->0.rows(d) {
                    let more = seq![row.deep_view()] + rest;
                    let grown = before.core.all_left@.push(row.deep_view());
                    assert(before.core.all_left@ + more =~= grown + rest);
                    if ok {
                        before.core.lemma_traffic_len(old(disk), Seq::empty(), more);
                        self.core.lemma_traffic_len(disk, Seq::empty(), rest);
                    }
                    lemma_more_rows(grown, rest, d.block_size);
                }
            }
        }
        if ok {
            Step::Pending
        } else {
            Step::Failed
        }
    }

    /// All left rows have come, and are in partitions.
    fn finish_left(&mut self, disk: &mut DiskManager) -> (s: Step)
        requires
            old(disk).wf(),
            old(disk).idle(),
            old(self).wf(),
            old(self).right is None,
            old(self).left is Some,
            old(self).core.dividing_left(),
        ensures
            final(disk).wf(),
            final(disk).idle(),
            final(disk).follows(old(disk)),
            grows(old(disk)@, final(disk)@),
            !(s is Failed) ==> final(self).wf(),
            final(self).columns() == old(self).columns(),
            s is Pending || s is Failed,
            s is Pending ==> {
                &&& final(self).children_dry(final(disk)@)
                &&& final(self).traffic(final(disk)) == old(self).core.traffic(
                    old(disk),
                    Seq::empty(),
                    Seq::empty(),
                )
                &&& final(disk).world@.requests.len() + final(self).requests_ahead(
                    final(disk)@,
                    true,
                ) == old(disk).world@.requests.len() + old(self).core.requests_ahead(
                    old(disk)@.block_size,
                    true,
                    Seq::empty(),
                    Seq::empty(),
                )
            },
            final(disk)@.healthy && old(self).core.placed(old(disk)@) ==> {
                let all = old(self).rows_with_left(old(disk)@, Some(Seq::empty()));
                if s is Pending {
                    &&& final(self).placed(final(disk)@)
                    &&& final(self).rows(final(disk)@) == all
                    &&& all is Some ==> final(self).work(final(disk)@) < old(self).work_with_left(
                        Seq::empty(),
                    )
                } else {
                    all is None
                }
            },
    {
        let ghost before = *self;
        let ghost d = disk@;
        proof {
            assert(before.core.all_left@ + Seq::<RowModel>::empty() =~= before.core.all_left@);
        }
        if self.core.end_left(disk) {
            self.left = None;
            proof {
                before.core.lemma_traffic_len(old(disk), Seq::empty(), Seq::empty());
                self.core.lemma_traffic_len(disk, Seq::empty(), Seq::empty());
            }
            Step::Pending
        } else {
            Step::Failed
        }
    }

    /// Gives out a match of the current left row.
    fn next_match(&mut self, Ghost(d): Ghost<DiskModel>) -> (s: Step)
        requires
            old(self).wf(),
            old(self).right is None,
            old(self).left is Some,
            old(self).core.matching(),
        ensures
            final(self).wf(),
            final(self).columns() == old(self).columns(),
            final(self).left == old(self).left,
            final(self).right is None,
            s is Row || s is Pending,
            final(self).settled(),
            s is Row ==> final(self).quiet(),
            forall|disk: &DiskManager| #[trigger]
                final(self).traffic(disk) == old(self).traffic(disk),
            final(self).requests_ahead(d, true) == old(self).requests_ahead(d, true),
            s matches Step::Row(r) ==> conforms(r.deep_view(), old(self).columns()),
            old(self).placed(d) ==> {
                &&& final(self).placed(d)
                &&& step_follows(old(self).rows(d), final(self).rows(d), s)
                &&& old(self).rows(d) is Some ==> final(self).work(d) < old(self).work(d)
            },
    {
        let ghost before = *self;
        proof {
            self.core.lemma_phase();
        }
        let r = self.core.next_match();
        proof {
            before.core.lemma_probing_ahead(d.block_size, true, before.left->0.rows(d)->0);
            self.core.lemma_probing_ahead(d.block_size, true, before.left->0.rows(d)->0);
            assert forall|disk: &DiskManager| #[trigger]
                self.traffic(disk) == before.traffic(disk) by {
                let rest = before.left->0.rows(disk@)->0;
                before.core.lemma_probing_traffic(disk, Seq::empty(), rest);
                self.core.lemma_probing_traffic(disk, Seq::empty(), rest);
            }
        }
        match r {
            Some(row) => {
                proof {
                    if let Some(l) = before.left->0.rows(d) {
                        let tail = hash_joined(
                            self.core.li(),
                            self.core.ri(),
                            l,
                            self.core.all_right@,
                        );
                        let rest = before.core.current_rows();
                        assert((rest + tail).drop_first() =~= rest.drop_first() + tail);
                        assert(before.work(d) == before.left->0.work(d) + before.work_with_left(l));
                        assert(self.work(d) == self.left->0.work(d) + self.work_with_left(l));
                    }
                }
                Step::Row(row)
            },
            None => {
                proof {
                    if let Some(l) = before.left->0.rows(d) {
                        assert(before.work(d) == before.left->0.work(d) + before.work_with_left(l));
                        assert(self.work(d) == self.left->0.work(d) + self.work_with_left(l));
                    }
                }
                Step::Pending
            },
        }
    }
}

impl<'q> Operator for HashJoinOperator<'q> {
    open spec fn wf(&self) -> bool
        decreases self,
    {
        &&& self.core.wf()
        &&& self.schema.deep_view() == self.core.ls() + self.core.rs()
        &&& match (self.right, self.left) {
            (Some(right), Some(left)) => {
                &&& right.wf()
                &&& right.columns() == self.core.rs()
                &&& left.wf()
                &&& left.columns() == self.core.ls()
                &&& left.quiet()
                &&& self.core.taking_right()
            },
            (None, Some(left)) => {
                &&& left.wf()
                &&& left.columns() == self.core.ls()
                &&& self.core.probing() || self.core.dividing_left()
                &&& self.core.matching() ==> left.settled() && left.quiet()
            },
            (None, None) => self.core.reading(),
            (Some(_), None) => false,
        }
    }

    open spec fn columns(&self) -> SchemaModel {
        self.schema.deep_view()
    }

    open spec fn want(&self) -> Option<(u64, u64)>
        decreases self,
    {
        match (self.right, self.left) {
            (Some(right), _) => right.want(),
            (None, Some(left)) => if self.core.matching() {
                None
            } else {
                left.want()
            },
            (None, None) => self.core.want(),
        }
    }

    open spec fn placed(&self, d: DiskModel) -> bool
        decreases self,
    {
        &&& self.core.placed(d)
        &&& match self.right {
            Some(right) => right.placed(d),
            None => true,
        }
        &&& match self.left {
            Some(left) => left.placed(d),
            None => true,
        }
    }

    open spec fn rows(&self, d: DiskModel) -> Option<Seq<RowModel>>
        decreases self,
    {
        match (self.right, self.left) {
            (Some(right), Some(left)) => self.rows_with_right(d, left.rows(d), right.rows(d)),
            (None, Some(left)) => self.rows_with_left(d, left.rows(d)),
            (None, None) => Some(self.core.read_rows(d)),
            (Some(_), None) => None,
        }
    }

    open spec fn work(&self, d: DiskModel) -> nat
        decreases self,
    {
        match (self.right, self.left) {
            (Some(right), Some(left)) => match (right.rows(d), left.rows(d)) {
                (Some(more), Some(l)) => right.work(d) + left.work(d) + join_cost(
                    self.core.li(),
                    self.core.ri(),
                    l,
                    self.core.all_right@ + more,
                ) + 3,
                _ => 0,
            },
            (None, Some(left)) => match left.rows(d) {
                Some(more) => left.work(d) + self.work_with_left(more),
                None => 0,
            },
            (None, None) => self.core.read_work(d),
            (Some(_), None) => 0,
        }
    }

    open spec fn settled(&self) -> bool
        decreases self,
    {
        &&& self.right is None
        &&& match self.left {
            Some(left) => left.settled() && self.core.probing(),
            None => true,
        }
    }

    open spec fn dry(&self, d: DiskModel) -> bool
        decreases self,
    {
        &&& self.in_memory(d)
        &&& match self.left {
            Some(left) => left.dry(d),
            None => true,
        }
        &&& match self.right {
            Some(right) => right.dry(d),
            None => true,
        }
    }

    open spec fn writes_nothing(&self, d: DiskModel) -> bool
        decreases self,
    {
        &&& self.in_memory(d) || (self.right is None && self.left is None)
        &&& match self.left {
            Some(left) => left.writes_nothing(d),
            None => true,
        }
        &&& match self.right {
            Some(right) => right.writes_nothing(d),
            None => true,
        }
    }

    open spec fn requests_ahead(&self, d: DiskModel, idle: bool) -> nat
        decreases self,
    {
        match (self.left, self.right) {
            (Some(left), Some(right)) => right.requests_ahead(d, idle) + left.requests_ahead(
                d,
                true,
            ) + self.core.requests_ahead(
                d.block_size,
                true,
                right.rows(d)->0,
                left.rows(d)->0,
            ),
            (Some(left), None) => left.requests_ahead(d, idle) + self.core.requests_ahead(
                d.block_size,
                true,
                Seq::empty(),
                left.rows(d)->0,
            ),
            _ => self.core.requests_ahead(d.block_size, idle, Seq::empty(), Seq::empty()),
        }
    }

    open spec fn quiet(&self) -> bool
        decreases self,
    {
        &&& match self.right {
            Some(right) => right.quiet(),
            None => true,
        }
        &&& match self.left {
            Some(left) => left.quiet(),
            None => true,
        }
    }

    proof fn lemma_grows(&self, d: DiskModel, d2: DiskModel)
        decreases self,
    {
        self.core.lemma_grows(d, d2);
        if let Some(left) = &self.left {
            left.lemma_grows(d, d2);
        }
        if let Some(right) = &self.right {
            right.lemma_grows(d, d2);
        }
    }

    fn schema(&self) -> (r: &Schema) {
        &self.schema
    }

    #[verifier::rlimit(60)]
    fn next(&mut self, disk: &mut DiskManager) -> (s: Step)
        ensures
            old(disk)@.healthy && old(self).placed(old(disk)@) && old(self).in_memory(old(disk)@)
                ==> {
                &&& old(self).children_dry(old(disk)@) ==> {
                    &&& *final(disk) == *old(disk)
                    &&& !(s is Failed) ==> final(self).children_dry(final(disk)@)
                }
                &&& final(disk)@.healthy && !(s is Failed) ==> final(self).in_memory(final(disk)@)
            },
            old(self).children_dry(old(disk)@) && !(s is Failed) && final(disk)@.healthy
                && old(self).placed(old(disk)@) && old(self).rows(old(disk)@) is Some ==> {
                &&& final(self).children_dry(final(disk)@)
                &&& final(self).traffic(final(disk)) == old(self).traffic(old(disk))
                &&& s is Done ==> final(self).traffic(final(disk)) == final(disk).world@.requests
            },
        decreases *old(self),
    {
        let ghost before = *self;
        let ghost d = disk@;
        if let Some(right) = &mut self.right {
            let step = right.next(disk);
            let ghost d1 = disk@;
            proof {
                if before.placed(d) {
                    self.left->0.lemma_grows(d, d1);
                    self.core.lemma_grows(d, d1);
                    if let Some(more) = before.right->0.rows(d) {
                        if more.len() > 0 {
                            let rest = more.drop_first();
                            let grown = before.core.all_right@.push(more[0]);
                            assert(more =~= seq![more[0]] + rest);
                            assert(before.core.all_right@ + more =~= grown + rest);
                            lemma_more_rows(grown, rest, d.block_size);
                        } else {
                            assert(more =~= Seq::<RowModel>::empty());
                            assert(before.core.all_right@ + more =~= before.core.all_right@);
                        }
                        assert(before.requests_ahead(d, old(disk).idle())
                            == before.right->0.requests_ahead(d, old(disk).idle())
                            + before.left->0.requests_ahead(d, true)
                            + before.core.requests_ahead(
                            d.block_size,
                            true,
                            more,
                            before.left->0.rows(d)->0,
                        ));
                        assert(before.left->0.rows(d) is Some ==> before.work(d)
                            == before.right->0.work(d) + before.left->0.work(d) + join_cost(
                            before.core.li(),
                            before.core.ri(),
                            before.left->0.rows(d)->0,
                            before.core.all_right@ + more,
                        ) + 3);
                    }
                }
            }
            return match step {
                Step::Row(row) => self.take_right(row, disk),
                Step::Done => self.finish_right(disk),
                Step::Pending => Step::Pending,
                Step::Failed => Step::Failed,
            };
        }
        proof {
            self.core.lemma_phase();
        }
        if self.core.is_matching() {
            let step = self.next_match(Ghost(d));
            assert(self.traffic(disk) == before.traffic(disk));
            return step;
        }
        if let Some(left) = &mut self.left {
            let step = left.next(disk);
            let ghost d1 = disk@;
            proof {
                if before.placed(d) {
                    self.core.lemma_grows(d, d1);
                    if let Some(more) = before.left->0.rows(d) {
                        if more.len() > 0 {
                            assert(more =~= seq![more[0]] + more.drop_first());
                        } else {
                            assert(more =~= Seq::<RowModel>::empty());
                        }
                        assert(before.work(d) == before.left->0.work(d) + before.work_with_left(
                            more,
                        ));
                        assert(before.requests_ahead(d, old(disk).idle())
                            == before.left->0.requests_ahead(d, old(disk).idle())
                            + before.core.requests_ahead(d.block_size, true, Seq::empty(), more));
                    }
                    before.core.lemma_idle();
                }
            }
            return match step {
                Step::Row(row) => self.take_left(row, disk),
                Step::Done => if self.core.is_probing() {
                    proof {
                        let none = Seq::<RowModel>::empty();
                        let rest = self.left->0.rows(d1)->0;
                        self.core.lemma_probing_traffic(disk, none, rest);
                        self.core.lemma_probing_ahead(d.block_size, true, rest);
                    }
                    Step::Done
                } else {
                    self.finish_left(disk)
                },
                Step::Pending => Step::Pending,
                Step::Failed => Step::Failed,
            };
        }
        let step = self.core.next_read(disk);
        proof {
            if !(step is Failed) {
                before.core.lemma_traffic_len(old(disk), Seq::empty(), Seq::empty());
                self.core.lemma_traffic_len(disk, Seq::empty(), Seq::empty());
            }
        }
        step
    }
}

/// What a hash join asks of the disk from its first step to its last, where its children ask
/// nothing themselves. Where the right rows stay in memory, nothing is asked. Else the right
/// rows and then the left rows are divided by their keys; the rows of a partition are written
/// with one request, to the next unused blocks, whenever they weigh enough, and what is left
/// of each in the end; and then every partition is read once, its right rows and then its
/// left rows, in the order in which they were written. `before` and `after` are the disk at
/// the start and at the end of an operator that has been stepped to its end; no step changes
/// what has been asked for together with what is still to be asked for.
pub proof fn lemma_hash_join_requests(
    first: HashJoinOperator,
    before: DiskManager,
    last: HashJoinOperator,
    after: DiskManager,
)
    requires
        first.left is Some,
        first.right is Some,
        first.left->0.rows(before@) is Some,
        first.right->0.rows(before@) is Some,
        first.core.phase is Building,
        first.core.all_right@.len() == 0,
        last.traffic(&after) == first.traffic(&before),
        last.traffic(&after) == after.world@.requests,
    ensures
        ({
            let left_rows = first.left->0.rows(before@)->0;
            let right_rows = first.right->0.rows(before@)->0;
            let (li, ri) = (first.core.li(), first.core.ri());
            let made = before.world@.requests;
            let bs = before@.block_size;
            if rows_weight(right_rows) < INMEM_BUILD_BUDGET {
                after.world@.requests == made
            } else {
                let next = before@.next as nat;
                let start = Dividing { parts: no_parts(), requests: made, next };
                let r = divided(start, ri, right_rows, bs);
                let l = divided(Dividing { parts: no_parts(), ..r }, li, left_rows, bs);
                after.world@.requests == l.requests + parts_reads(l.parts, r.parts, 0)
            }
        }),
{
    first.core.lemma_fresh_traffic(
        &before,
        first.right->0.rows(before@)->0,
        first.left->0.rows(before@)->0,
    );
}

} // verus!
