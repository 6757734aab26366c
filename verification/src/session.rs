//! A query from its plan to its last row.

use vstd::prelude::*;

use crate::catalog::DbContext;
use crate::disk::{grows, reads_at_most, DiskManager, DiskModel};
use crate::executor::builder::{build_operator, Build, PlanError};
use crate::executor::node::PlanNode;
use crate::executor::plan::{facts_of, plan_of, plan_question, Fault, Plan};
use crate::executor::{disk_ready, step_advances, Operator, Step};
use crate::facts::{asks, freed, FileFacts};
use crate::query::QueryOp;
use crate::row::{Row, RowModel};

verus! {

/// The question on the memory that may be used.
pub fn memory_question() -> (r: &'static str)
    ensures
        r@ == "get_memory_limit\n"@,
{
    "get_memory_limit\n"
}

/// The line before the rows of an answer.
pub fn begin_line() -> (r: &'static str)
    ensures
        r@ == "validate\n"@,
{
    "validate\n"
}

/// The line behind the rows of an answer.
pub fn end_line() -> (r: &'static str)
    ensures
        r@ == "!\n"@,
{
    "!\n"
}

/// What is to be done next.
pub enum Action {
    /// Exchange what the disk waits for, if anything, and go on.
    Wait,
    /// The plan stands: send the first line.
    Begin,
    /// Send a row.
    Send(Row),
    /// Send the last line. There is nothing more to do.
    End,
    /// There is no plan.
    Refuse(PlanError),
    /// The rows cannot be had.
    Fail,
}

/// How far a query has come.
pub enum Stage<'q> {
    Planning,
    Running(PlanNode<'q>),
    Over,
}

/// A query that is being answered. `sent` are the rows that have been handed out, and
/// `origin` is what the disk held when the plan was made, after `begun` requests.
pub struct Session<'q> {
    pub root: &'q QueryOp,
    pub facts: FileFacts,
    pub stage: Stage<'q>,
    pub plan: Ghost<Plan>,
    pub begun: Ghost<nat>,
    pub origin: Ghost<DiskModel>,
    pub sent: Ghost<Seq<RowModel>>,
}

/// What has been sent, and what is still to come, is all.
pub open spec fn completes(
    sent: Seq<RowModel>,
    rest: Option<Seq<RowModel>>,
    all: Option<Seq<RowModel>>,
) -> bool {
    match all {
        Some(rows) => rest matches Some(more) && sent + more == rows,
        None => rest is None,
    }
}

impl<'q> Session<'q> {
    /// The session and the disk fit together.
    pub open spec fn wf(&self, disk: &DiskManager) -> bool {
        &&& disk.wf()
        &&& match self.stage {
            Stage::Planning => {
                &&& disk.idle() || disk.answered()
                &&& self.facts.hold(disk@)
                &&& self.sent@ == Seq::<RowModel>::empty()
            },
            Stage::Running(node) => {
                &&& node.wf()
                &&& disk_ready(disk, node.want())
                &&& disk@.healthy ==> {
                    &&& node.placed(disk@)
                    &&& completes(self.sent@, node.rows(disk@), self.plan@.rows(self.origin@))
                    &&& self.plan@.rows(self.origin@) is Some ==> disk.world@.requests.len()
                        + node.requests_ahead(disk@, disk.idle()) == self.begun@
                        + self.plan@.requests(self.origin@)
                    &&& self.plan@.writes_nothing(self.origin@) ==> {
                        &&& node.writes_nothing(disk@)
                        &&& disk@ == self.origin@
                    }
                }
            },
            Stage::Over => true,
        }
    }

    /// The work that is left.
    pub open spec fn work(&self, d: DiskModel) -> nat {
        match self.stage {
            Stage::Running(node) => node.work(d),
            _ => 0,
        }
    }

    /// A session that has not started.
    pub fn new(root: &'q QueryOp) -> (r: Session<'q>)
        ensures
            r.root == root,
            r.stage is Planning,
            forall|disk: &DiskManager| disk.wf() && disk.idle() ==> #[trigger] r.wf(disk),
            r.sent@ == Seq::<RowModel>::empty(),
    {
        Session {
            root,
            facts: FileFacts::new(),
            stage: Stage::Planning,
            plan: Ghost(arbitrary()),
            begun: Ghost(0),
            origin: Ghost(arbitrary()),
            sent: Ghost(Seq::empty()),
        }
    }

    /// Makes one step.
    pub fn step(&mut self, ctx: &DbContext, disk: &mut DiskManager) -> (a: Action)
        requires
            old(self).wf(old(disk)),
        ensures
            final(self).root == old(self).root,
            final(disk).wf(),
            final(disk).follows(old(disk)),
            grows(old(disk)@, final(disk)@),
            !(a is Fail) && !(a is Wait && final(self).stage is Planning) ==> final(self).wf(
                final(disk),
            ),
            match old(self).stage {
                Stage::Planning => {
                    let facts = facts_of(&final(self).facts, old(disk));
                    let question = plan_question(*old(self).root, *ctx, facts);
                    let plan = plan_of(*old(self).root, *ctx, facts);
                    &&& final(self).facts.extend(&old(self).facts, old(disk))
                    &&& final(disk)@ == old(disk)@
                    &&& match a {
                        Action::Wait => {
                            &&& question matches Some(q) && asks(
                                &freed(*old(disk)),
                                final(disk),
                                q,
                            )
                            &&& final(self).facts.hold(final(disk)@)
                            &&& final(self).stage is Planning
                            &&& final(self).sent@ == Seq::<RowModel>::empty()
                        },
                        Action::Begin => {
                            &&& question is None
                            &&& *final(disk) == freed(*old(disk))
                            &&& plan == Ok::<Plan, Fault>(final(self).plan@)
                            &&& final(self).origin@ == old(disk)@
                            &&& final(self).begun@ == old(disk).world@.requests.len()
                            &&& final(self).stage is Running
                            &&& final(self).sent@ == Seq::<RowModel>::empty()
                        },
                        Action::Refuse(e) => {
                            &&& question is None
                            &&& *final(disk) == freed(*old(disk))
                            &&& plan == Err::<Plan, Fault>(e.deep_view())
                            &&& final(self).stage is Over
                        },
                        _ => false,
                    }
                },
                Stage::Running(node) => {
                    let all = old(self).plan@.rows(old(self).origin@);
                    &&& old(disk)@.healthy && node.dry(old(disk)@) ==> *final(disk) == *old(disk)
                    &&& old(disk)@.healthy && old(self).plan@.writes_nothing(old(self).origin@)
                        ==> final(disk)@ == old(disk)@ && reads_at_most(old(disk), final(disk))
                    &&& final(self).plan == old(self).plan
                    &&& final(self).origin == old(self).origin
                    &&& final(self).begun == old(self).begun
                    &&& match a {
                        Action::Wait => final(self).sent == old(self).sent,
                        Action::Send(row) => final(self).sent@ == old(self).sent@.push(
                            row.deep_view(),
                        ),
                        Action::End => {
                            &&& final(self).stage is Over
                            &&& final(self).sent == old(self).sent
                            &&& final(disk)@.healthy ==> {
                                &&& all == Some(final(self).sent@)
                                &&& final(disk).world@.requests.len() == final(self).begun@
                                    + final(self).plan@.requests(final(self).origin@)
                            }
                        },
                        Action::Fail => final(disk)@.healthy ==> all is None,
                        _ => false,
                    }
                    &&& final(disk)@.healthy && all is Some && !(a is End) ==> step_advances(
                        old(self).work(old(disk)@),
                        final(self).work(final(disk)@),
                        old(disk),
                        final(disk),
                    )
                },
                Stage::Over => a is End && *final(self) == *old(self) && *final(disk) == *old(disk),
            },
    {
        let ghost before = *self;
        let ghost d = disk@;
        match &mut self.stage {
            Stage::Planning => match build_operator(self.root, ctx, &mut self.facts, disk) {
                Build::Ready(node) => {
                    let ghost facts = facts_of(&self.facts, old(disk));
                    let ghost plan = plan_of(*self.root, *ctx, facts)->Ok_0;
                    self.plan = Ghost(plan);
                    self.origin = Ghost(d);
                    self.begun = Ghost(old(disk).world@.requests.len());
                    proof {
                        assert(node.placed(d) == plan.placed(d));
                        assert(node.rows(d) == plan.rows(d));
                        assert(node.writes_nothing(d) == plan.writes_nothing(d));
                        assert(node.requests_ahead(d, true) == plan.requests(d));
                        if let Some(rows) = plan.rows(d) {
                            assert(Seq::<RowModel>::empty() + rows =~= rows);
                        }
                    }
                    self.stage = Stage::Running(node);
                    Action::Begin
                },
                Build::Pending => Action::Wait,
                Build::Failed(e) => {
                    self.stage = Stage::Over;
                    Action::Refuse(e)
                },
            },
            Stage::Running(node) => match node.next(disk) {
                Step::Row(row) => {
                    self.sent = Ghost(self.sent@.push(row.deep_view()));
                    proof {
                        if disk@.healthy {
                            if let Some(rest) = before.stage->Running_0.rows(d) {
                                assert(before.sent@.push(row.deep_view()) + rest.drop_first()
                                    =~= before.sent@ + rest);
                            }
                        }
                    }
                    Action::Send(row)
                },
                Step::Done => {
                    proof {
                        if disk@.healthy {
                            let rest = before.stage->Running_0.rows(d)->0;
                            assert(before.sent@ + rest =~= before.sent@);
                        }
                    }
                    self.stage = Stage::Over;
                    Action::End
                },
                Step::Pending => Action::Wait,
                Step::Failed => Action::Fail,
            },
            Stage::Over => Action::End,
        }
    }
}

/// The answer of the disk keeps a session going: once the blocks that were asked for have
/// been delivered, the next step can be made.
pub proof fn lemma_blocks_delivered(session: Session, before: DiskManager, after: DiskManager)
    requires
        session.wf(&before),
        session.stage is Running,
        before.link is AskedBlocks,
        after.wf(),
        after.asked() == before.asked(),
        after.world@.requests == before.world@.requests,
        after@ == (DiskModel { healthy: after@.healthy, ..before@ }),
        after@.healthy ==> before@.healthy,
    ensures
        session.wf(&after),
{
    if after@.healthy {
        assert(after@ == before@);
    }
}

/// The answer to a question on a file keeps the planning going.
pub proof fn lemma_line_delivered(session: Session, before: DiskManager, after: DiskManager)
    requires
        session.stage is Planning,
        session.sent@ == Seq::<RowModel>::empty(),
        session.facts.hold(before@),
        after.wf(),
        after.answered(),
        after@ == (DiskModel { healthy: after@.healthy, ..before@ }),
        after@.healthy ==> before@.healthy,
    ensures
        session.wf(&after),
{
}

} // verus!
