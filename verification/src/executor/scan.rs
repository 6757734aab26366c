//! Scanning a table.

use vstd::prelude::*;

use crate::catalog::DbContext;
use crate::disk::{DiskManager, DiskModel, Request};
use crate::executor::builder::{polled, Build, PlanError};
use crate::executor::cursor::{lemma_read_plan, read_plan, region_rows, BlockCursor, Fill};
use crate::executor::plan::{facts_of, scan_plan, scan_question, Fault, Plan};
use crate::executor::{Operator, Step};
use crate::facts::FileFacts;
use crate::row::{Row, RowModel, Schema, SchemaModel};

verus! {

/// How many consecutive blocks to fetch per disk request.
pub const BLOCKS_PER_READ: u64 = 64;

/// Scans all rows of a single table from disk, some blocks at a time.
pub struct ScanOperator {
    pub cursor: BlockCursor,
}

impl ScanOperator {
    /// The requests that are still to be made.
    pub open spec fn reads_left(&self, disk: &DiskManager) -> Seq<Request> {
        self.cursor.reads_left(disk)
    }

    /// A scan of a table. The disk is asked where the table lies, as long as that is not
    /// known.
    pub fn new(
        table_id: &String,
        ctx: &DbContext,
        facts: &FileFacts,
        disk: &mut DiskManager,
    ) -> (r: Build<ScanOperator>)
        requires
            old(disk).wf(),
            old(disk).idle(),
            facts.hold(old(disk)@),
        ensures
            polled(
                r,
                scan_question(table_id@, *ctx, facts_of(facts, old(disk))),
                old(disk),
                final(disk),
            ),
            match r {
                Build::Ready(scan) => {
                    let plan = Plan::Scan {
                        columns: scan.columns(),
                        start: scan.cursor.start,
                        blocks: scan.cursor.total,
                    };
                    &&& scan_plan(table_id@, *ctx, facts_of(facts, old(disk))) == Ok::<
                        Plan,
                        Fault,
                    >(plan)
                    &&& scan.wf()
                    &&& scan.reads_left(final(disk)) == read_plan(
                        scan.cursor.start as nat,
                        scan.cursor.total as nat,
                        0,
                        BLOCKS_PER_READ as nat,
                    )
                    &&& forall|d: DiskModel|
                        #![trigger scan.rows(d)]
                        scan.rows(d) == plan.rows(d)
                    &&& old(disk)@.healthy ==> scan.placed(old(disk)@)
                },
                Build::Pending => true,
                Build::Failed(e) => scan_plan(table_id@, *ctx, facts_of(facts, old(disk))) == Err::<
                    Plan,
                    Fault,
                >(e.deep_view()),
            },
    {
        let table = match ctx.find_table(table_id) {
            Some(table) => table,
            None => return Build::Failed(PlanError::UnknownTable(table_id.clone())),
        };
        let file_start = match facts.start_of(&table.file_id, disk) {
            Some(n) => n,
            None => return Build::Pending,
        };
        let file_blocks = match facts.size_of(&table.file_id, disk) {
            Some(n) => n,
            None => return Build::Pending,
        };
        if file_blocks > u64::MAX - file_start {
            return Build::Failed(PlanError::FileTooLarge(table.file_id.clone()));
        }
        Build::Ready(ScanOperator::over(table.schema(), file_start, file_blocks))
    }

    /// A scan of the file that starts at the given block.
    pub fn over(schema: Schema, file_start: u64, file_blocks: u64) -> (r: ScanOperator)
        requires
            file_start + file_blocks <= u64::MAX,
        ensures
            r.wf(),
            r.columns() == schema.deep_view(),
            r.cursor.start == file_start,
            r.cursor.total == file_blocks,
            r.cursor.batch == BLOCKS_PER_READ,
            r.cursor.blocks_read == 0,
            r.settled(),
            forall|d: DiskModel|
                #![trigger r.rows(d)]
                r.rows(d) == region_rows(
                    d.blocks,
                    schema.deep_view(),
                    file_start as int,
                    file_blocks as nat,
                ),
    {
        ScanOperator { cursor: BlockCursor::new(schema, file_start, file_blocks, BLOCKS_PER_READ) }
    }
}

impl Operator for ScanOperator {
    open spec fn wf(&self) -> bool {
        self.cursor.wf()
    }

    open spec fn columns(&self) -> SchemaModel {
        self.cursor.schema.deep_view()
    }

    open spec fn want(&self) -> Option<(u64, u64)> {
        self.cursor.want()
    }

    open spec fn placed(&self, d: DiskModel) -> bool {
        self.cursor.placed(d)
    }

    open spec fn rows(&self, d: DiskModel) -> Option<Seq<RowModel>> {
        self.cursor.rows(d)
    }

    open spec fn work(&self, d: DiskModel) -> nat {
        self.cursor.work(d)
    }

    open spec fn settled(&self) -> bool {
        true
    }

    open spec fn dry(&self, d: DiskModel) -> bool {
        self.cursor.blocks_read == self.cursor.total
    }

    open spec fn writes_nothing(&self, d: DiskModel) -> bool {
        true
    }

    open spec fn requests_ahead(&self, d: DiskModel, idle: bool) -> nat {
        self.cursor.reads_when(idle).len()
    }

    open spec fn quiet(&self) -> bool {
        true
    }

    proof fn lemma_grows(&self, d: DiskModel, d2: DiskModel) {
        self.cursor.lemma_grows(d, d2);
    }

    fn schema(&self) -> (r: &Schema) {
        &self.cursor.schema
    }

    fn next(&mut self, disk: &mut DiskManager) -> (s: Step)
        ensures
            !(s is Failed) ==> final(disk).world@.requests + final(self).reads_left(final(disk))
                == old(disk).world@.requests + old(self).reads_left(old(disk)),
            s is Done <==> old(self).cursor.at >= old(self).cursor.buffer@.len()
                && old(self).cursor.blocks_read == old(self).cursor.total,
            s is Done ==> *final(self) == *old(self) && *final(disk) == *old(disk),
            s is Done ==> final(self).reads_left(final(disk)) == Seq::<Request>::empty(),
    {
        if self.cursor.has_row() {
            let row = self.cursor.take();
            return Step::Row(row);
        }
        if !self.cursor.has_blocks() {
            proof {
                assert(self.rows(disk@)->0 =~= Seq::<RowModel>::empty());
            }
            return Step::Done;
        }
        match self.cursor.fill(disk) {
            Fill::Ready => Step::Pending,
            Fill::Pending => Step::Pending,
            Fill::Failed => Step::Failed,
        }
    }
}

/// From its first step to its last a scan makes a request for every 64 blocks of the file,
/// and one for the rest, each for the next blocks, and no other. `before` and `after` are the
/// disk at the start and at the end of a scan that has been stepped to its end; no step
/// changes what has been asked for together with what is still to be asked for.
pub proof fn lemma_scan_requests(
    first: ScanOperator,
    before: DiskManager,
    last: ScanOperator,
    after: DiskManager,
)
    requires
        first.reads_left(&before) == read_plan(
            first.cursor.start as nat,
            first.cursor.total as nat,
            0,
            BLOCKS_PER_READ as nat,
        ),
        after.world@.requests + last.reads_left(&after) == before.world@.requests
            + first.reads_left(&before),
        last.reads_left(&after) == Seq::<Request>::empty(),
    ensures
        ({
            let (start, n) = (first.cursor.start as nat, first.cursor.total as nat);
            let plan = read_plan(start, n, 0, 64);
            &&& after.world@.requests == before.world@.requests + plan
            &&& plan.len() == (n + 63) / 64
            &&& forall|k: int|
                0 <= k < plan.len() ==> #[trigger] plan[k] == (Request::Read {
                    start: (start + 64 * k) as nat,
                    count: if n - 64 * k < 64 {
                        (n - 64 * k) as nat
                    } else {
                        64
                    },
                })
        }),
{
    let (start, n) = (first.cursor.start as nat, first.cursor.total as nat);
    lemma_read_plan(start, n, 0);
    assert(after.world@.requests + Seq::<Request>::empty() =~= after.world@.requests);
    let plan = read_plan(start, n, 0, 64);
    assert forall|k: int| 0 <= k < plan.len() implies #[trigger] plan[k] == (Request::Read {
        start: (start + 64 * k) as nat,
        count: if n - 64 * k < 64 {
            (n - 64 * k) as nat
        } else {
            64
        },
    }) by {}
}

} // verus!
