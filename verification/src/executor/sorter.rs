//! Sorting rows as they come, with the help of the disk where they are many.

use vstd::multiset::Multiset;
use vstd::prelude::*;
use vstd::utf8::encode_utf8;

use crate::block::{all_fit, image, lemma_spread, lemma_spread_len, spread, try_rows_to_blocks};
use crate::data::{Data, Value};
use crate::disk::{grows, reads_at_most, DiskManager, DiskModel, Request, MAX_REQUEST};
use crate::executor::cursor::{lemma_region_same, lemma_region_stored, region_rows, BlockCursor};
use crate::executor::merge::{lemma_sum_push, merge_runs, sum, ExternalMerge};
use crate::executor::order::{lemma_permuted_conform, lemma_sort_permutes, sort_by_specs, sort_rows};
use crate::executor::runtraffic::{lemma_readers_of_runs, lemma_sort_requests_len, runs_reads,
    runs_requests, sort_requests};
use crate::executor::sortkey::{all_known, knows_all};
use crate::executor::{disk_ready, step_advances, step_follows, Step};
use crate::query::{SortColumn, SortSpec};
use crate::row::{row_bytes, all_conform, clone_row, clone_schema, conforms, Row, RowModel, Schema,
    SchemaModel};

verus! {

/// Max in-memory row-data bytes before a sorted run goes to disk.
pub const RUN_BUDGET_BYTES: usize = 10485760;

/// Total memory budget for the buffers of all run readers during a merge.
pub const READER_BUFFER_BUDGET: u64 = 16777216;

/// The bytes that a value is taken to occupy in memory.
pub open spec fn value_estimate(v: Value) -> nat {
    match v {
        Value::Text(s) => 32 + encode_utf8(s).len(),
        _ => 16,
    }
}

pub open spec fn values_estimate(row: RowModel) -> nat
    decreases row.len(),
{
    if row.len() == 0 {
        0
    } else {
        values_estimate(row.drop_last()) + value_estimate(row.last())
    }
}

/// The bytes that a row is taken to occupy in memory.
pub open spec fn row_estimate(row: RowModel) -> nat {
    values_estimate(row) + 32
}

/// The bytes that rows are taken to occupy in memory.
pub open spec fn run_estimate(rows: Seq<RowModel>) -> nat
    decreases rows.len(),
{
    if rows.len() == 0 {
        0
    } else {
        run_estimate(rows.drop_last()) + row_estimate(rows.last())
    }
}

/// A number, or the largest there is.
pub open spec fn capped(n: nat) -> usize {
    if n <= usize::MAX {
        n as usize
    } else {
        usize::MAX
    }
}

/// The bytes that a row is taken to occupy in memory.
pub fn estimate_row_bytes(row: &Row) -> (r: usize)
    ensures
        r == capped(row_estimate(row.deep_view())),
{
    let ghost all = row.deep_view();
    let mut n: usize = 0;
    let mut i: usize = 0;
    proof {
        assert(all.take(0) =~= Seq::<Value>::empty());
    }
    while i < row.len()
        invariant
            i <= row.len(),
            all == row.deep_view(),
            n == capped(values_estimate(all.take(i as int))),
        decreases row.len() - i,
    {
        let bytes: usize = match &row[i] {
            Data::String(s) => {
                let len: usize = s.as_str().as_bytes().len();
                len.saturating_add(32)
            },
            _ => 16,
        };
        n = n.saturating_add(bytes);
        proof {
            assert(row[i as int].deep_view() == all[i as int]);
            assert(all.take(i + 1).drop_last() =~= all.take(i as int));
            assert(all.take(i + 1).last() == all[i as int]);
        }
        i += 1;
    }
    proof {
        assert(all.take(i as int) =~= all);
    }
    n.saturating_add(32)
}

// ── What sorting gives ───────────────────────────────────────────────────────

/// The rows fill a run.
pub open spec fn fills_run(rows: Seq<RowModel>) -> bool {
    run_estimate(rows) >= RUN_BUDGET_BYTES
}

/// The runs that come of the rows in `open` and those that follow: each ends with the row
/// that fills it, and the last with the last row.
pub open spec fn cut_runs(open: Seq<RowModel>, rest: Seq<RowModel>) -> Seq<Seq<RowModel>>
    decreases rest.len(),
{
    if rest.len() == 0 {
        if open.len() == 0 {
            Seq::empty()
        } else {
            seq![open]
        }
    } else {
        let more = open.push(rest[0]);
        if fills_run(more) {
            seq![more] + cut_runs(Seq::empty(), rest.drop_first())
        } else {
            cut_runs(more, rest.drop_first())
        }
    }
}

/// A run as it goes to disk: sorted, and nothing where that fails or a row is larger than
/// a block.
pub open spec fn sorted_run(
    cs: Seq<SortColumn>,
    schema: SchemaModel,
    block_size: nat,
    run: Seq<RowModel>,
) -> Option<Seq<RowModel>> {
    match sort_rows(cs, schema, run) {
        Some(rows) => if all_fit(rows, block_size) {
            Some(rows)
        } else {
            None
        },
        None => None,
    }
}

pub open spec fn sorted_runs(
    cs: Seq<SortColumn>,
    schema: SchemaModel,
    block_size: nat,
    runs: Seq<Seq<RowModel>>,
) -> Option<Seq<Seq<RowModel>>>
    decreases runs.len(),
{
    if runs.len() == 0 {
        Some(Seq::empty())
    } else {
        match (
            sorted_run(cs, schema, block_size, runs[0]),
            sorted_runs(cs, schema, block_size, runs.drop_first()),
        ) {
            (Some(run), Some(rest)) => Some(seq![run] + rest),
            _ => None,
        }
    }
}

/// No run has been filled.
pub open spec fn none_filled(runs: Seq<Seq<RowModel>>) -> bool {
    runs.len() == 0 || (runs.len() == 1 && !fills_run(runs[0]))
}

/// So few rows that they are sorted in memory.
pub open spec fn stays_in_memory(rows: Seq<RowModel>) -> bool {
    none_filled(cut_runs(Seq::empty(), rows))
}

/// What sorting gives when the runs in `closed` are on disk, the rows in `open` have come
/// since, and those in `rest` are to follow.
#[verifier::opaque]
pub open spec fn sorted_from(
    cs: Seq<SortColumn>,
    schema: SchemaModel,
    block_size: nat,
    closed: Seq<Seq<RowModel>>,
    open: Seq<RowModel>,
    rest: Seq<RowModel>,
) -> Option<Seq<RowModel>> {
    let more = cut_runs(open, rest);
    if closed.len() == 0 && none_filled(more) {
        sort_rows(cs, schema, open + rest)
    } else if !all_known(cs, schema) {
        None
    } else {
        match sorted_runs(cs, schema, block_size, more) {
            Some(runs) => Some(merge_runs(cs, schema, closed + runs)),
            None => None,
        }
    }
}

/// What sorting gives: the rows sorted in memory while they are few, else the sorted runs
/// merged.
pub open spec fn sort_result(
    cs: Seq<SortColumn>,
    schema: SchemaModel,
    block_size: nat,
    rows: Seq<RowModel>,
) -> Option<Seq<RowModel>> {
    sorted_from(cs, schema, block_size, Seq::empty(), Seq::empty(), rows)
}

// ── Runs ─────────────────────────────────────────────────────────────────────

/// Where a sorted run lies.
#[derive(Clone, Copy, Debug)]
pub struct RunMeta {
    pub start_block: u64,
    pub num_blocks: u64,
}

/// For each run the work of reading it back.
pub open spec fn read_works(runs: Seq<RunMeta>, rows: Seq<Seq<RowModel>>) -> Seq<nat> {
    Seq::new(runs.len(), |k: int| rows[k].len() + runs[k].num_blocks as nat)
}

/// The number of blocks that each of `num_runs` readers asks for at a time, so that
/// together they stay within their budget: at least one, and no more than 64. A decoded block
/// is taken to occupy twice its size.
pub open spec fn merge_batch(num_runs: int, block_size: int) -> int {
    let fair = READER_BUFFER_BUDGET as int / (num_runs * (2 * block_size));
    if fair < 1 {
        1
    } else if fair > MAX_REQUEST {
        MAX_REQUEST as int
    } else {
        fair
    }
}

/// The blocks that all readers hold at a time stay within the budget, unless there are so
/// many readers that each holds a single one.
pub proof fn lemma_merge_batch(num_runs: int, block_size: int)
    requires
        num_runs > 0,
        block_size > 0,
    ensures
        1 <= merge_batch(num_runs, block_size) <= MAX_REQUEST,
        merge_batch(num_runs, block_size) > 1 ==> merge_batch(num_runs, block_size) * (num_runs * (
        2 * block_size)) <= READER_BUFFER_BUDGET,
{
    let all = num_runs * (2 * block_size);
    assert(all > 0) by (nonlinear_arith)
        requires
            num_runs > 0,
            block_size > 0,
            all == num_runs * (2 * block_size),
    ;
    let fair = READER_BUFFER_BUDGET as int / all;
    vstd::arithmetic::div_mod::lemma_fundamental_div_mod(READER_BUFFER_BUDGET as int, all);
    let batch = merge_batch(num_runs, block_size);
    if batch > 1 {
        assert(batch * all <= all * fair) by (nonlinear_arith)
            requires
                batch <= fair,
                all > 0,
        ;
    }
}

/// The number of blocks that each of `num_runs` readers asks for at a time.
pub fn merge_batch_blocks(num_runs: u64, block_size: usize) -> (r: u64)
    requires
        num_runs > 0,
        block_size > 0,
        2 * block_size <= u64::MAX,
    ensures
        r == merge_batch(num_runs as int, block_size as int),
{
    let decoded_per_block: u64 = 2 * (block_size as u64);
    proof {
        vstd::arithmetic::div_mod::lemma_div_denominator(
            READER_BUFFER_BUDGET as int,
            decoded_per_block as int,
            num_runs as int,
        );
        assert(decoded_per_block * num_runs == num_runs * (2 * block_size)) by (nonlinear_arith)
            requires
                decoded_per_block == 2 * block_size,
        ;
    }
    let fair: u64 = READER_BUFFER_BUDGET / decoded_per_block / num_runs;
    if fair < 1 {
        1
    } else if fair > MAX_REQUEST {
        MAX_REQUEST
    } else {
        fair
    }
}

/// Sorts rows and writes them to the disk as one run.
fn flush_run(rows: &Vec<Row>, specs: &Vec<SortSpec>, schema: &Schema, disk: &mut DiskManager) -> (r:
    Option<RunMeta>)
    requires
        old(disk).wf(),
        old(disk).idle(),
        all_conform(rows.deep_view(), schema.deep_view()),
        rows@.len() > 0,
    ensures
        final(disk).wf(),
        final(disk).idle(),
        final(disk).follows(old(disk)),
        grows(old(disk)@, final(disk)@),
        ({
            let run = sorted_run(
                specs.deep_view(),
                schema.deep_view(),
                old(disk)@.block_size,
                rows.deep_view(),
            );
            match r {
                Some(meta) => {
                    &&& run is Some
                    &&& meta.start_block + meta.num_blocks <= u64::MAX
                    &&& meta.start_block + meta.num_blocks <= final(disk)@.next
                    &&& old(disk)@.block_size >= 2
                    &&& meta.num_blocks <= rows@.len()
                    &&& run->0.len() == rows@.len()
                    &&& all_conform(run->0, schema.deep_view())
                    &&& region_rows(
                        final(disk)@.blocks,
                        schema.deep_view(),
                        meta.start_block as int,
                        meta.num_blocks as nat,
                    ) == run
                    &&& meta.start_block == old(disk)@.next
                    &&& meta.num_blocks == spread(run->0, old(disk)@.block_size).len()
                    &&& final(disk)@.next == meta.start_block + meta.num_blocks
                    &&& final(disk).world@.requests == old(disk).world@.requests.push(
                        (Request::Write {
                            start: meta.start_block as nat,
                            data: image(
                                spread(run->0, old(disk)@.block_size),
                                old(disk)@.block_size,
                            ),
                        }),
                    )
                },
                None => run is None || !final(disk)@.healthy,
            }
        }),
{
    let ghost cs = specs.deep_view();
    let ghost s = schema.deep_view();
    proof {
        assert forall|i: int| 0 <= i < rows@.len() implies (#[trigger] rows@[i])@.len()
            == schema@.len() by {
            assert(conforms(rows.deep_view()[i], s));
        }
    }
    let sorted = match sort_by_specs(rows, specs, schema) {
        Some(sorted) => sorted,
        None => return None,
    };
    let block_size = disk.block_size();
    proof {
        lemma_sort_permutes(cs, s, rows.deep_view());
    }
    let blocks = match try_rows_to_blocks(&sorted, block_size) {
        Some(blocks) => blocks,
        None => {
            proof {
                if block_size < 2 {
                    assert(row_bytes(sorted.deep_view()[0]).len() > block_size - 2);
                }
            }
            return None;
        },
    };
    proof {
        lemma_permuted_conform(rows.deep_view(), sorted.deep_view(), s);
        lemma_region_stored(
            disk@.blocks,
            s,
            disk@.next,
            sorted.deep_view(),
            block_size as nat,
        );
        lemma_spread(sorted.deep_view(), block_size as nat);
        lemma_spread_len(sorted.deep_view(), block_size as nat);
    }
    match disk.store(blocks) {
        Some((start_block, num_blocks)) => Some(RunMeta { start_block, num_blocks }),
        None => None,
    }
}

/// Writing a run changes nothing of what has been asked for together with what is still
/// to be asked for.
proof fn lemma_run_written(
    runs: Seq<RunMeta>,
    meta: RunMeta,
    run: Seq<RowModel>,
    later: Seq<Seq<RowModel>>,
    next: nat,
    block_size: nat,
    requests: Seq<Request>,
)
    requires
        meta.start_block == next,
        meta.num_blocks == spread(run, block_size).len(),
    ensures
        ({
            let groups = spread(run, block_size);
            let count = runs.len() + 1 + later.len();
            let batch = merge_batch(count as int, block_size as int) as nat;
            let write = Request::Write { start: next, data: image(groups, block_size) };
            requests.push(write).to_multiset().add(
                runs_reads(runs.push(meta), batch).add(
                    runs_requests(later, next + groups.len(), block_size, batch),
                ),
            ) == requests.to_multiset().add(
                runs_reads(runs, batch).add(
                    runs_requests(seq![run] + later, next, block_size, batch),
                ),
            )
        }),
{
    broadcast use vstd::seq_lib::group_to_multiset_ensures;

    let groups = spread(run, block_size);
    let batch = merge_batch((runs.len() + 1 + later.len()) as int, block_size as int) as nat;
    let write = Request::Write { start: next, data: image(groups, block_size) };
    assert(runs.push(meta).drop_last() =~= runs);
    assert((seq![run] + later).drop_first() =~= later);
    assert(requests.push(write).to_multiset().add(
        runs_reads(runs.push(meta), batch).add(
            runs_requests(later, next + groups.len(), block_size, batch),
        ),
    ) =~= requests.to_multiset().add(
        runs_reads(runs, batch).add(runs_requests(seq![run] + later, next, block_size, batch)),
    ));
}

// ── The sorter ──────────────────────────────────────────────────────────────

/// Where the sorted rows come from.
pub enum SortOutput {
    /// They are still being collected.
    Pending,
    InMemory { rows: Vec<Row>, idx: usize },
    External(ExternalMerge),
}

/// Sorts rows as they come. They gather in `buf`; when they fill a run, it is sorted and
/// goes to disk. `run_rows` are the rows of the runs on disk.
pub struct RowSorter<'q> {
    pub sort_specs: &'q Vec<SortSpec>,
    pub schema: Schema,
    pub runs: Vec<RunMeta>,
    pub run_rows: Ghost<Seq<Seq<RowModel>>>,
    pub buf: Vec<Row>,
    pub buf_bytes: usize,
    pub output: SortOutput,
}

impl<'q> RowSorter<'q> {
    pub open spec fn cs(&self) -> Seq<SortColumn> {
        self.sort_specs.deep_view()
    }

    /// The state makes sense while rows are being collected, apart from the child.
    pub closed spec fn collecting(&self) -> bool {
        let s = self.schema.deep_view();
        &&& self.output is Pending
        &&& self.runs@.len() == self.run_rows@.len()
        &&& forall|k: int|
            0 <= k < self.runs@.len() ==> {
                let run = #[trigger] self.runs@[k];
                run.start_block + run.num_blocks <= u64::MAX
            }
        &&& all_conform(self.buf.deep_view(), s)
        &&& self.buf_bytes == run_estimate(self.buf.deep_view())
        &&& !fills_run(self.buf.deep_view())
    }

    /// The runs lie on the disk.
    pub closed spec fn runs_placed(&self, d: DiskModel) -> bool {
        &&& self.runs@.len() > 0 ==> d.block_size >= 2
        &&& forall|k: int|
            0 <= k < self.runs@.len() ==> {
                let run = #[trigger] self.runs@[k];
                &&& run.start_block + run.num_blocks <= d.next
                &&& region_rows(
                    d.blocks,
                    self.schema.deep_view(),
                    run.start_block as int,
                    run.num_blocks as nat,
                ) == Some(self.run_rows@[k])
            }
    }

    /// What comes out if `rest` is what is still to come.
    pub open spec fn outcome(&self, block_size: nat, rest: Seq<RowModel>) -> Option<
        Seq<RowModel>,
    > {
        sorted_from(
            self.cs(),
            self.schema.deep_view(),
            block_size,
            self.run_rows@,
            self.buf.deep_view(),
            rest,
        )
    }

    /// The work of reading the runs back.
    pub closed spec fn runs_work(&self) -> nat {
        sum(read_works(self.runs@, self.run_rows@))
    }

    pub closed spec fn output_placed(&self, d: DiskModel) -> bool {
        match self.output {
            SortOutput::External(merge) => merge.placed(d),
            _ => true,
        }
    }

    pub closed spec fn output_rows(&self, d: DiskModel) -> Option<Seq<RowModel>> {
        match self.output {
            SortOutput::Pending => None,
            SortOutput::InMemory { rows, idx } => Some(rows.deep_view().skip(idx as int)),
            SortOutput::External(merge) => merge.rows(self.cs(), d),
        }
    }

    pub closed spec fn output_work(&self, d: DiskModel) -> nat {
        match self.output {
            SortOutput::Pending => 0,
            SortOutput::InMemory { rows, idx } => (rows@.len() - idx) as nat,
            SortOutput::External(merge) => merge.work(d),
        }
    }

    /// The requests that are still to be made if `rest` is what is still to come.
    pub open spec fn requests_left(&self, disk: &DiskManager, rest: Seq<RowModel>) -> Multiset<
        Request,
    > {
        match self.output {
            SortOutput::Pending => sort_requests(
                self.cs(),
                self.schema.deep_view(),
                disk@.block_size,
                self.runs@,
                self.buf.deep_view(),
                rest,
                disk@.next as nat,
            ),
            SortOutput::InMemory { rows, idx } => Multiset::empty(),
            SortOutput::External(merge) => merge.reads_left(disk),
        }
    }

    /// How many requests are still to be made if `rest` is what is still to come, and the
    /// disk is free or else busy with what is wanted.
    pub open spec fn requests_ahead(
        &self,
        block_size: nat,
        idle: bool,
        rest: Seq<RowModel>,
    ) -> nat {
        match self.output {
            SortOutput::Pending => sort_requests(
                self.cs(),
                self.schema.deep_view(),
                block_size,
                self.runs@,
                self.buf.deep_view(),
                rest,
                0,
            ).len(),
            SortOutput::InMemory { rows, idx } => 0,
            SortOutput::External(merge) => merge.reads_when(idle).len(),
        }
    }

    pub proof fn lemma_traffic_len(&self, disk: &DiskManager, rest: Seq<RowModel>)
        ensures
            self.traffic(disk, rest).len() == disk.world@.requests.len() + self.requests_ahead(
                disk@.block_size,
                disk.idle(),
                rest,
            ),
    {
        broadcast use vstd::seq_lib::group_to_multiset_ensures;

        lemma_sort_requests_len(
            self.cs(),
            self.schema.deep_view(),
            disk@.block_size,
            self.runs@,
            self.buf.deep_view(),
            rest,
            disk@.next as nat,
        );
    }

    /// The requests that have been made of the disk, and those that are still to be made.
    pub open spec fn traffic(&self, disk: &DiskManager, rest: Seq<RowModel>) -> Multiset<Request> {
        disk.world@.requests.to_multiset().add(self.requests_left(disk, rest))
    }

    pub closed spec fn output_want(&self) -> Option<(u64, u64)> {
        match self.output {
            SortOutput::External(merge) => merge.want(),
            _ => None,
        }
    }

    pub closed spec fn output_wf(&self) -> bool {
        match self.output {
            SortOutput::Pending => false,
            SortOutput::InMemory { rows, idx } => {
                &&& idx <= rows@.len()
                &&& all_conform(rows.deep_view(), self.schema.deep_view())
            },
            SortOutput::External(merge) => {
                &&& merge.wf(self.cs())
                &&& merge.schema.deep_view() == self.schema.deep_view()
            },
        }
    }

    /// A sorter that has seen no row.
    pub fn new(sort_specs: &'q Vec<SortSpec>, schema: Schema) -> (r: RowSorter<'q>)
        ensures
            r.collecting(),
            r.cs() == sort_specs.deep_view(),
            r.schema.deep_view() == schema.deep_view(),
            r.buf@.len() == 0,
            r.run_rows@.len() == 0,
            r.runs@.len() == 0,
            r.output is Pending,
            forall|d: DiskModel| #[trigger] r.runs_placed(d),
            forall|disk: &DiskManager, rows: Seq<RowModel>| #[trigger]
                r.requests_left(disk, rows) == sort_requests(
                    sort_specs.deep_view(),
                    schema.deep_view(),
                    disk@.block_size,
                    Seq::empty(),
                    Seq::empty(),
                    rows,
                    disk@.next as nat,
                ),
            forall|block_size: nat, rows: Seq<RowModel>| #[trigger]
                r.outcome(block_size, rows) == sort_result(
                    sort_specs.deep_view(),
                    schema.deep_view(),
                    block_size,
                    rows,
                ),
    {
        let r = RowSorter {
            sort_specs,
            schema,
            runs: Vec::new(),
            run_rows: Ghost(Seq::empty()),
            buf: Vec::new(),
            buf_bytes: 0,
            output: SortOutput::Pending,
        };
        proof {
            assert(r.buf.deep_view() =~= Seq::<RowModel>::empty());
            assert(r.runs@ =~= Seq::<RunMeta>::empty());
        }
        r
    }

    /// The rows in memory weigh less than a run may.
    pub proof fn lemma_held(&self)
        requires
            self.collecting(),
        ensures
            run_estimate(self.buf.deep_view()) < RUN_BUDGET_BYTES,
    {
    }

    pub proof fn lemma_runs_grow(&self, d: DiskModel, d2: DiskModel)
        requires
            self.runs_placed(d),
            grows(d, d2),
        ensures
            self.runs_placed(d2),
    {
        assert forall|k: int| 0 <= k < self.runs@.len() implies {
            let run = #[trigger] self.runs@[k];
            &&& run.start_block + run.num_blocks <= d2.next
            &&& region_rows(
                d2.blocks,
                self.schema.deep_view(),
                run.start_block as int,
                run.num_blocks as nat,
            ) == Some(self.run_rows@[k])
        } by {
            let run = self.runs@[k];
            lemma_region_same(
                d.blocks,
                d2.blocks,
                self.schema.deep_view(),
                run.start_block as int,
                run.num_blocks as nat,
            );
        }
    }

    pub proof fn lemma_output_grows(&self, d: DiskModel, d2: DiskModel)
        requires
            self.output_wf(),
            self.output_placed(d),
            grows(d, d2),
        ensures
            self.output_placed(d2),
            self.output_rows(d2) == self.output_rows(d),
            self.output_work(d2) == self.output_work(d),
    {
        if let SortOutput::External(merge) = &self.output {
            merge.lemma_grows(self.cs(), d, d2);
        }
    }

    /// Writes the rows gathered so far as a run.
    fn close_run(&mut self, disk: &mut DiskManager) -> (ok: bool)
        requires
            old(disk).wf(),
            old(disk).idle(),
            old(self).output is Pending,
            old(self).buf@.len() > 0,
            old(self).runs@.len() == old(self).run_rows@.len(),
            forall|k: int|
                0 <= k < old(self).runs@.len() ==> {
                    let run = #[trigger] old(self).runs@[k];
                    run.start_block + run.num_blocks <= u64::MAX
                },
            all_conform(old(self).buf.deep_view(), old(self).schema.deep_view()),
        ensures
            final(disk).wf(),
            final(disk).idle(),
            final(disk).follows(old(disk)),
            grows(old(disk)@, final(disk)@),
            final(self).sort_specs == old(self).sort_specs,
            final(self).schema == old(self).schema,
            final(self).collecting(),
            final(self).buf@.len() == 0,
            ({
                let run = sorted_run(
                    old(self).cs(),
                    old(self).schema.deep_view(),
                    old(disk)@.block_size,
                    old(self).buf.deep_view(),
                );
                if ok {
                    &&& run is Some
                    &&& final(self).run_rows@ == old(self).run_rows@.push(run->0)
                    &&& final(self).runs@ == old(self).runs@.push(final(self).runs@.last())
                    &&& final(self).runs@.last().start_block == old(disk)@.next
                    &&& final(self).runs@.last().num_blocks == spread(
                        run->0,
                        old(disk)@.block_size,
                    ).len()
                    &&& final(disk)@.next == old(disk)@.next + spread(
                        run->0,
                        old(disk)@.block_size,
                    ).len()
                    &&& final(disk).world@.requests == old(disk).world@.requests.push(
                        (Request::Write {
                            start: old(disk)@.next as nat,
                            data: image(
                                spread(run->0, old(disk)@.block_size),
                                old(disk)@.block_size,
                            ),
                        }),
                    )
                    &&& final(self).runs_work() <= old(self).runs_work() + 2 * old(self).buf@.len()
                    &&& final(disk)@.healthy && old(self).runs_placed(old(disk)@)
                        ==> final(self).runs_placed(final(disk)@)
                } else {
                    run is None || !final(disk)@.healthy
                }
            }),
    {
        let ghost before = *self;
        let ghost d = disk@;
        let flushed = flush_run(&self.buf, self.sort_specs, &self.schema, disk);
        self.buf = Vec::new();
        self.buf_bytes = 0;
        proof {
            assert(self.buf.deep_view() =~= Seq::<RowModel>::empty());
        }
        match flushed {
            Some(meta) => {
                let ghost run = sorted_run(
                    before.cs(),
                    before.schema.deep_view(),
                    d.block_size,
                    before.buf.deep_view(),
                )->0;
                self.runs.push(meta);
                self.run_rows = Ghost(self.run_rows@.push(run));
                proof {
                    let works = read_works(before.runs@, before.run_rows@);
                    lemma_sum_push(works, run.len() + meta.num_blocks as nat);
                    assert(read_works(self.runs@, self.run_rows@) =~= works.push(
                        run.len() + meta.num_blocks as nat,
                    ));
                    if before.runs_placed(d) {
                        before.lemma_runs_grow(d, disk@);
                        assert forall|k: int| 0 <= k < self.runs@.len() implies {
                            let r = #[trigger] self.runs@[k];
                            &&& r.start_block + r.num_blocks <= disk@.next
                            &&& region_rows(
                                disk@.blocks,
                                self.schema.deep_view(),
                                r.start_block as int,
                                r.num_blocks as nat,
                            ) == Some(self.run_rows@[k])
                        } by {
                            if k < before.runs@.len() {
                                assert(self.runs@[k] == before.runs@[k]);
                            }
                        }
                    }
                }
                true
            },
            None => false,
        }
    }

    /// Takes in a row.
    pub fn absorb(&mut self, row: Row, disk: &mut DiskManager) -> (ok: bool)
        requires
            old(disk).wf(),
            old(disk).idle(),
            old(self).collecting(),
            conforms(row.deep_view(), old(self).schema.deep_view()),
        ensures
            final(disk).wf(),
            final(disk).idle(),
            final(disk).follows(old(disk)),
            grows(old(disk)@, final(disk)@),
            final(self).sort_specs == old(self).sort_specs,
            final(self).schema == old(self).schema,
            final(self).collecting(),
            !fills_run(old(self).buf.deep_view().push(row.deep_view())) ==> {
                &&& ok
                &&& *final(disk) == *old(disk)
                &&& final(self).run_rows == old(self).run_rows
                &&& final(self).buf.deep_view() == old(self).buf.deep_view().push(row.deep_view())
            },
            ok ==> final(self).runs_work() + 3 * final(self).buf@.len() <= old(self).runs_work() + 3
                * (old(self).buf@.len() + 1),
            ok && final(disk)@.healthy && old(self).runs_placed(old(disk)@)
                ==> final(self).runs_placed(final(disk)@),
            forall|rest: Seq<RowModel>|
                #![trigger old(self).outcome(old(disk)@.block_size, seq![row.deep_view()] + rest)]
                if ok {
                    &&& final(self).outcome(old(disk)@.block_size, rest) == old(self).outcome(
                        old(disk)@.block_size,
                        seq![row.deep_view()] + rest,
                    )
                    &&& final(self).outcome(old(disk)@.block_size, rest) is Some
                        ==> final(self).traffic(final(disk), rest) == old(self).traffic(
                        old(disk),
                        seq![row.deep_view()] + rest,
                    )
                } else {
                    final(disk)@.healthy ==> old(self).outcome(
                        old(disk)@.block_size,
                        seq![row.deep_view()] + rest,
                    ) is None
                },
    {
        let ghost before = *self;
        let ghost d = disk@;
        let ghost open = self.buf.deep_view();
        let ghost r = row.deep_view();
        let ghost more = open.push(r);
        let bytes = estimate_row_bytes(&row);
        self.buf_bytes = self.buf_bytes.saturating_add(bytes);
        self.buf.push(row);
        proof {
            reveal(sorted_from);
            assert(self.buf.deep_view() =~= more);
            assert(more.drop_last() =~= open);
            assert(all_conform(more, self.schema.deep_view()));
            assert forall|rest: Seq<RowModel>|
                cut_runs(open, #[trigger] (seq![r] + rest)) == if fills_run(more) {
                seq![more] + cut_runs(Seq::empty(), rest)
            } else {
                cut_runs(more, rest)
            } && open + (seq![r] + rest) == more + rest by {
                let all = seq![r] + rest;
                assert(all.drop_first() =~= rest);
                assert(all[0] == r);
                assert(open + all =~= more + rest);
            }
        }
        if self.buf_bytes < RUN_BUDGET_BYTES {
            return true;
        }
        let ghost s = self.schema.deep_view();
        let ghost cs = self.cs();
        let ghost bs = d.block_size;
        let ok = self.close_run(disk);
        proof {
            let none = Seq::<RowModel>::empty();
            assert(self.buf.deep_view() =~= none);
            assert forall|rest: Seq<RowModel>|
                #![trigger before.outcome(d.block_size, seq![r] + rest)]
                if ok {
                    &&& self.outcome(d.block_size, rest) == before.outcome(
                        d.block_size,
                        seq![r] + rest,
                    )
                    &&& self.outcome(d.block_size, rest) is Some ==> self.traffic(disk, rest)
                        == before.traffic(old(disk), seq![r] + rest)
                } else {
                    disk@.healthy ==> before.outcome(d.block_size, seq![r] + rest) is None
                } by {
                let after = cut_runs(none, rest);
                let all = seq![more] + after;
                assert(cut_runs(open, seq![r] + rest) == all);
                assert(all[0] == more);
                assert(all.drop_first() =~= after);
                if ok {
                    if let Some(runs) = sorted_runs(cs, s, d.block_size, after) {
                        let run = sorted_run(cs, s, d.block_size, more)->0;
                        assert(before.run_rows@ + (seq![run] + runs) =~= self.run_rows@ + runs);
                        lemma_run_written(
                            before.runs@,
                            self.runs@.last(),
                            run,
                            runs,
                            d.next as nat,
                            bs,
                            old(disk).world@.requests,
                        );
                    }
                }
            }
        }
        ok
    }

    /// Readers of the runs.
    fn open_runs(&self, batch: u64) -> (r: Vec<BlockCursor>)
        requires
            self.collecting(),
            1 <= batch <= MAX_REQUEST,
        ensures
            r@.len() == self.runs@.len(),
            forall|k: int|
                0 <= k < r@.len() ==> {
                    let c = #[trigger] r@[k];
                    &&& c.wf()
                    &&& c.schema.deep_view() == self.schema.deep_view()
                    &&& c.buffer@.len() == 0
                    &&& c.batch == batch
                    &&& c.start == self.runs@[k].start_block
                    &&& c.total == self.runs@[k].num_blocks
                    &&& c.blocks_read == 0
                    &&& forall|d: DiskModel| #[trigger]
                        c.rows(d) == region_rows(
                            d.blocks,
                            self.schema.deep_view(),
                            self.runs@[k].start_block as int,
                            self.runs@[k].num_blocks as nat,
                        )
                },
    {
        let mut readers: Vec<BlockCursor> = Vec::new();
        let mut i: usize = 0;
        while i < self.runs.len()
            invariant
                i <= self.runs.len(),
                self.collecting(),
                1 <= batch <= MAX_REQUEST,
                readers@.len() == i,
                forall|k: int|
                    0 <= k < readers@.len() ==> {
                        let c = #[trigger] readers@[k];
                        &&& c.wf()
                        &&& c.schema.deep_view() == self.schema.deep_view()
                        &&& c.buffer@.len() == 0
                        &&& c.batch == batch
                        &&& c.start == self.runs@[k].start_block
                        &&& c.total == self.runs@[k].num_blocks
                        &&& c.blocks_read == 0
                        &&& forall|d: DiskModel| #[trigger]
                            c.rows(d) == region_rows(
                                d.blocks,
                                self.schema.deep_view(),
                                self.runs@[k].start_block as int,
                                self.runs@[k].num_blocks as nat,
                            )
                    },
            decreases self.runs.len() - i,
        {
            let meta = self.runs[i];
            readers.push(
                BlockCursor::new(
                    clone_schema(&self.schema),
                    meta.start_block,
                    meta.num_blocks,
                    batch,
                ),
            );
            i += 1;
        }
        readers
    }

    /// All rows have come: sorts them in memory, or opens the runs.
    pub fn initialize(&mut self, disk: &mut DiskManager) -> (ok: bool)
        requires
            old(disk).wf(),
            old(disk).idle(),
            old(self).collecting(),
        ensures
            final(disk).wf(),
            final(disk).idle(),
            final(disk).follows(old(disk)),
            grows(old(disk)@, final(disk)@),
            final(self).sort_specs == old(self).sort_specs,
            final(self).schema == old(self).schema,
            !ok ==> final(self).collecting(),
            ok ==> final(self).output_wf(),
            old(self).run_rows@.len() == 0 ==> {
                &&& *final(disk) == *old(disk)
                &&& ok ==> final(self).output is InMemory
            },
            ok && old(self).outcome(old(disk)@.block_size, Seq::empty()) is Some
                ==> final(self).traffic(final(disk), Seq::empty()) == old(self).traffic(
                old(disk),
                Seq::empty(),
            ),
            ok ==> (final(self).output matches SortOutput::External(merge) ==> forall|i: int|
                0 <= i < merge.readers@.len() ==> (#[trigger] merge.readers@[i]).batch
                    == merge_batch(merge.readers@.len() as int, old(disk).block_size as int)),
            final(disk)@.healthy && old(self).runs_placed(old(disk)@) ==> if ok {
                &&& final(self).output_placed(final(disk)@)
                &&& final(self).output_rows(final(disk)@) == old(self).outcome(
                    old(disk)@.block_size,
                    Seq::empty(),
                )
                &&& final(self).output_work(final(disk)@) <= old(self).runs_work() + 3
                    * old(self).buf@.len()
            } else {
                old(self).outcome(old(disk)@.block_size, Seq::empty()) is None
            },
    {
        let ghost before = *self;
        let ghost d = disk@;
        let ghost s = self.schema.deep_view();
        let ghost cs = self.cs();
        let ghost open = self.buf.deep_view();
        let ghost none = Seq::<RowModel>::empty();
        proof {
            reveal(sorted_from);
            assert(open + none =~= open);
        }
        if self.runs.len() == 0 {
            proof {
                assert forall|i: int| 0 <= i < self.buf@.len() implies (
                #[trigger] self.buf@[i])@.len() == self.schema@.len() by {
                    assert(conforms(self.buf.deep_view()[i], s));
                }
            }
            match sort_by_specs(&self.buf, self.sort_specs, &self.schema) {
                Some(rows) => {
                    proof {
                        lemma_sort_permutes(cs, s, open);
                        lemma_permuted_conform(open, rows.deep_view(), s);
                        assert(rows.deep_view().skip(0) =~= rows.deep_view());
                    }
                    self.buf = Vec::new();
                    self.buf_bytes = 0;
                    self.output = SortOutput::InMemory { rows, idx: 0 };
                    return true;
                },
                None => return false,
            }
        }
        if self.buf.len() > 0 {
            proof {
                let one = seq![open];
                assert(one.drop_first() =~= Seq::<Seq<RowModel>>::empty());
                assert(sorted_runs(cs, s, d.block_size, one.drop_first()) == Some(
                    Seq::<Seq<RowModel>>::empty(),
                ));
                if let Some(run) = sorted_run(cs, s, d.block_size, open) {
                    assert(sorted_runs(cs, s, d.block_size, one)->0 =~= seq![run]);
                    assert(before.run_rows@ + seq![run] =~= before.run_rows@.push(run));
                }
            }
            if !self.close_run(disk) {
                return false;
            }
            proof {
                let run = sorted_run(cs, s, d.block_size, open)->0;
                let runs = Seq::<Seq<RowModel>>::empty();
                assert(seq![run] + runs =~= seq![run]);
                lemma_run_written(
                    before.runs@,
                    self.runs@.last(),
                    run,
                    runs,
                    d.next as nat,
                    d.block_size,
                    old(disk).world@.requests,
                );
            }
        } else {
            proof {
                assert(before.run_rows@ + Seq::<Seq<RowModel>>::empty() =~= before.run_rows@);
            }
        }
        if !knows_all(self.sort_specs, &self.schema) {
            return false;
        }
        let ghost middle = *self;
        let block_size = disk.block_size();
        if block_size < 2 {
            return false;
        }
        let batch_blocks = merge_batch_blocks(self.runs.len() as u64, block_size);
        let readers = self.open_runs(batch_blocks);
        let schema = clone_schema(&self.schema);
        let merge = ExternalMerge::new(readers, schema, Ghost(self.cs()));
        proof {
            if disk@.healthy && before.runs_placed(d) {
                assert(middle.runs_placed(disk@));
                assert forall|k: int| 0 <= k < merge.readers@.len() implies {
                    let c = #[trigger] merge.readers@[k];
                    &&& c.placed(disk@)
                    &&& c.rows(disk@) == Some(middle.run_rows@[k])
                } by {
                    let run = middle.runs@[k];
                }
                assert(merge.runs(disk@) =~= middle.run_rows@);
                assert(merge.works(disk@) =~= read_works(middle.runs@, middle.run_rows@));
                assert(merge.all_had(disk@));
            }
        }
        self.output = SortOutput::External(merge);
        proof {
            lemma_readers_of_runs(merge.readers@, middle.runs@, batch_blocks);
            let left = runs_reads(middle.runs@, batch_blocks as nat);
            assert(left.add(Multiset::empty()) =~= left);
            if before.outcome(d.block_size, none) is Some {
                assert(self.traffic(disk, none) =~= before.traffic(old(disk), none));
            }
        }
        true
    }

    /// Makes one step when all rows have come.
    pub fn next_sorted(&mut self, disk: &mut DiskManager) -> (s: Step)
        requires
            old(self).output_wf(),
            old(disk).wf(),
            disk_ready(old(disk), old(self).output_want()),
        ensures
            final(self).output_wf(),
            final(self).sort_specs == old(self).sort_specs,
            final(self).schema == old(self).schema,
            final(disk).wf(),
            final(disk).follows(old(disk)),
            final(disk)@ == old(disk)@,
            reads_at_most(old(disk), final(disk)),
            !(s is Failed) ==> disk_ready(final(disk), final(self).output_want()),
            s is Row || s is Done ==> final(disk).idle(),
            s matches Step::Row(r) ==> conforms(r.deep_view(), old(self).schema.deep_view()),
            old(self).output is InMemory ==> final(self).output is InMemory && *final(disk)
                == *old(disk),
            !(s is Failed) ==> final(self).traffic(final(disk), Seq::empty()) == old(self).traffic(
                old(disk),
                Seq::empty(),
            ),
            s is Done ==> final(self).requests_left(final(disk), Seq::empty()) == Multiset::<
                Request,
            >::empty(),
            final(disk)@.healthy && old(self).output_placed(old(disk)@) ==> {
                &&& final(self).output_placed(final(disk)@)
                &&& step_follows(
                    old(self).output_rows(old(disk)@),
                    final(self).output_rows(final(disk)@),
                    s,
                )
                &&& old(self).output_rows(old(disk)@) is Some && !(s is Done) ==> step_advances(
                    old(self).output_work(old(disk)@),
                    final(self).output_work(final(disk)@),
                    old(disk),
                    final(disk),
                )
            },
    {
        let ghost before = *self;
        match &mut self.output {
            SortOutput::InMemory { rows, idx } => {
                if *idx < rows.len() {
                    let row = clone_row(&rows[*idx]);
                    *idx = *idx + 1;
                    proof {
                        let all = before.output->rows.deep_view();
                        let i = before.output->idx as int;
                        assert(all.skip(i).drop_first() =~= all.skip(i + 1));
                        assert(conforms(all[i], before.schema.deep_view()));
                    }
                    Step::Row(row)
                } else {
                    proof {
                        let all = before.output->rows.deep_view();
                        assert(all.skip(all.len() as int) =~= Seq::<RowModel>::empty());
                    }
                    Step::Done
                }
            },
            SortOutput::External(merge) => merge.next_row(self.sort_specs, disk),
            SortOutput::Pending => Step::Failed,
        }
    }
}

} // verus!
