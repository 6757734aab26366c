//! What sorting asks of the disk.

use vstd::multiset::Multiset;
use vstd::prelude::*;
use vstd::seq_lib::lemma_multiset_commutative;

use crate::block::{image, spread};
use crate::disk::Request;
use crate::executor::cursor::{lemma_plan_len, read_plan, BlockCursor};
use crate::executor::sorter::{cut_runs, merge_batch, none_filled, sorted_runs, RunMeta};
use crate::query::SortColumn;
use crate::row::{RowModel, SchemaModel};

verus! {

/// The reads of a region of `total` blocks, from block `from` of it on.
pub open spec fn region_reads(start: nat, total: nat, from: nat, batch: nat) -> Multiset<Request> {
    read_plan(start, total, from, batch).to_multiset()
}

/// The reads that a reader is still to ask for.
pub open spec fn reader_reads(r: BlockCursor) -> Multiset<Request> {
    region_reads(r.start as nat, r.total as nat, r.blocks_read as nat, r.batch as nat)
}

/// The reads that some readers are still to ask for.
pub open spec fn readers_reads(readers: Seq<BlockCursor>) -> Multiset<Request>
    decreases readers.len(),
{
    if readers.len() == 0 {
        Multiset::empty()
    } else {
        readers_reads(readers.drop_last()).add(reader_reads(readers.last()))
    }
}

/// The reads of some runs on the disk.
pub open spec fn runs_reads(runs: Seq<RunMeta>, batch: nat) -> Multiset<Request>
    decreases runs.len(),
{
    if runs.len() == 0 {
        Multiset::empty()
    } else {
        let run = runs.last();
        runs_reads(runs.drop_last(), batch).add(
            region_reads(run.start_block as nat, run.num_blocks as nat, 0, batch),
        )
    }
}

/// The requests for runs that are still to be written, from block `next` on: each is
/// written at once, behind the one before it, and read back, `batch` blocks at a time.
pub open spec fn runs_requests(
    runs: Seq<Seq<RowModel>>,
    next: nat,
    block_size: nat,
    batch: nat,
) -> Multiset<Request>
    decreases runs.len(),
{
    if runs.len() == 0 {
        Multiset::empty()
    } else {
        let groups = spread(runs[0], block_size);
        runs_requests(runs.drop_first(), next + groups.len(), block_size, batch).add(
            region_reads(next, groups.len(), 0, batch),
        ).insert(Request::Write { start: next, data: image(groups, block_size) })
    }
}

/// The requests for sorting when the given runs are on disk, the rows in `open` have come
/// since, and those in `rest` are to follow: none where all rows stay in memory.
pub open spec fn sort_requests(
    cs: Seq<SortColumn>,
    schema: SchemaModel,
    block_size: nat,
    runs: Seq<RunMeta>,
    open: Seq<RowModel>,
    rest: Seq<RowModel>,
    next: nat,
) -> Multiset<Request> {
    let more = cut_runs(open, rest);
    if runs.len() == 0 && none_filled(more) {
        Multiset::empty()
    } else {
        match sorted_runs(cs, schema, block_size, more) {
            Some(sorted) => {
                let batch = merge_batch((runs.len() + sorted.len()) as int, block_size as int);
                runs_reads(runs, batch as nat).add(
                    runs_requests(sorted, next, block_size, batch as nat),
                )
            },
            None => Multiset::empty(),
        }
    }
}

/// The first of the reads of a region, and the others.
pub proof fn lemma_first_read(start: nat, total: nat, from: nat, batch: nat)
    requires
        from < total,
        batch > 0,
    ensures
        ({
            let count = if total - from < batch {
                (total - from) as nat
            } else {
                batch
            };
            region_reads(start, total, from, batch) == region_reads(
                start,
                total,
                from + count,
                batch,
            ).insert(Request::Read { start: start + from, count })
        }),
{
    broadcast use vstd::seq_lib::group_to_multiset_ensures;

    let count = if total - from < batch {
        (total - from) as nat
    } else {
        batch
    };
    let first = Request::Read { start: start + from, count };
    let rest = read_plan(start, total, from + count, batch);
    lemma_multiset_commutative(seq![first], rest);
    assert(seq![first] =~= Seq::<Request>::empty().push(first));
    assert(Seq::<Request>::empty().to_multiset() =~= Multiset::empty());
    assert(region_reads(start, total, from, batch) =~= rest.to_multiset().insert(first));
}

/// A region that has been read to its end takes no more reads.
pub proof fn lemma_no_reads(start: nat, total: nat, batch: nat)
    ensures
        region_reads(start, total, total, batch) == Multiset::<Request>::empty(),
{
    broadcast use vstd::seq_lib::group_to_multiset_ensures;

    assert(region_reads(start, total, total, batch) =~= Multiset::empty());
}

/// One reader moves on, and the others stay.
pub proof fn lemma_reader_moves(readers: Seq<BlockCursor>, i: int, r: BlockCursor)
    requires
        0 <= i < readers.len(),
    ensures
        forall|q: Request| #[trigger]
            readers_reads(readers.update(i, r)).count(q) + reader_reads(readers[i]).count(q)
                == readers_reads(readers).count(q) + reader_reads(r).count(q),
    decreases readers.len(),
{
    let moved = readers.update(i, r);
    if i == readers.len() - 1 {
        assert(moved.drop_last() =~= readers.drop_last());
    } else {
        lemma_reader_moves(readers.drop_last(), i, r);
        assert(moved.drop_last() =~= readers.drop_last().update(i, r));
        assert(moved.last() == readers.last());
        assert(readers.drop_last()[i] == readers[i]);
        assert forall|q: Request| #[trigger]
            readers_reads(moved).count(q) + reader_reads(readers[i]).count(q)
                == readers_reads(readers).count(q) + reader_reads(r).count(q) by {
            assert(readers_reads(moved.drop_last()).count(q) + reader_reads(readers[i]).count(q)
                == readers_reads(readers.drop_last()).count(q) + reader_reads(r).count(q));
        }
    }
}

/// What a hungry reader asks for next is among the reads of the readers.
pub proof fn lemma_reader_asks(readers: Seq<BlockCursor>, i: int)
    requires
        0 <= i < readers.len(),
        readers[i].wf(),
        readers[i].hungry(),
    ensures
        readers_reads(readers).count(
            Request::Read {
                start: (readers[i].start + readers[i].blocks_read) as nat,
                count: readers[i].bite() as nat,
            },
        ) > 0,
    decreases readers.len(),
{
    if i == readers.len() - 1 {
        let r = readers[i];
        lemma_first_read(r.start as nat, r.total as nat, r.blocks_read as nat, r.batch as nat);
    } else {
        lemma_reader_asks(readers.drop_last(), i);
    }
}

/// Readers that have read all have nothing to read.
pub proof fn lemma_readers_done(readers: Seq<BlockCursor>)
    requires
        forall|i: int| 0 <= i < readers.len() ==> {
            let r = #[trigger] readers[i];
            r.blocks_read == r.total
        },
    ensures
        readers_reads(readers) == Multiset::<Request>::empty(),
    decreases readers.len(),
{
    if readers.len() > 0 {
        let front = readers.drop_last();
        assert forall|i: int| 0 <= i < front.len() implies {
            let r = #[trigger] front[i];
            r.blocks_read == r.total
        } by {
            assert(front[i] == readers[i]);
        }
        lemma_readers_done(front);
        let r = readers[readers.len() - 1];
        lemma_no_reads(r.start as nat, r.total as nat, r.batch as nat);
        assert(readers_reads(readers) =~= Multiset::empty());
    }
}

/// Fresh readers of runs read what there is to read of the runs.
pub proof fn lemma_readers_of_runs(readers: Seq<BlockCursor>, runs: Seq<RunMeta>, batch: u64)
    requires
        readers.len() == runs.len(),
        forall|i: int| 0 <= i < readers.len() ==> {
            let r = #[trigger] readers[i];
            &&& r.start == runs[i].start_block
            &&& r.total == runs[i].num_blocks
            &&& r.blocks_read == 0
            &&& r.batch == batch
        },
    ensures
        readers_reads(readers) == runs_reads(runs, batch as nat),
    decreases readers.len(),
{
    if readers.len() > 0 {
        let (a, b) = (readers.drop_last(), runs.drop_last());
        assert forall|i: int| 0 <= i < a.len() implies {
            let r = #[trigger] a[i];
            &&& r.start == b[i].start_block
            &&& r.total == b[i].num_blocks
            &&& r.blocks_read == 0
            &&& r.batch == batch
        } by {
            assert(a[i] == readers[i]);
        }
        lemma_readers_of_runs(a, b, batch);
        assert(readers[readers.len() - 1].batch == batch);
    }
}

/// How many requests there are for runs does not depend on where they are written.
proof fn lemma_runs_requests_len(
    runs: Seq<Seq<RowModel>>,
    a: nat,
    b: nat,
    block_size: nat,
    batch: nat,
)
    ensures
        runs_requests(runs, a, block_size, batch).len() == runs_requests(
            runs,
            b,
            block_size,
            batch,
        ).len(),
    decreases runs.len(),
{
    broadcast use vstd::seq_lib::group_to_multiset_ensures;

    if runs.len() > 0 {
        let n = spread(runs[0], block_size).len();
        lemma_runs_requests_len(runs.drop_first(), a + n, b + n, block_size, batch);
        lemma_plan_len(a, b, n, 0, batch);
        assert(region_reads(a, n, 0, batch).len() == region_reads(b, n, 0, batch).len());
    }
}

/// How many requests there are for sorting does not depend on where runs are written.
pub proof fn lemma_sort_requests_len(
    cs: Seq<SortColumn>,
    schema: SchemaModel,
    block_size: nat,
    runs: Seq<RunMeta>,
    open: Seq<RowModel>,
    rest: Seq<RowModel>,
    next: nat,
)
    ensures
        sort_requests(cs, schema, block_size, runs, open, rest, next).len() == sort_requests(
            cs,
            schema,
            block_size,
            runs,
            open,
            rest,
            0,
        ).len(),
{
    if let Some(sorted) = sorted_runs(cs, schema, block_size, cut_runs(open, rest)) {
        let batch = merge_batch((runs.len() + sorted.len()) as int, block_size as int) as nat;
        lemma_runs_requests_len(sorted, next, 0, block_size, batch);
    }
}

} // verus!
