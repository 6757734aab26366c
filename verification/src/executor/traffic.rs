//! What a cross product asks of the disk.

use vstd::prelude::*;

use crate::block::{all_fit, image, lemma_spread, lemma_spread_push, spread};
use crate::disk::Request;
use crate::executor::cursor::{lemma_plan_len, lemma_read_plan, read_plan};
use crate::executor::spill::{fits_cache, BATCH_BLOCKS};
use crate::row::{row_bytes, RowModel};

verus! {

/// The writes of the blocks from `from` on, 64 at a time, to the region that starts at
/// `start`.
pub open spec fn spill_writes(
    groups: Seq<Seq<RowModel>>,
    start: nat,
    from: nat,
    block_size: nat,
) -> Seq<Request>
    decreases groups.len() - from,
{
    if groups.len() <= from + BATCH_BLOCKS {
        seq![
            Request::Write {
                start: start + from,
                data: image(groups.skip(from as int), block_size),
            },
        ]
    } else {
        let next = from + BATCH_BLOCKS as nat;
        seq![
            Request::Write {
                start: start + from,
                data: image(groups.subrange(from as int, next as int), block_size),
            },
        ] + spill_writes(groups, start, next, block_size)
    }
}

/// Some requests, several times over.
pub open spec fn repeated(requests: Seq<Request>, times: nat) -> Seq<Request>
    decreases times,
{
    if times == 0 {
        Seq::empty()
    } else {
        requests + repeated(requests, (times - 1) as nat)
    }
}

pub proof fn lemma_repeated_none(times: nat)
    ensures
        repeated(Seq::empty(), times) == Seq::<Request>::empty(),
    decreases times,
{
    if times > 0 {
        lemma_repeated_none((times - 1) as nat);
        assert(Seq::<Request>::empty() + Seq::<Request>::empty() =~= Seq::<Request>::empty());
    }
}

/// The reads of a right side of `count` blocks for some left rows. Where the rows are kept
/// in memory, each block is read once, 64 at a time. Else the first block is read once when
/// the side is complete, and then all of them, one by one, for each left row.
pub open spec fn side_reads(
    start: nat,
    count: nat,
    block_size: nat,
    left_rows: nat,
) -> Seq<Request> {
    if fits_cache(count, block_size) {
        read_plan(start, count, 0, BATCH_BLOCKS as nat)
    } else {
        seq![Request::Read { start, count: 1 }] + repeated(
            read_plan(start, count, 0, 1),
            left_rows,
        )
    }
}

/// The requests of a cross product of some right rows with a number of left rows, where the
/// right rows are written from block `start` on.
pub open spec fn cross_requests(
    right_rows: Seq<RowModel>,
    left_rows: nat,
    start: nat,
    block_size: nat,
) -> Seq<Request> {
    let groups = spread(right_rows, block_size);
    spill_writes(groups, start, 0, block_size) + side_reads(
        start,
        groups.len(),
        block_size,
        left_rows,
    )
}

/// More rows change no block but the last.
pub proof fn lemma_spread_prefix(a: Seq<RowModel>, b: Seq<RowModel>, block_size: nat)
    requires
        block_size >= 2,
        all_fit(a + b, block_size),
    ensures
        spread(a, block_size).len() >= 1,
        spread(a + b, block_size).len() >= spread(a, block_size).len(),
        forall|i: int|
            0 <= i < spread(a, block_size).len() - 1 ==> #[trigger] spread(a + b, block_size)[i]
                == spread(a, block_size)[i],
    decreases b.len(),
{
    assert forall|i: int| 0 <= i < a.len() implies row_bytes(#[trigger] a[i]).len() <= block_size
        - 2 by {
        assert((a + b)[i] == a[i]);
    }
    lemma_spread(a, block_size);
    if b.len() == 0 {
        assert(a + b =~= a);
    } else {
        let front = a + b.drop_last();
        assert((a + b).drop_last() =~= front);
        assert(a + b =~= front.push(b.last()));
        assert forall|i: int| 0 <= i < front.len() implies row_bytes(#[trigger] front[i]).len()
            <= block_size - 2 by {
            assert((a + b)[i] == front[i]);
        }
        lemma_spread_prefix(a, b.drop_last(), block_size);
        lemma_spread_push(front, b.last(), block_size);
        assert forall|i: int| 0 <= i < spread(a, block_size).len() - 1 implies #[trigger] spread(
            a + b,
            block_size,
        )[i] == spread(a, block_size)[i] by {
            assert(spread(front, block_size)[i] == spread(a, block_size)[i]);
        }
    }
}

/// A write of 64 blocks that are complete is the next of the writes that are to come.
pub proof fn lemma_next_write(
    rows: Seq<RowModel>,
    more: Seq<RowModel>,
    start: nat,
    from: nat,
    block_size: nat,
)
    requires
        block_size >= 2,
        all_fit(rows + more, block_size),
        spread(rows, block_size).len() > from + BATCH_BLOCKS,
    ensures
        spill_writes(spread(rows + more, block_size), start, from, block_size) == seq![
            Request::Write {
                start: start + from,
                data: image(
                    spread(rows, block_size).subrange(from as int, from + BATCH_BLOCKS),
                    block_size,
                ),
            },
        ] + spill_writes(
            spread(rows + more, block_size),
            start,
            from + BATCH_BLOCKS as nat,
            block_size,
        ),
{
    lemma_spread_prefix(rows, more, block_size);
    let (g, h) = (spread(rows, block_size), spread(rows + more, block_size));
    assert(h.subrange(from as int, from + BATCH_BLOCKS) =~= g.subrange(
        from as int,
        from + BATCH_BLOCKS,
    ));
}

// ── How many requests ────────────────────────────────────────────────────────

pub proof fn lemma_writes_len(
    groups: Seq<Seq<RowModel>>,
    a: nat,
    b: nat,
    from: nat,
    block_size: nat,
)
    ensures
        spill_writes(groups, a, from, block_size).len() == spill_writes(
            groups,
            b,
            from,
            block_size,
        ).len(),
    decreases groups.len() - from,
{
    if groups.len() > from + BATCH_BLOCKS {
        lemma_writes_len(groups, a, b, from + BATCH_BLOCKS as nat, block_size);
    }
}

proof fn lemma_repeated_len(a: Seq<Request>, b: Seq<Request>, times: nat)
    requires
        a.len() == b.len(),
    ensures
        repeated(a, times).len() == repeated(b, times).len(),
    decreases times,
{
    if times > 0 {
        lemma_repeated_len(a, b, (times - 1) as nat);
    }
}

pub proof fn lemma_side_reads_len(a: nat, b: nat, count: nat, block_size: nat, left_rows: nat)
    ensures
        side_reads(a, count, block_size, left_rows).len() == side_reads(
            b,
            count,
            block_size,
            left_rows,
        ).len(),
{
    lemma_plan_len(a, b, count, 0, BATCH_BLOCKS as nat);
    lemma_plan_len(a, b, count, 0, 1);
    lemma_repeated_len(read_plan(a, count, 0, 1), read_plan(b, count, 0, 1), left_rows);
}

// ── The laws ─────────────────────────────────────────────────────────────────

proof fn lemma_image_concat(a: Seq<Seq<RowModel>>, b: Seq<Seq<RowModel>>, block_size: nat)
    ensures
        image(a + b, block_size) == image(a, block_size) + image(b, block_size),
    decreases b.len(),
{
    if b.len() == 0 {
        assert(a + b =~= a);
        assert(image(a, block_size) + image(b, block_size) =~= image(a, block_size));
    } else {
        lemma_image_concat(a, b.drop_last(), block_size);
        assert((a + b).drop_last() =~= a + b.drop_last());
        assert(image(a + b, block_size) =~= image(a, block_size) + image(b, block_size));
    }
}

/// The data of some writes, one after the other.
pub open spec fn written_data(requests: Seq<Request>) -> Seq<u8>
    decreases requests.len(),
{
    if requests.len() == 0 {
        Seq::empty()
    } else {
        match requests[0] {
            Request::Write { start, data } => data + written_data(requests.drop_first()),
            _ => written_data(requests.drop_first()),
        }
    }
}

/// The writes of a right side carry its blocks in their order, 64 in every write but the
/// last, and 1 to 64 in the last. There is at least one write. Each goes to the block behind
/// those of the writes before it.
pub proof fn lemma_spill_writes(
    groups: Seq<Seq<RowModel>>,
    start: nat,
    from: nat,
    block_size: nat,
)
    requires
        from < groups.len(),
    ensures
        ({
            let writes = spill_writes(groups, start, from, block_size);
            &&& writes.len() == (groups.len() - from + 63) / 64
            &&& writes.len() >= 1
            &&& written_data(writes) == image(groups.skip(from as int), block_size)
            &&& forall|k: int|
                0 <= k < writes.len() ==> {
                    let first = from + 64 * k;
                    let end = if first + 64 < groups.len() {
                        first + 64
                    } else {
                        groups.len() as int
                    };
                    &&& #[trigger] writes[k] == (Request::Write {
                        start: (start + first) as nat,
                        data: image(groups.subrange(first, end), block_size),
                    })
                    &&& 1 <= end - first <= 64
                    &&& k < writes.len() - 1 ==> end - first == 64
                }
        }),
    decreases groups.len() - from,
{
    let writes = spill_writes(groups, start, from, block_size);
    if groups.len() <= from + BATCH_BLOCKS {
        assert(writes.drop_first() =~= Seq::<Request>::empty());
        assert(written_data(writes.drop_first()) == Seq::<u8>::empty());
        let data = image(groups.skip(from as int), block_size);
        assert(data + Seq::<u8>::empty() =~= data);
        assert(groups.subrange(from as int, groups.len() as int) =~= groups.skip(from as int));
    } else {
        let next = from + BATCH_BLOCKS as nat;
        let rest = spill_writes(groups, start, next, block_size);
        lemma_spill_writes(groups, start, next, block_size);
        assert(writes.drop_first() =~= rest);
        let head = groups.subrange(from as int, next as int);
        lemma_image_concat(head, groups.skip(next as int), block_size);
        assert(groups.skip(from as int) =~= head + groups.skip(next as int));
        assert forall|k: int| 0 <= k < writes.len() implies {
            let first = from + 64 * k;
            let end = if first + 64 < groups.len() {
                first + 64
            } else {
                groups.len() as int
            };
            &&& #[trigger] writes[k] == (Request::Write {
                start: (start + first) as nat,
                data: image(groups.subrange(first, end), block_size),
            })
            &&& 1 <= end - first <= 64
            &&& k < writes.len() - 1 ==> end - first == 64
        } by {
            if k > 0 {
                assert(writes[k] == rest[k - 1]);
            }
        }
    }
}

/// A right side that is kept in memory is read with a request for every 64 blocks and one
/// for the rest, whatever the number of left rows.
pub proof fn lemma_cached_reads(start: nat, count: nat, block_size: nat, left_rows: nat)
    requires
        fits_cache(count, block_size),
    ensures
        side_reads(start, count, block_size, left_rows).len() == (count + 63) / 64,
        forall|k: int|
            0 <= k < side_reads(start, count, block_size, left_rows).len() ==> {
                &&& #[trigger] side_reads(start, count, block_size, left_rows)[k] is Read
                &&& side_reads(start, count, block_size, left_rows)[k]->count <= 64
            },
{
    lemma_read_plan(start, count, 0);
}

} // verus!
