//! What a hash join asks of the disk.

use vstd::prelude::*;

use crate::block::{image, spread};
use crate::disk::Request;
use crate::executor::cursor::{lemma_plan_len, read_plan};
use crate::executor::joincore::INMEM_BUILD_BUDGET;
use crate::executor::partition::{rows_weight, FLUSH_THRESHOLD, NUM_PARTITIONS, READ_BATCH};
use crate::key::{key_of, partition_of};
use crate::row::RowModel;

verus! {

/// A partition: the rows in memory, and for each segment on disk its first block and the
/// number of its blocks.
pub struct PartModel {
    pub buf: Seq<RowModel>,
    pub segments: Seq<(nat, nat)>,
}

/// Rows being divided: the partitions, the requests that have been made, and the first
/// unused block.
pub struct Dividing {
    pub parts: Seq<PartModel>,
    pub requests: Seq<Request>,
    pub next: nat,
}

/// Partitions without rows.
pub open spec fn no_parts() -> Seq<PartModel> {
    Seq::new(
        NUM_PARTITIONS as nat,
        |p: int| PartModel { buf: Seq::empty(), segments: Seq::empty() },
    )
}

/// The rows of a partition that are in memory, if any, go to disk: they are written at once
/// to the first unused blocks.
pub open spec fn flush_part(st: Dividing, p: int, block_size: nat) -> Dividing {
    let part = st.parts[p];
    if part.buf.len() == 0 {
        st
    } else {
        let groups = spread(part.buf, block_size);
        Dividing {
            parts: st.parts.update(
                p,
                PartModel {
                    buf: Seq::empty(),
                    segments: part.segments.push((st.next, groups.len())),
                },
            ),
            requests: st.requests.push(
                Request::Write { start: st.next, data: image(groups, block_size) },
            ),
            next: st.next + groups.len(),
        }
    }
}

/// A row goes to the partition of its key, and the rows of that to disk where they weigh
/// enough.
pub open spec fn give_row(
    st: Dividing,
    indices: Seq<usize>,
    row: RowModel,
    block_size: nat,
) -> Dividing {
    let p = partition_of(key_of(indices, row), NUM_PARTITIONS as nat) as int;
    let part = st.parts[p];
    let buf = part.buf.push(row);
    let more = Dividing { parts: st.parts.update(p, PartModel { buf, ..part }), ..st };
    if rows_weight(buf) < FLUSH_THRESHOLD {
        more
    } else {
        flush_part(more, p, block_size)
    }
}

/// Rows go to their partitions, one after the other.
pub open spec fn give_rows(
    st: Dividing,
    indices: Seq<usize>,
    rows: Seq<RowModel>,
    block_size: nat,
) -> Dividing
    decreases rows.len(),
{
    if rows.len() == 0 {
        st
    } else {
        give_rows(
            give_row(st, indices, rows[0], block_size),
            indices,
            rows.drop_first(),
            block_size,
        )
    }
}

/// The rows that are in memory go to disk, from partition `p` on.
pub open spec fn flush_from(st: Dividing, p: nat, block_size: nat) -> Dividing
    decreases NUM_PARTITIONS - p,
{
    if p >= NUM_PARTITIONS {
        st
    } else {
        flush_from(flush_part(st, p as int, block_size), p + 1, block_size)
    }
}

/// Rows are divided, and all go to disk in the end.
pub open spec fn divided(
    st: Dividing,
    indices: Seq<usize>,
    rows: Seq<RowModel>,
    block_size: nat,
) -> Dividing {
    flush_from(give_rows(st, indices, rows, block_size), 0, block_size)
}

/// The reads of some segments, each `READ_BATCH` blocks at a time.
pub open spec fn segments_reads(segments: Seq<(nat, nat)>) -> Seq<Request>
    decreases segments.len(),
{
    if segments.len() == 0 {
        Seq::empty()
    } else {
        read_plan(segments[0].0, segments[0].1, 0, READ_BATCH as nat) + segments_reads(
            segments.drop_first(),
        )
    }
}

/// The reads of the partitions from `p` on: of each its right rows and then its left rows,
/// once.
pub open spec fn parts_reads(left: Seq<PartModel>, right: Seq<PartModel>, p: nat) -> Seq<Request>
    decreases NUM_PARTITIONS - p,
{
    if p >= NUM_PARTITIONS {
        Seq::empty()
    } else {
        segments_reads(right[p as int].segments) + (segments_reads(left[p as int].segments)
            + parts_reads(left, right, p + 1))
    }
}

/// All requests when the given right rows and then the left rows are divided, and the
/// partitions are read.
pub open spec fn divided_join(
    right: Dividing,
    ri: Seq<usize>,
    right_rows: Seq<RowModel>,
    li: Seq<usize>,
    left_rows: Seq<RowModel>,
    block_size: nat,
) -> Seq<Request> {
    let r = divided(right, ri, right_rows, block_size);
    let l = divided(Dividing { parts: no_parts(), ..r }, li, left_rows, block_size);
    l.requests + parts_reads(l.parts, r.parts, 0)
}

/// All requests at the end of a hash join that starts when `made` have been made: no more
/// where the right rows stay in memory.
pub open spec fn join_requests(
    made: Seq<Request>,
    next: nat,
    li: Seq<usize>,
    ri: Seq<usize>,
    left_rows: Seq<RowModel>,
    right_rows: Seq<RowModel>,
    block_size: nat,
) -> Seq<Request> {
    if rows_weight(right_rows) < INMEM_BUILD_BUDGET {
        made
    } else {
        divided_join(
            Dividing { parts: no_parts(), requests: made, next },
            ri,
            right_rows,
            li,
            left_rows,
            block_size,
        )
    }
}

/// Rows that are given in two parts are given.
pub proof fn lemma_give_more(
    st: Dividing,
    indices: Seq<usize>,
    a: Seq<RowModel>,
    b: Seq<RowModel>,
    block_size: nat,
)
    ensures
        give_rows(st, indices, a + b, block_size) == give_rows(
            give_rows(st, indices, a, block_size),
            indices,
            b,
            block_size,
        ),
    decreases a.len(),
{
    if a.len() == 0 {
        assert(a + b =~= b);
    } else {
        assert((a + b).drop_first() =~= a.drop_first() + b);
        lemma_give_more(
            give_row(st, indices, a[0], block_size),
            indices,
            a.drop_first(),
            b,
            block_size,
        );
    }
}

/// One more row is given last.
pub proof fn lemma_give_one(
    st: Dividing,
    indices: Seq<usize>,
    rows: Seq<RowModel>,
    row: RowModel,
    block_size: nat,
)
    ensures
        give_rows(st, indices, rows.push(row), block_size) == give_row(
            give_rows(st, indices, rows, block_size),
            indices,
            row,
            block_size,
        ),
{
    let one = seq![row];
    let before = give_rows(st, indices, rows, block_size);
    lemma_give_more(st, indices, rows, one, block_size);
    assert(rows + one =~= rows.push(row));
    assert(one.drop_first() =~= Seq::<RowModel>::empty());
    assert(give_rows(
        give_row(before, indices, row, block_size),
        indices,
        one.drop_first(),
        block_size,
    ) == give_row(before, indices, row, block_size));
}

// ── How many requests ────────────────────────────────────────────────────────

/// Two partitions have the same rows in memory, and segments of the same sizes.
pub open spec fn same_sizes(a: PartModel, b: PartModel) -> bool {
    &&& a.buf == b.buf
    &&& a.segments.len() == b.segments.len()
    &&& forall|k: int| 0 <= k < a.segments.len() ==> (#[trigger] a.segments[k]).1 == b.segments[k].1
}

/// Partitions that differ only in where their segments lie.
pub open spec fn same_parts(a: Seq<PartModel>, b: Seq<PartModel>) -> bool {
    &&& a.len() == NUM_PARTITIONS
    &&& b.len() == NUM_PARTITIONS
    &&& forall|p: int| 0 <= p < NUM_PARTITIONS ==> same_sizes(#[trigger] a[p], b[p])
}

/// The second is the first with `more` requests made before, and with blocks elsewhere.
pub open spec fn shifted(a: Dividing, b: Dividing, more: nat) -> bool {
    &&& same_parts(a.parts, b.parts)
    &&& b.requests.len() == a.requests.len() + more
}

proof fn lemma_part_set(a: Dividing, b: Dividing, more: nat, p: int, x: PartModel, y: PartModel)
    requires
        shifted(a, b, more),
        0 <= p < NUM_PARTITIONS,
        same_sizes(x, y),
    ensures
        same_parts(a.parts.update(p, x), b.parts.update(p, y)),
{
    let (c, d) = (a.parts.update(p, x), b.parts.update(p, y));
    assert forall|q: int| 0 <= q < NUM_PARTITIONS implies same_sizes(#[trigger] c[q], d[q]) by {
        assert(same_sizes(a.parts[q], b.parts[q]));
    }
}

proof fn lemma_flush_shifted(a: Dividing, b: Dividing, more: nat, p: int, block_size: nat)
    requires
        shifted(a, b, more),
        0 <= p < NUM_PARTITIONS,
    ensures
        shifted(flush_part(a, p, block_size), flush_part(b, p, block_size), more),
{
    let (x, y) = (a.parts[p], b.parts[p]);
    assert(same_sizes(x, y));
    let n = spread(x.buf, block_size).len();
    let c = PartModel { buf: Seq::empty(), segments: x.segments.push((a.next, n)) };
    let d = PartModel { buf: Seq::empty(), segments: y.segments.push((b.next, n)) };
    assert forall|k: int| 0 <= k < c.segments.len() implies (#[trigger] c.segments[k]).1
        == d.segments[k].1 by {
        if k < x.segments.len() {
            assert(x.segments[k].1 == y.segments[k].1);
        }
    }
    lemma_part_set(a, b, more, p, c, d);
}

proof fn lemma_give_shifted(
    a: Dividing,
    b: Dividing,
    more: nat,
    indices: Seq<usize>,
    rows: Seq<RowModel>,
    block_size: nat,
)
    requires
        shifted(a, b, more),
    ensures
        shifted(
            give_rows(a, indices, rows, block_size),
            give_rows(b, indices, rows, block_size),
            more,
        ),
    decreases rows.len(),
{
    if rows.len() > 0 {
        let row = rows[0];
        let p = partition_of(key_of(indices, row), NUM_PARTITIONS as nat) as int;
        let (x, y) = (a.parts[p], b.parts[p]);
        assert(same_sizes(x, y));
        let buf = x.buf.push(row);
        let (c, d) = (PartModel { buf, ..x }, PartModel { buf, ..y });
        assert(same_sizes(c, d)) by {
            assert forall|k: int| 0 <= k < c.segments.len() implies (#[trigger] c.segments[k]).1
                == d.segments[k].1 by {
                assert(x.segments[k].1 == y.segments[k].1);
            }
        }
        lemma_part_set(a, b, more, p, c, d);
        let c2 = Dividing { parts: a.parts.update(p, c), ..a };
        let d2 = Dividing { parts: b.parts.update(p, d), ..b };
        lemma_flush_shifted(c2, d2, more, p, block_size);
        lemma_give_shifted(
            give_row(a, indices, row, block_size),
            give_row(b, indices, row, block_size),
            more,
            indices,
            rows.drop_first(),
            block_size,
        );
    }
}

proof fn lemma_flush_from_shifted(a: Dividing, b: Dividing, more: nat, p: nat, block_size: nat)
    requires
        shifted(a, b, more),
    ensures
        shifted(flush_from(a, p, block_size), flush_from(b, p, block_size), more),
    decreases NUM_PARTITIONS - p,
{
    if p < NUM_PARTITIONS {
        lemma_flush_shifted(a, b, more, p as int, block_size);
        lemma_flush_from_shifted(
            flush_part(a, p as int, block_size),
            flush_part(b, p as int, block_size),
            more,
            p + 1,
            block_size,
        );
    }
}

proof fn lemma_divided_shifted(
    a: Dividing,
    b: Dividing,
    more: nat,
    indices: Seq<usize>,
    rows: Seq<RowModel>,
    block_size: nat,
)
    requires
        shifted(a, b, more),
    ensures
        shifted(
            divided(a, indices, rows, block_size),
            divided(b, indices, rows, block_size),
            more,
        ),
{
    lemma_give_shifted(a, b, more, indices, rows, block_size);
    lemma_flush_from_shifted(
        give_rows(a, indices, rows, block_size),
        give_rows(b, indices, rows, block_size),
        more,
        0,
        block_size,
    );
}

proof fn lemma_segments_reads_len(a: Seq<(nat, nat)>, b: Seq<(nat, nat)>)
    requires
        a.len() == b.len(),
        forall|k: int| 0 <= k < a.len() ==> (#[trigger] a[k]).1 == b[k].1,
    ensures
        segments_reads(a).len() == segments_reads(b).len(),
    decreases a.len(),
{
    if a.len() > 0 {
        lemma_plan_len(a[0].0, b[0].0, a[0].1, 0, READ_BATCH as nat);
        let (x, y) = (a.drop_first(), b.drop_first());
        assert forall|k: int| 0 <= k < x.len() implies (#[trigger] x[k]).1 == y[k].1 by {
            assert(a[k + 1].1 == b[k + 1].1);
        }
        lemma_segments_reads_len(x, y);
    }
}

proof fn lemma_parts_reads_len(
    left: Seq<PartModel>,
    left2: Seq<PartModel>,
    right: Seq<PartModel>,
    right2: Seq<PartModel>,
    p: nat,
)
    requires
        same_parts(left, left2),
        same_parts(right, right2),
    ensures
        parts_reads(left, right, p).len() == parts_reads(left2, right2, p).len(),
    decreases NUM_PARTITIONS - p,
{
    if p < NUM_PARTITIONS {
        assert(same_sizes(left[p as int], left2[p as int]));
        assert(same_sizes(right[p as int], right2[p as int]));
        lemma_segments_reads_len(left[p as int].segments, left2[p as int].segments);
        lemma_segments_reads_len(right[p as int].segments, right2[p as int].segments);
        lemma_parts_reads_len(left, left2, right, right2, p + 1);
    }
}

pub proof fn lemma_same_parts(parts: Seq<PartModel>)
    requires
        parts.len() == NUM_PARTITIONS,
    ensures
        same_parts(parts, parts),
{
}

/// How many requests are still to come when the left rows are being divided does not depend
/// on those that have been made, nor on where blocks are written.
pub proof fn lemma_left_len(
    a: Dividing,
    b: Dividing,
    more: nat,
    right: Seq<PartModel>,
    right2: Seq<PartModel>,
    li: Seq<usize>,
    left_rows: Seq<RowModel>,
    block_size: nat,
)
    requires
        shifted(a, b, more),
        same_parts(right, right2),
    ensures
        ({
            let x = divided(a, li, left_rows, block_size);
            let y = divided(b, li, left_rows, block_size);
            (y.requests + parts_reads(y.parts, right2, 0)).len() == (x.requests + parts_reads(
                x.parts,
                right,
                0,
            )).len() + more
        }),
{
    lemma_divided_shifted(a, b, more, li, left_rows, block_size);
    let x = divided(a, li, left_rows, block_size);
    let y = divided(b, li, left_rows, block_size);
    lemma_parts_reads_len(x.parts, y.parts, right, right2, 0);
}

/// How many requests are still to come when the right rows are being divided does not depend
/// on those that have been made, nor on where blocks are written.
pub proof fn lemma_right_len(
    a: Dividing,
    b: Dividing,
    more: nat,
    ri: Seq<usize>,
    right_rows: Seq<RowModel>,
    li: Seq<usize>,
    left_rows: Seq<RowModel>,
    block_size: nat,
)
    requires
        shifted(a, b, more),
    ensures
        divided_join(b, ri, right_rows, li, left_rows, block_size).len() == divided_join(
            a,
            ri,
            right_rows,
            li,
            left_rows,
            block_size,
        ).len() + more,
{
    lemma_divided_shifted(a, b, more, ri, right_rows, block_size);
    let x = divided(a, ri, right_rows, block_size);
    let y = divided(b, ri, right_rows, block_size);
    lemma_same_parts(no_parts());
    lemma_left_len(
        Dividing { parts: no_parts(), ..x },
        Dividing { parts: no_parts(), ..y },
        more,
        x.parts,
        y.parts,
        li,
        left_rows,
        block_size,
    );
}

} // verus!
