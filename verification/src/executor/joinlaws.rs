//! What joining two sides promises: each pair that belongs together, once.

use vstd::prelude::*;

use crate::data::Value;
use crate::executor::cross::{beside, product};
use crate::executor::filter::{all_hold, filter_rows};
use crate::executor::jointable::matching;
use crate::executor::partition::{in_partition, NUM_PARTITIONS};
use crate::executor::partjoin::{hash_joined, parts_joined};
use crate::key::{key_of, partition_of};
use crate::query::Condition;
use crate::row::{RowModel, SchemaModel};

verus! {

/// The rows at the given places.
pub open spec fn rows_at(rows: Seq<RowModel>, places: Seq<int>) -> Seq<RowModel> {
    Seq::new(places.len(), |k: int| rows[places[k]])
}

/// The places are those of some of `n` things, none of them twice.
pub open spec fn distinct_places(places: Seq<int>, n: nat) -> bool {
    &&& places.no_duplicates()
    &&& forall|k: int| 0 <= k < places.len() ==> 0 <= #[trigger] places[k] < n
}

/// Each row of `out` is a left row with a right row behind it, and `pairs` tells which. All
/// pairs that are good are there, and no pair is there twice.
pub open spec fn joins(
    out: Seq<RowModel>,
    pairs: Seq<(int, int)>,
    left: Seq<RowModel>,
    right: Seq<RowModel>,
    good: spec_fn(int, int) -> bool,
) -> bool {
    &&& out.len() == pairs.len()
    &&& pairs.no_duplicates()
    &&& forall|k: int|
        0 <= k < pairs.len() ==> {
            let (i, j) = #[trigger] pairs[k];
            &&& 0 <= i < left.len()
            &&& 0 <= j < right.len()
            &&& good(i, j)
            &&& out[k] == left[i] + right[j]
        }
    &&& forall|i: int, j: int|
        0 <= i < left.len() && 0 <= j < right.len() && #[trigger] good(i, j) ==> pairs.contains(
            (i, j),
        )
}

/// The pair has the same key on both sides.
pub open spec fn same_keys(
    li: Seq<usize>,
    ri: Seq<usize>,
    left: Seq<RowModel>,
    right: Seq<RowModel>,
) -> spec_fn(int, int) -> bool {
    |i: int, j: int| key_of(li, left[i]) == key_of(ri, right[j])
}

pub open spec fn any_pair() -> spec_fn(int, int) -> bool {
    |i: int, j: int| true
}

// ── One left row ─────────────────────────────────────────────────────────────

/// The places of the rows that have the key.
pub open spec fn match_places(indices: Seq<usize>, rows: Seq<RowModel>, key: Seq<Value>) -> Seq<int>
    decreases rows.len(),
{
    if rows.len() == 0 {
        Seq::empty()
    } else {
        let front = match_places(indices, rows.drop_last(), key);
        if key_of(indices, rows.last()) == key {
            front.push(rows.len() - 1)
        } else {
            front
        }
    }
}

proof fn lemma_match_places(indices: Seq<usize>, rows: Seq<RowModel>, key: Seq<Value>)
    ensures
        distinct_places(match_places(indices, rows, key), rows.len()),
        rows_at(rows, match_places(indices, rows, key)) == matching(indices, rows, key),
        forall|j: int|
            0 <= j < rows.len() ==> (#[trigger] match_places(indices, rows, key).contains(j)
                <==> key_of(indices, rows[j]) == key),
    decreases rows.len(),
{
    let all = match_places(indices, rows, key);
    if rows.len() == 0 {
        assert(rows_at(rows, all) =~= matching(indices, rows, key));
    } else {
        let front = rows.drop_last();
        lemma_match_places(indices, front, key);
        let before = match_places(indices, front, key);
        assert forall|k: int| 0 <= k < before.len() implies rows[#[trigger] before[k]]
            == front[before[k]] by {}
        assert(rows_at(rows, before) =~= rows_at(front, before));
        if key_of(indices, rows.last()) == key {
            assert(all[before.len() as int] == rows.len() - 1);
        }
        assert(rows_at(rows, all) =~= matching(indices, rows, key));
        assert forall|j: int| 0 <= j < rows.len() implies (#[trigger] all.contains(j) <==> key_of(
            indices,
            rows[j],
        ) == key) by {
            if j < rows.len() - 1 {
                assert(before.contains(j) <==> key_of(indices, front[j]) == key);
                if all.contains(j) {
                    let k = choose|k: int| 0 <= k < all.len() && all[k] == j;
                    assert(before[k] == j);
                }
                if before.contains(j) {
                    let k = choose|k: int| 0 <= k < before.len() && before[k] == j;
                    assert(all[k] == j);
                }
            } else if key_of(indices, rows[j]) != key {
                if all.contains(j) {
                    let k = choose|k: int| 0 <= k < all.len() && all[k] == j;
                    assert(before[k] < front.len());
                }
            }
        }
    }
}

/// The left row at `i` with the right rows that have its key.
pub open spec fn matches_of(
    li: Seq<usize>,
    ri: Seq<usize>,
    left: Seq<RowModel>,
    right: Seq<RowModel>,
    i: int,
) -> Seq<RowModel> {
    beside(left[i], matching(ri, right, key_of(li, left[i])))
}

// ── Left rows in any order ───────────────────────────────────────────────────

/// The left rows at the given places, one after the other, each with its matches.
pub open spec fn joined_in_turn(
    li: Seq<usize>,
    ri: Seq<usize>,
    left: Seq<RowModel>,
    right: Seq<RowModel>,
    places: Seq<int>,
) -> Seq<RowModel>
    decreases places.len(),
{
    if places.len() == 0 {
        Seq::empty()
    } else {
        joined_in_turn(li, ri, left, right, places.drop_last()) + matches_of(
            li,
            ri,
            left,
            right,
            places.last(),
        )
    }
}

pub open spec fn pairs_of(i: int, js: Seq<int>) -> Seq<(int, int)> {
    Seq::new(js.len(), |k: int| (i, js[k]))
}

pub open spec fn pairs_in_turn(
    li: Seq<usize>,
    ri: Seq<usize>,
    left: Seq<RowModel>,
    right: Seq<RowModel>,
    places: Seq<int>,
) -> Seq<(int, int)>
    decreases places.len(),
{
    if places.len() == 0 {
        Seq::empty()
    } else {
        pairs_in_turn(li, ri, left, right, places.drop_last()) + pairs_of(
            places.last(),
            match_places(ri, right, key_of(li, left[places.last()])),
        )
    }
}

proof fn lemma_in_turn(
    li: Seq<usize>,
    ri: Seq<usize>,
    left: Seq<RowModel>,
    right: Seq<RowModel>,
    places: Seq<int>,
)
    requires
        distinct_places(places, left.len()),
    ensures
        ({
            let out = joined_in_turn(li, ri, left, right, places);
            let pairs = pairs_in_turn(li, ri, left, right, places);
            &&& out.len() == pairs.len()
            &&& pairs.no_duplicates()
            &&& forall|k: int|
                0 <= k < pairs.len() ==> {
                    let (i, j) = #[trigger] pairs[k];
                    &&& places.contains(i)
                    &&& 0 <= j < right.len()
                    &&& key_of(li, left[i]) == key_of(ri, right[j])
                    &&& out[k] == left[i] + right[j]
                }
            &&& forall|i: int, j: int|
                places.contains(i) && 0 <= j < right.len() && key_of(li, left[i]) == key_of(
                    ri,
                    right[j],
                ) ==> #[trigger] pairs.contains((i, j))
        }),
    decreases places.len(),
{
    if places.len() > 0 {
        let front = places.drop_last();
        let last = places.last();
        assert(distinct_places(front, left.len())) by {
            assert forall|k: int| 0 <= k < front.len() implies 0 <= #[trigger] front[k]
                < left.len() by {
                assert(front[k] == places[k]);
            }
        }
        lemma_in_turn(li, ri, left, right, front);
        let key = key_of(li, left[last]);
        lemma_match_places(ri, right, key);
        let js = match_places(ri, right, key);
        let p = pairs_in_turn(li, ri, left, right, front);
        let q = pairs_of(last, js);
        let pairs = p + q;
        let a = joined_in_turn(li, ri, left, right, front);
        let b = matches_of(li, ri, left, right, last);
        let out = a + b;
        assert(rows_at(right, js).len() == js.len());
        assert forall|i: int| front.contains(i) implies #[trigger] places.contains(i) && i
            != last by {
            let k = choose|k: int| 0 <= k < front.len() && front[k] == i;
            assert(places[k] == i);
        }
        assert(places[places.len() - 1] == last);
        assert(places.contains(last));
        assert forall|k: int| 0 <= k < pairs.len() implies {
            let (i, j) = #[trigger] pairs[k];
            &&& places.contains(i)
            &&& 0 <= j < right.len()
            &&& key_of(li, left[i]) == key_of(ri, right[j])
            &&& out[k] == left[i] + right[j]
        } by {
            if k < p.len() {
                assert(pairs[k] == p[k]);
                assert(out[k] == a[k]);
            } else {
                let m = k - p.len();
                assert(pairs[k] == q[m]);
                assert(js.contains(js[m]));
                assert(rows_at(right, js)[m] == right[js[m]]);
                assert(out[k] == b[m]);
            }
        }
        assert forall|x: int, y: int|
            0 <= x < pairs.len() && 0 <= y < pairs.len() && x != y implies pairs[x]
            != pairs[y] by {
            if x < p.len() && y < p.len() {
                assert(p[x] != p[y]);
            } else if x >= p.len() && y >= p.len() {
                assert(js[x - p.len()] != js[y - p.len()]);
            } else if x < p.len() {
                let (i, j) = p[x];
                assert(front.contains(i));
            } else {
                let (i, j) = p[y];
                assert(front.contains(i));
            }
        }
        assert forall|i: int, j: int|
            places.contains(i) && 0 <= j < right.len() && key_of(li, left[i]) == key_of(
                ri,
                right[j],
            ) implies #[trigger] pairs.contains((i, j)) by {
            if i == last {
                assert(js.contains(j));
                let m = choose|m: int| 0 <= m < js.len() && js[m] == j;
                assert(pairs[p.len() + m] == (i, j));
            } else {
                let k = choose|k: int| 0 <= k < places.len() && places[k] == i;
                assert(front[k] == i);
                assert(front.contains(i));
                assert(p.contains((i, j)));
                let m = choose|m: int| 0 <= m < p.len() && p[m] == (i, j);
                assert(pairs[m] == (i, j));
            }
        }
    }
}

proof fn lemma_turns_concat(
    li: Seq<usize>,
    ri: Seq<usize>,
    left: Seq<RowModel>,
    right: Seq<RowModel>,
    a: Seq<int>,
    b: Seq<int>,
)
    ensures
        joined_in_turn(li, ri, left, right, a + b) == joined_in_turn(li, ri, left, right, a)
            + joined_in_turn(li, ri, left, right, b),
    decreases b.len(),
{
    if b.len() == 0 {
        assert(a + b =~= a);
        assert(joined_in_turn(li, ri, left, right, a) + Seq::<RowModel>::empty()
            =~= joined_in_turn(li, ri, left, right, a));
    } else {
        lemma_turns_concat(li, ri, left, right, a, b.drop_last());
        assert((a + b).drop_last() =~= a + b.drop_last());
        assert((a + b).last() == b.last());
        let x = joined_in_turn(li, ri, left, right, a);
        let y = joined_in_turn(li, ri, left, right, b.drop_last());
        let z = matches_of(li, ri, left, right, b.last());
        assert((x + y) + z =~= x + (y + z));
    }
}

/// Joining the rows at some places is joining them in turn, if the right side has all that
/// matches them.
proof fn lemma_joined_at(
    li: Seq<usize>,
    ri: Seq<usize>,
    left: Seq<RowModel>,
    right: Seq<RowModel>,
    places: Seq<int>,
    part: Seq<RowModel>,
)
    requires
        forall|k: int|
            0 <= k < places.len() ==> {
                let key = key_of(li, left[#[trigger] places[k]]);
                matching(ri, part, key) == matching(ri, right, key)
            },
    ensures
        hash_joined(li, ri, rows_at(left, places), part) == joined_in_turn(
            li,
            ri,
            left,
            right,
            places,
        ),
    decreases places.len(),
{
    if places.len() == 0 {
        assert(rows_at(left, places).len() == 0);
    } else {
        let rest = places.drop_first();
        assert forall|k: int| 0 <= k < rest.len() implies {
            let key = key_of(li, left[#[trigger] rest[k]]);
            matching(ri, part, key) == matching(ri, right, key)
        } by {
            assert(rest[k] == places[k + 1]);
        }
        lemma_joined_at(li, ri, left, right, rest, part);
        assert(rows_at(left, places).drop_first() =~= rows_at(left, rest));
        assert(rows_at(left, places)[0] == left[places[0]]);
        let first = seq![places[0]];
        assert(places =~= first + rest);
        lemma_turns_concat(li, ri, left, right, first, rest);
        assert(first.drop_last() =~= Seq::<int>::empty());
        assert(first.last() == places[0]);
        assert(joined_in_turn(li, ri, left, right, first.drop_last()) == Seq::<RowModel>::empty());
        let key = key_of(li, left[places[0]]);
        assert(matching(ri, part, key) == matching(ri, right, key));
        assert(joined_in_turn(li, ri, left, right, first) =~= matches_of(
            li,
            ri,
            left,
            right,
            places[0],
        ));
    }
}

pub open spec fn first_places(n: nat) -> Seq<int> {
    Seq::new(n, |k: int| k)
}

/// A hash join gives each pair of rows with the same key, once.
pub proof fn lemma_hash_join(
    li: Seq<usize>,
    ri: Seq<usize>,
    left: Seq<RowModel>,
    right: Seq<RowModel>,
)
    ensures
        exists|pairs: Seq<(int, int)>|
            joins(
                hash_joined(li, ri, left, right),
                pairs,
                left,
                right,
                same_keys(li, ri, left, right),
            ),
{
    let places = first_places(left.len());
    assert(rows_at(left, places) =~= left);
    lemma_joined_at(li, ri, left, right, places, right);
    assert forall|i: int| 0 <= i < left.len() implies #[trigger] places.contains(i) by {
        assert(places[i] == i);
    }
    lemma_turns_join(li, ri, left, right, places);
}

proof fn lemma_turns_join(
    li: Seq<usize>,
    ri: Seq<usize>,
    left: Seq<RowModel>,
    right: Seq<RowModel>,
    places: Seq<int>,
)
    requires
        distinct_places(places, left.len()),
        forall|i: int| 0 <= i < left.len() ==> #[trigger] places.contains(i),
    ensures
        joins(
            joined_in_turn(li, ri, left, right, places),
            pairs_in_turn(li, ri, left, right, places),
            left,
            right,
            same_keys(li, ri, left, right),
        ),
{
    lemma_in_turn(li, ri, left, right, places);
    let out = joined_in_turn(li, ri, left, right, places);
    let pairs = pairs_in_turn(li, ri, left, right, places);
    let good = same_keys(li, ri, left, right);
    assert forall|k: int| 0 <= k < pairs.len() implies {
        let (i, j) = #[trigger] pairs[k];
        &&& 0 <= i < left.len()
        &&& 0 <= j < right.len()
        &&& good(i, j)
        &&& out[k] == left[i] + right[j]
    } by {
        let (i, j) = pairs[k];
        let m = choose|m: int| 0 <= m < places.len() && places[m] == i;
        assert(0 <= places[m] < left.len());
    }
    assert forall|i: int, j: int|
        0 <= i < left.len() && 0 <= j < right.len() && #[trigger] good(i, j) implies pairs.contains(
        (i, j),
    ) by {
        assert(places.contains(i));
    }
}

// ── Partitions ───────────────────────────────────────────────────────────────

/// The places of the rows of a partition.
pub open spec fn part_places(indices: Seq<usize>, rows: Seq<RowModel>, p: nat) -> Seq<int>
    decreases rows.len(),
{
    if rows.len() == 0 {
        Seq::empty()
    } else {
        let front = part_places(indices, rows.drop_last(), p);
        if partition_of(key_of(indices, rows.last()), NUM_PARTITIONS as nat) == p {
            front.push(rows.len() - 1)
        } else {
            front
        }
    }
}

proof fn lemma_part_places(indices: Seq<usize>, rows: Seq<RowModel>, p: nat)
    ensures
        distinct_places(part_places(indices, rows, p), rows.len()),
        rows_at(rows, part_places(indices, rows, p)) == in_partition(indices, rows, p),
        forall|k: int|
            0 <= k < part_places(indices, rows, p).len() ==> partition_of(
                key_of(indices, rows[#[trigger] part_places(indices, rows, p)[k]]),
                NUM_PARTITIONS as nat,
            ) == p,
        forall|i: int|
            0 <= i < rows.len() && partition_of(key_of(indices, rows[i]), NUM_PARTITIONS as nat)
                == p ==> #[trigger] part_places(indices, rows, p).contains(i),
    decreases rows.len(),
{
    let all = part_places(indices, rows, p);
    if rows.len() == 0 {
        assert(rows_at(rows, all) =~= in_partition(indices, rows, p));
    } else {
        let front = rows.drop_last();
        lemma_part_places(indices, front, p);
        let before = part_places(indices, front, p);
        assert forall|k: int| 0 <= k < before.len() implies rows[#[trigger] before[k]]
            == front[before[k]] by {}
        assert(rows_at(rows, before) =~= rows_at(front, before));
        assert(rows_at(rows, all) =~= in_partition(indices, rows, p));
        assert forall|k: int| 0 <= k < all.len() implies partition_of(
            key_of(indices, rows[#[trigger] all[k]]),
            NUM_PARTITIONS as nat,
        ) == p by {
            if k < before.len() {
                assert(all[k] == before[k]);
            }
        }
        assert forall|i: int|
            0 <= i < rows.len() && partition_of(key_of(indices, rows[i]), NUM_PARTITIONS as nat)
                == p implies #[trigger] all.contains(i) by {
            if i < rows.len() - 1 {
                assert(front[i] == rows[i]);
                assert(before.contains(i));
                let k = choose|k: int| 0 <= k < before.len() && before[k] == i;
                assert(all[k] == i);
            } else {
                assert(all[before.len() as int] == i);
            }
        }
    }
}

/// All rows that have a key are in the partition of the key.
proof fn lemma_matching_in_part(indices: Seq<usize>, rows: Seq<RowModel>, key: Seq<Value>)
    ensures
        matching(
            indices,
            in_partition(indices, rows, partition_of(key, NUM_PARTITIONS as nat)),
            key,
        ) == matching(indices, rows, key),
    decreases rows.len(),
{
    let p = partition_of(key, NUM_PARTITIONS as nat);
    if rows.len() > 0 {
        let front = rows.drop_last();
        lemma_matching_in_part(indices, front, key);
        let part = in_partition(indices, front, p);
        if partition_of(key_of(indices, rows.last()), NUM_PARTITIONS as nat) == p {
            assert(part.push(rows.last()).drop_last() =~= part);
        }
    }
}

/// The places of the rows of the partitions before `p`.
pub open spec fn places_upto(indices: Seq<usize>, rows: Seq<RowModel>, p: nat) -> Seq<int>
    decreases p,
{
    if p == 0 {
        Seq::empty()
    } else {
        places_upto(indices, rows, (p - 1) as nat) + part_places(indices, rows, (p - 1) as nat)
    }
}

proof fn lemma_places_upto(indices: Seq<usize>, rows: Seq<RowModel>, p: nat)
    ensures
        distinct_places(places_upto(indices, rows, p), rows.len()),
        forall|k: int|
            0 <= k < places_upto(indices, rows, p).len() ==> partition_of(
                key_of(indices, rows[#[trigger] places_upto(indices, rows, p)[k]]),
                NUM_PARTITIONS as nat,
            ) < p,
        forall|i: int|
            0 <= i < rows.len() && partition_of(key_of(indices, rows[i]), NUM_PARTITIONS as nat)
                < p ==> #[trigger] places_upto(indices, rows, p).contains(i),
    decreases p,
{
    if p > 0 {
        let q = (p - 1) as nat;
        lemma_places_upto(indices, rows, q);
        lemma_part_places(indices, rows, q);
        let a = places_upto(indices, rows, q);
        let b = part_places(indices, rows, q);
        let all = a + b;
        assert forall|k: int| 0 <= k < all.len() implies 0 <= #[trigger] all[k] < rows.len()
            && partition_of(key_of(indices, rows[all[k]]), NUM_PARTITIONS as nat) < p by {
            if k < a.len() {
                assert(all[k] == a[k]);
            } else {
                assert(all[k] == b[k - a.len()]);
            }
        }
        assert forall|x: int, y: int|
            0 <= x < all.len() && 0 <= y < all.len() && x != y implies all[x] != all[y] by {
            if x < a.len() && y < a.len() {
                assert(a[x] != a[y]);
            } else if x >= a.len() && y >= a.len() {
                assert(b[x - a.len()] != b[y - a.len()]);
            } else if x < a.len() {
                assert(all[x] == a[x] && all[y] == b[y - a.len()]);
            } else {
                assert(all[y] == a[y] && all[x] == b[x - a.len()]);
            }
        }
        assert forall|i: int|
            0 <= i < rows.len() && partition_of(key_of(indices, rows[i]), NUM_PARTITIONS as nat)
                < p implies #[trigger] all.contains(i) by {
            if partition_of(key_of(indices, rows[i]), NUM_PARTITIONS as nat) == q {
                assert(b.contains(i));
                let k = choose|k: int| 0 <= k < b.len() && b[k] == i;
                assert(all[a.len() + k] == i);
            } else {
                assert(a.contains(i));
                let k = choose|k: int| 0 <= k < a.len() && a[k] == i;
                assert(all[k] == i);
            }
        }
    }
}

/// Joining partition by partition is joining the left rows partition by partition.
proof fn lemma_parts_in_turn(
    li: Seq<usize>,
    ri: Seq<usize>,
    left: Seq<RowModel>,
    right: Seq<RowModel>,
    p: nat,
)
    requires
        p <= NUM_PARTITIONS,
    ensures
        joined_in_turn(li, ri, left, right, places_upto(li, left, p)) + parts_joined(
            li,
            ri,
            left,
            right,
            p,
        ) == joined_in_turn(li, ri, left, right, places_upto(li, left, NUM_PARTITIONS as nat)),
    decreases NUM_PARTITIONS - p,
{
    let done = joined_in_turn(li, ri, left, right, places_upto(li, left, p));
    if p == NUM_PARTITIONS {
        assert(done + Seq::<RowModel>::empty() =~= done);
    } else {
        lemma_parts_in_turn(li, ri, left, right, p + 1);
        lemma_part_places(li, left, p);
        let places = part_places(li, left, p);
        let part = in_partition(ri, right, p);
        assert forall|k: int| 0 <= k < places.len() implies {
            let key = key_of(li, left[#[trigger] places[k]]);
            matching(ri, part, key) == matching(ri, right, key)
        } by {
            lemma_matching_in_part(ri, right, key_of(li, left[places[k]]));
        }
        lemma_joined_at(li, ri, left, right, places, part);
        lemma_turns_concat(li, ri, left, right, places_upto(li, left, p), places);
        assert(places_upto(li, left, p + 1) == places_upto(li, left, p) + places);
        let now = joined_in_turn(li, ri, left, right, places);
        let rest = parts_joined(li, ri, left, right, p + 1);
        assert((done + now) + rest =~= done + (now + rest));
    }
}

/// A join of partitions gives each pair of rows with the same key, once, as a join in
/// memory does.
pub proof fn lemma_parts_join(
    li: Seq<usize>,
    ri: Seq<usize>,
    left: Seq<RowModel>,
    right: Seq<RowModel>,
)
    ensures
        exists|pairs: Seq<(int, int)>|
            joins(
                parts_joined(li, ri, left, right, 0),
                pairs,
                left,
                right,
                same_keys(li, ri, left, right),
            ),
{
    let n = NUM_PARTITIONS as nat;
    let places = places_upto(li, left, n);
    lemma_parts_in_turn(li, ri, left, right, 0);
    assert(joined_in_turn(li, ri, left, right, places_upto(li, left, 0)) + parts_joined(
        li,
        ri,
        left,
        right,
        0,
    ) =~= parts_joined(li, ri, left, right, 0));
    lemma_places_upto(li, left, n);
    assert forall|i: int| 0 <= i < left.len() implies #[trigger] places.contains(i) by {
        assert(partition_of(key_of(li, left[i]), n) < n);
    }
    lemma_turns_join(li, ri, left, right, places);
}

// ── Cross products ───────────────────────────────────────────────────────────

pub open spec fn all_pairs(n: nat, m: nat) -> Seq<(int, int)>
    decreases n,
{
    if n == 0 {
        Seq::empty()
    } else {
        all_pairs((n - 1) as nat, m) + pairs_of(n - 1, first_places(m))
    }
}

/// The product of two lists of left rows, one after the other.
pub proof fn lemma_product_split(a: Seq<RowModel>, b: Seq<RowModel>, right: Seq<RowModel>)
    ensures
        product(a + b, right) == product(a, right) + product(b, right),
    decreases a.len(),
{
    if a.len() == 0 {
        assert(a + b =~= b);
        assert(product(a, right) + product(b, right) =~= product(b, right));
    } else {
        lemma_product_split(a.drop_first(), b, right);
        assert((a + b).drop_first() =~= a.drop_first() + b);
        let x = beside(a[0], right);
        let y = product(a.drop_first(), right);
        let z = product(b, right);
        assert(x + (y + z) =~= (x + y) + z);
    }
}

proof fn lemma_all_pairs(left: Seq<RowModel>, right: Seq<RowModel>)
    ensures
        joins(product(left, right), all_pairs(left.len(), right.len()), left, right, any_pair()),
        product(left, right).len() == left.len() * right.len(),
    decreases left.len(),
{
    let good = any_pair();
    let m = right.len();
    let out = product(left, right);
    let pairs = all_pairs(left.len(), m);
    if left.len() == 0 {
        assert(left.len() * right.len() == 0) by (nonlinear_arith)
            requires
                left.len() == 0,
        ;
    } else {
        let front = left.drop_last();
        let n = front.len() as int;
        let x = left.last();
        lemma_all_pairs(front, right);
        lemma_product_split(front, seq![x], right);
        assert(left =~= front + seq![x]);
        assert(seq![x].drop_first() =~= Seq::<RowModel>::empty());
        assert(product(seq![x].drop_first(), right) == Seq::<RowModel>::empty());
        assert(product(seq![x], right) =~= beside(x, right));
        let p = all_pairs(front.len(), m);
        let q = pairs_of(n, first_places(m));
        assert(pairs == p + q);
        let a = product(front, right);
        assert(out == a + beside(x, right));
        assert(left.len() * m == front.len() * m + m) by (nonlinear_arith)
            requires
                left.len() == front.len() + 1,
        ;
        assert forall|k: int| 0 <= k < pairs.len() implies {
            let (i, j) = #[trigger] pairs[k];
            &&& 0 <= i < left.len()
            &&& 0 <= j < right.len()
            &&& good(i, j)
            &&& out[k] == left[i] + right[j]
        } by {
            if k < p.len() {
                assert(pairs[k] == p[k]);
                let (i, j) = p[k];
                assert(front[i] == left[i]);
            } else {
                assert(pairs[k] == q[k - p.len()]);
                assert(out[k] == beside(x, right)[k - p.len()]);
            }
        }
        assert forall|u: int, v: int|
            0 <= u < pairs.len() && 0 <= v < pairs.len() && u != v implies pairs[u]
            != pairs[v] by {
            if u < p.len() && v < p.len() {
                assert(p[u] != p[v]);
            } else if u < p.len() {
                let (i, j) = p[u];
                assert(i < n);
            } else if v < p.len() {
                let (i, j) = p[v];
                assert(i < n);
            }
        }
        assert forall|i: int, j: int|
            0 <= i < left.len() && 0 <= j < right.len() && #[trigger] good(
                i,
                j,
            ) implies pairs.contains((i, j)) by {
            if i < n {
                assert(good(i, j));
                assert(p.contains((i, j)));
                let k = choose|k: int| 0 <= k < p.len() && p[k] == (i, j);
                assert(pairs[k] == (i, j));
            } else {
                assert(pairs[p.len() + j] == (i, j));
            }
        }
    }
}

/// A cross product gives each pair of rows, once.
pub proof fn lemma_cross_product(left: Seq<RowModel>, right: Seq<RowModel>)
    ensures
        exists|pairs: Seq<(int, int)>|
            joins(product(left, right), pairs, left, right, any_pair()),
        product(left, right).len() == left.len() * right.len(),
{
    lemma_all_pairs(left, right);
}

// ── Filters ──────────────────────────────────────────────────────────────────

/// The places of the rows of which all conditions hold.
pub open spec fn kept_places(cs: Seq<Condition>, schema: SchemaModel, rows: Seq<RowModel>) -> Seq<
    int,
>
    decreases rows.len(),
{
    if rows.len() == 0 {
        Seq::empty()
    } else {
        let front = kept_places(cs, schema, rows.drop_last());
        if all_hold(cs, rows.last(), schema) == Some(true) {
            front.push(rows.len() - 1)
        } else {
            front
        }
    }
}

proof fn lemma_filter_last(cs: Seq<Condition>, schema: SchemaModel, rows: Seq<RowModel>)
    requires
        rows.len() > 0,
        filter_rows(cs, schema, rows) is Some,
    ensures
        filter_rows(cs, schema, rows.drop_last()) is Some,
        all_hold(cs, rows.last(), schema) is Some,
        filter_rows(cs, schema, rows)->0 == filter_rows(cs, schema, rows.drop_last())->0
            + if all_hold(cs, rows.last(), schema) == Some(true) {
            seq![rows.last()]
        } else {
            Seq::empty()
        },
    decreases rows.len(),
{
    let rest = rows.drop_first();
    if rows.len() == 1 {
        assert(rest =~= Seq::<RowModel>::empty());
        assert(rows.drop_last() =~= Seq::<RowModel>::empty());
        assert(rows.last() == rows[0]);
        assert(filter_rows(cs, schema, rest) == Some(Seq::<RowModel>::empty()));
        assert(filter_rows(cs, schema, rows.drop_last()) == Some(Seq::<RowModel>::empty()));
        assert(filter_rows(cs, schema, rows)->0 =~= Seq::<RowModel>::empty() + if all_hold(
            cs,
            rows.last(),
            schema,
        ) == Some(true) {
            seq![rows.last()]
        } else {
            Seq::empty()
        });
    } else {
        lemma_filter_last(cs, schema, rest);
        assert(rest.drop_last() =~= rows.drop_last().drop_first());
        assert(rest.last() == rows.last());
        let tail = if all_hold(cs, rows.last(), schema) == Some(true) {
            seq![rows.last()]
        } else {
            Seq::empty()
        };
        let middle = filter_rows(cs, schema, rest.drop_last())->0;
        assert(rows.drop_last()[0] == rows[0]);
        if all_hold(cs, rows[0], schema) == Some(true) {
            assert(seq![rows[0]] + (middle + tail) =~= (seq![rows[0]] + middle) + tail);
        }
    }
}

/// A filter gives the rows of which all conditions hold, each once, in their order.
pub proof fn lemma_filter_keeps(cs: Seq<Condition>, schema: SchemaModel, rows: Seq<RowModel>)
    requires
        filter_rows(cs, schema, rows) is Some,
    ensures
        ({
            let places = kept_places(cs, schema, rows);
            &&& distinct_places(places, rows.len())
            &&& filter_rows(cs, schema, rows) == Some(rows_at(rows, places))
            &&& forall|i: int|
                0 <= i < rows.len() ==> (#[trigger] places.contains(i) <==> all_hold(
                    cs,
                    rows[i],
                    schema,
                ) == Some(true))
            &&& forall|k: int, m: int| 0 <= k < m < places.len() ==> places[k] < places[m]
        }),
    decreases rows.len(),
{
    let all = kept_places(cs, schema, rows);
    if rows.len() == 0 {
        assert(rows_at(rows, all) =~= Seq::<RowModel>::empty());
    } else {
        let front = rows.drop_last();
        lemma_filter_last(cs, schema, rows);
        lemma_filter_keeps(cs, schema, front);
        let before = kept_places(cs, schema, front);
        assert forall|k: int| 0 <= k < before.len() implies rows[#[trigger] before[k]]
            == front[before[k]] by {}
        assert(rows_at(rows, before) =~= rows_at(front, before));
        assert(filter_rows(cs, schema, rows)->0 =~= rows_at(rows, all));
        assert forall|i: int| 0 <= i < rows.len() implies (#[trigger] all.contains(i) <==> all_hold(
            cs,
            rows[i],
            schema,
        ) == Some(true)) by {
            if i < rows.len() - 1 {
                assert(before.contains(i) <==> all_hold(cs, front[i], schema) == Some(true));
                if all.contains(i) {
                    let k = choose|k: int| 0 <= k < all.len() && all[k] == i;
                    assert(before[k] == i);
                }
                if before.contains(i) {
                    let k = choose|k: int| 0 <= k < before.len() && before[k] == i;
                    assert(all[k] == i);
                }
            } else {
                if all_hold(cs, rows[i], schema) == Some(true) {
                    assert(all[before.len() as int] == i);
                } else if all.contains(i) {
                    let k = choose|k: int| 0 <= k < all.len() && all[k] == i;
                    assert(before[k] < front.len());
                }
            }
        }
    }
}

} // verus!
