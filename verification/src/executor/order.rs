//! The order of rows, and sorting in memory.

use vstd::prelude::*;

use crate::bytes::Order;
use crate::data::value_order;
use crate::executor::cursor::then_rows;
use crate::query::{SortColumn, SortSpec};
use crate::row::{all_conform, clone_row, column_of, conforms, find_column, Row, RowModel, Schema,
    SchemaModel};

verus! {

/// An order, or its reverse.
pub open spec fn directed(o: Order, ascending: bool) -> Order {
    if ascending {
        o
    } else {
        o.flip()
    }
}

/// The order of two rows: that of the first sort column in which they differ. Values
/// without an order count as equal. Nothing where a column that is asked for is missing.
pub open spec fn row_order(
    cs: Seq<SortColumn>,
    schema: SchemaModel,
    a: RowModel,
    b: RowModel,
) -> Option<Order>
    decreases cs.len(),
{
    if cs.len() == 0 {
        Some(Order::Equal)
    } else {
        match column_of(schema, cs[0].column) {
            Some(i) => match value_order(a[i], b[i]) {
                Some(Order::Less) => Some(directed(Order::Less, cs[0].ascending)),
                Some(Order::Greater) => Some(directed(Order::Greater, cs[0].ascending)),
                _ => row_order(cs.drop_first(), schema, a, b),
            },
            None => None,
        }
    }
}

/// Compares two rows by the sort columns, if they are there.
pub fn compare_by_specs(a: &Row, b: &Row, specs: &Vec<SortSpec>, schema: &Schema) -> (r: Option<
    Order,
>)
    requires
        a@.len() == schema@.len(),
        b@.len() == schema@.len(),
    ensures
        r == row_order(specs.deep_view(), schema.deep_view(), a.deep_view(), b.deep_view()),
{
    let ghost cs = specs.deep_view();
    let mut k: usize = 0;
    proof {
        assert(cs.skip(0) =~= cs);
    }
    while k < specs.len()
        invariant
            k <= specs.len(),
            cs == specs.deep_view(),
            a@.len() == schema@.len(),
            b@.len() == schema@.len(),
            row_order(cs, schema.deep_view(), a.deep_view(), b.deep_view()) == row_order(
                cs.skip(k as int),
                schema.deep_view(),
                a.deep_view(),
                b.deep_view(),
            ),
        decreases specs.len() - k,
    {
        let spec = &specs[k];
        proof {
            assert(cs.skip(k as int)[0] == spec.deep_view());
            assert(cs.skip(k as int).drop_first() =~= cs.skip(k + 1));
        }
        let idx = match find_column(schema, &spec.column_name) {
            Some(i) => i,
            None => return None,
        };
        let order = a[idx].compare(&b[idx]);
        assert(a[idx as int].deep_view() == a.deep_view()[idx as int]);
        assert(b[idx as int].deep_view() == b.deep_view()[idx as int]);
        match order {
            Some(Order::Equal) | None => {},
            Some(o) => return Some(if spec.ascending { o } else { o.reverse() }),
        }
        k += 1;
    }
    Some(Order::Equal)
}

// ── Sorting ──────────────────────────────────────────────────────────────────

/// Two lists of rows merged: the first of one comes before the first of the other unless
/// it is greater. Nothing where two rows cannot be compared.
pub open spec fn merge_rows(
    cs: Seq<SortColumn>,
    schema: SchemaModel,
    a: Seq<RowModel>,
    b: Seq<RowModel>,
) -> Option<Seq<RowModel>>
    decreases a.len() + b.len(),
{
    if a.len() == 0 {
        Some(b)
    } else if b.len() == 0 {
        Some(a)
    } else {
        match row_order(cs, schema, a[0], b[0]) {
            Some(Order::Greater) => then_rows(
                seq![b[0]],
                merge_rows(cs, schema, a, b.drop_first()),
            ),
            Some(_) => then_rows(seq![a[0]], merge_rows(cs, schema, a.drop_first(), b)),
            None => None,
        }
    }
}

/// Rows in the order of the sort columns, equal ones as they came: each half sorted, and
/// the halves merged. Nothing where two rows cannot be compared.
pub open spec fn sort_rows(
    cs: Seq<SortColumn>,
    schema: SchemaModel,
    rows: Seq<RowModel>,
) -> Option<Seq<RowModel>>
    decreases rows.len(),
{
    if rows.len() <= 1 {
        Some(rows)
    } else {
        let half = (rows.len() / 2) as int;
        match (
            sort_rows(cs, schema, rows.take(half)),
            sort_rows(cs, schema, rows.skip(half)),
        ) {
            (Some(a), Some(b)) => merge_rows(cs, schema, a, b),
            _ => None,
        }
    }
}

/// Merging loses no row and adds none.
pub proof fn lemma_merge_permutes(
    cs: Seq<SortColumn>,
    schema: SchemaModel,
    a: Seq<RowModel>,
    b: Seq<RowModel>,
)
    requires
        merge_rows(cs, schema, a, b) is Some,
    ensures
        merge_rows(cs, schema, a, b)->0.to_multiset() == a.to_multiset().add(b.to_multiset()),
        merge_rows(cs, schema, a, b)->0.len() == a.len() + b.len(),
    decreases a.len() + b.len(),
{
    broadcast use vstd::seq_lib::group_to_multiset_ensures;

    let out = merge_rows(cs, schema, a, b)->0;
    if a.len() == 0 {
        assert(a.to_multiset() =~= vstd::multiset::Multiset::empty());
        assert(b.to_multiset() =~= a.to_multiset().add(b.to_multiset()));
    } else if b.len() == 0 {
        assert(b.to_multiset() =~= vstd::multiset::Multiset::empty());
        assert(a.to_multiset() =~= a.to_multiset().add(b.to_multiset()));
    } else if row_order(cs, schema, a[0], b[0]) == Some(Order::Greater) {
        let rest = merge_rows(cs, schema, a, b.drop_first())->0;
        lemma_merge_permutes(cs, schema, a, b.drop_first());
        vstd::seq_lib::lemma_multiset_commutative(seq![b[0]], rest);
        vstd::seq_lib::lemma_multiset_commutative(seq![b[0]], b.drop_first());
        assert(b =~= seq![b[0]] + b.drop_first());
        assert(out.to_multiset() =~= a.to_multiset().add(b.to_multiset()));
    } else {
        let rest = merge_rows(cs, schema, a.drop_first(), b)->0;
        lemma_merge_permutes(cs, schema, a.drop_first(), b);
        vstd::seq_lib::lemma_multiset_commutative(seq![a[0]], rest);
        vstd::seq_lib::lemma_multiset_commutative(seq![a[0]], a.drop_first());
        assert(a =~= seq![a[0]] + a.drop_first());
        assert(out.to_multiset() =~= a.to_multiset().add(b.to_multiset()));
    }
}

/// Sorting loses no row and adds none.
pub proof fn lemma_sort_permutes(cs: Seq<SortColumn>, schema: SchemaModel, rows: Seq<RowModel>)
    requires
        sort_rows(cs, schema, rows) is Some,
    ensures
        sort_rows(cs, schema, rows)->0.to_multiset() == rows.to_multiset(),
        sort_rows(cs, schema, rows)->0.len() == rows.len(),
    decreases rows.len(),
{
    if rows.len() > 1 {
        let half = (rows.len() / 2) as int;
        let (x, y) = (rows.take(half), rows.skip(half));
        lemma_sort_permutes(cs, schema, x);
        lemma_sort_permutes(cs, schema, y);
        lemma_merge_permutes(
            cs,
            schema,
            sort_rows(cs, schema, x)->0,
            sort_rows(cs, schema, y)->0,
        );
        vstd::seq_lib::lemma_multiset_commutative(x, y);
        assert(rows =~= x + y);
    }
}

/// What holds of every row of a list holds of every row of a rearrangement.
pub proof fn lemma_permuted_conform(a: Seq<RowModel>, b: Seq<RowModel>, schema: SchemaModel)
    requires
        a.to_multiset() == b.to_multiset(),
        all_conform(a, schema),
    ensures
        all_conform(b, schema),
{
    broadcast use vstd::seq_lib::group_to_multiset_ensures;

    assert forall|i: int| 0 <= i < b.len() implies conforms(#[trigger] b[i], schema) by {
        assert(b.contains(b[i]));
        assert(b.to_multiset().count(b[i]) > 0);
        assert(a.contains(b[i]));
        let k = choose|k: int| 0 <= k < a.len() && a[k] == b[i];
        assert(conforms(a[k], schema));
    }
}

/// The rows at the given places.
pub open spec fn rows_at_places(rows: Seq<RowModel>, places: Seq<usize>) -> Seq<RowModel> {
    Seq::new(places.len(), |i: int| rows[places[i] as int])
}

pub open spec fn in_range(places: Seq<usize>, n: nat) -> bool {
    forall|i: int| 0 <= i < places.len() ==> (#[trigger] places[i] as nat) < n
}

proof fn lemma_then_twice(a: Seq<RowModel>, x: RowModel, rest: Option<Seq<RowModel>>)
    ensures
        then_rows(a, then_rows(seq![x], rest)) == then_rows(a.push(x), rest),
{
    if let Some(r) = rest {
        assert(a + (seq![x] + r) =~= a.push(x) + r);
    }
}

/// Merges two sorted lists of places of rows.
fn merge_places(
    rows: &Vec<Row>,
    left: &Vec<usize>,
    right: &Vec<usize>,
    specs: &Vec<SortSpec>,
    schema: &Schema,
) -> (r: Option<Vec<usize>>)
    requires
        in_range(left@, rows@.len()),
        in_range(right@, rows@.len()),
        forall|i: int| 0 <= i < rows@.len() ==> (#[trigger] rows@[i])@.len() == schema@.len(),
    ensures
        match r {
            Some(places) => {
                &&& in_range(places@, rows@.len())
                &&& merge_rows(
                    specs.deep_view(),
                    schema.deep_view(),
                    rows_at_places(rows.deep_view(), left@),
                    rows_at_places(rows.deep_view(), right@),
                ) == Some(rows_at_places(rows.deep_view(), places@))
            },
            None => merge_rows(
                specs.deep_view(),
                schema.deep_view(),
                rows_at_places(rows.deep_view(), left@),
                rows_at_places(rows.deep_view(), right@),
            ) is None,
        },
{
    let ghost cs = specs.deep_view();
    let ghost s = schema.deep_view();
    let ghost all = rows.deep_view();
    let ghost a = rows_at_places(all, left@);
    let ghost b = rows_at_places(all, right@);
    let ghost whole = merge_rows(cs, s, a, b);
    let mut out: Vec<usize> = Vec::new();
    let mut i: usize = 0;
    let mut j: usize = 0;
    proof {
        assert(a.skip(0) =~= a);
        assert(b.skip(0) =~= b);
        assert(rows_at_places(all, out@) =~= Seq::<RowModel>::empty());
        if let Some(w) = whole {
            assert(Seq::<RowModel>::empty() + w =~= w);
        }
    }
    while i < left.len() || j < right.len()
        invariant
            i <= left.len(),
            j <= right.len(),
            cs == specs.deep_view(),
            s == schema.deep_view(),
            all == rows.deep_view(),
            a == rows_at_places(all, left@),
            b == rows_at_places(all, right@),
            in_range(left@, rows@.len()),
            in_range(right@, rows@.len()),
            in_range(out@, rows@.len()),
            forall|k: int| 0 <= k < rows@.len() ==> (#[trigger] rows@[k])@.len() == schema@.len(),
            whole == merge_rows(cs, s, a, b),
            whole == then_rows(
                rows_at_places(all, out@),
                merge_rows(cs, s, a.skip(i as int), b.skip(j as int)),
            ),
        decreases left.len() - i + (right.len() - j),
    {
        let ghost before = out@;
        let ghost x = a.skip(i as int);
        let ghost y = b.skip(j as int);
        let from_left = if i >= left.len() {
            false
        } else if j >= right.len() {
            true
        } else {
            let p: usize = left[i];
            let q: usize = right[j];
            assert(x[0] == all[p as int] && y[0] == all[q as int]);
            match compare_by_specs(&rows[p], &rows[q], specs, schema) {
                Some(Order::Greater) => false,
                Some(_) => true,
                None => return None,
            }
        };
        if from_left {
            out.push(left[i]);
            i += 1;
            proof {
                assert(x.drop_first() =~= a.skip(i as int));
                if y.len() == 0 {
                    assert(x =~= seq![x[0]] + x.drop_first());
                    assert(merge_rows(cs, s, x.drop_first(), y)->0 =~= x.drop_first());
                }
                lemma_then_twice(
                    rows_at_places(all, before),
                    x[0],
                    merge_rows(cs, s, a.skip(i as int), y),
                );
                assert(rows_at_places(all, out@) =~= rows_at_places(all, before).push(x[0]));
            }
        } else {
            out.push(right[j]);
            j += 1;
            proof {
                assert(y.drop_first() =~= b.skip(j as int));
                if x.len() == 0 {
                    assert(y =~= seq![y[0]] + y.drop_first());
                }
                lemma_then_twice(
                    rows_at_places(all, before),
                    y[0],
                    merge_rows(cs, s, x, b.skip(j as int)),
                );
                assert(rows_at_places(all, out@) =~= rows_at_places(all, before).push(y[0]));
            }
        }
    }
    proof {
        assert(rows_at_places(all, out@) + Seq::<RowModel>::empty() =~= rows_at_places(
            all,
            out@,
        ));
        assert(b.skip(j as int) =~= Seq::<RowModel>::empty());
    }
    Some(out)
}

/// The places of the rows from `lo` to `hi`, sorted.
fn sort_places(rows: &Vec<Row>, lo: usize, hi: usize, specs: &Vec<SortSpec>, schema: &Schema) -> (r:
    Option<Vec<usize>>)
    requires
        lo <= hi <= rows@.len(),
        forall|i: int| 0 <= i < rows@.len() ==> (#[trigger] rows@[i])@.len() == schema@.len(),
    ensures
        match r {
            Some(places) => {
                &&& in_range(places@, rows@.len())
                &&& sort_rows(
                    specs.deep_view(),
                    schema.deep_view(),
                    rows.deep_view().subrange(lo as int, hi as int),
                ) == Some(rows_at_places(rows.deep_view(), places@))
            },
            None => sort_rows(
                specs.deep_view(),
                schema.deep_view(),
                rows.deep_view().subrange(lo as int, hi as int),
            ) is None,
        },
    decreases hi - lo,
{
    let ghost all = rows.deep_view().subrange(lo as int, hi as int);
    if hi - lo <= 1 {
        let mut places: Vec<usize> = Vec::new();
        if lo < hi {
            places.push(lo);
        }
        proof {
            assert(rows_at_places(rows.deep_view(), places@) =~= all);
        }
        return Some(places);
    }
    let mid: usize = lo + (hi - lo) / 2;
    proof {
        let half = (all.len() / 2) as int;
        assert(all.take(half) =~= rows.deep_view().subrange(lo as int, mid as int));
        assert(all.skip(half) =~= rows.deep_view().subrange(mid as int, hi as int));
    }
    let left = match sort_places(rows, lo, mid, specs, schema) {
        Some(places) => places,
        None => return None,
    };
    let right = match sort_places(rows, mid, hi, specs, schema) {
        Some(places) => places,
        None => return None,
    };
    merge_places(rows, &left, &right, specs, schema)
}

/// Sorts rows, if they can be compared.
pub fn sort_by_specs(rows: &Vec<Row>, specs: &Vec<SortSpec>, schema: &Schema) -> (r: Option<
    Vec<Row>,
>)
    requires
        forall|i: int| 0 <= i < rows@.len() ==> (#[trigger] rows@[i])@.len() == schema@.len(),
    ensures
        match r {
            Some(sorted) => sort_rows(
                specs.deep_view(),
                schema.deep_view(),
                rows.deep_view(),
            ) == Some(sorted.deep_view()),
            None => sort_rows(specs.deep_view(), schema.deep_view(), rows.deep_view()) is None,
        },
{
    let ghost all = rows.deep_view();
    proof {
        assert(all.subrange(0, all.len() as int) =~= all);
    }
    let places = match sort_places(rows, 0, rows.len(), specs, schema) {
        Some(places) => places,
        None => return None,
    };
    let ghost whole = rows_at_places(all, places@);
    let mut out: Vec<Row> = Vec::new();
    let mut i: usize = 0;
    while i < places.len()
        invariant
            i <= places.len(),
            in_range(places@, rows@.len()),
            all == rows.deep_view(),
            whole == rows_at_places(all, places@),
            out.deep_view() == whole.take(i as int),
        decreases places.len() - i,
    {
        let row = clone_row(&rows[places[i]]);
        let ghost before = out.deep_view();
        out.push(row);
        i += 1;
        proof {
            assert(out.deep_view() =~= before.push(row.deep_view()));
            assert(out.deep_view() =~= whole.take(i as int));
        }
    }
    proof {
        assert(whole.take(i as int) =~= whole);
    }
    Some(out)
}

} // verus!
