//! What a query that sorts gives, and when a sort may be left out.

use vstd::prelude::*;

use crate::block::all_fit;
use crate::bytes::Order;
use crate::catalog::{DbContext, TableSpec};
use crate::disk::DiskModel;
use crate::executor::keylaws::zero_pair;
use crate::executor::mergelaws::{all_zeros_agree, lemma_permuted_fit, lemma_sort_result_front,
    lemma_sort_result_permutes, lemma_sort_result_sorts};
use crate::executor::order::{lemma_sort_permutes, merge_rows, row_order, sort_rows};
use crate::executor::plan::{by_below, name_below, plan_of, reads_table, sort_satisfied,
    source_ordered, table_ordered, Facts};
use crate::executor::sorter::{cut_runs, fills_run, none_filled, sort_result, sorted_from,
    sorted_runs, stays_in_memory};
use crate::executor::sortkey::all_known;
use crate::executor::sortlaws::{all_orderly, may_precede, orderly, ties};
use crate::executor::tielaws::{lemma_sort_result_is_stable, no_zero_pair};
use crate::query::{QueryOp, SortColumn, SortSpec};
use crate::querylaws::{has_column, lemma_column_found, lemma_ordered_means, lemma_table_found,
    names, names_table, said_ordered};
use crate::row::{all_conform, column_of, conforms, row_bytes, RowModel, SchemaModel};
use crate::valuelaws::{below, comparable, lemma_order_means, no_number};

verus! {

// ── The order of rows ────────────────────────────────────────────────────────

/// In the sort column neither row comes before the other.
pub open spec fn ties_in(c: SortSpec, schema: SchemaModel, a: RowModel, b: RowModel) -> bool {
    forall|i: int| #[trigger]
        names(schema, c.column_name@, i) ==> !(comparable(a[i], b[i]) && (below(a[i], b[i])
            || below(b[i], a[i])))
}

/// In the sort column the first row comes after the second: its value is higher, or lower
/// where the column is sorted the other way.
pub open spec fn after_in(c: SortSpec, schema: SchemaModel, a: RowModel, b: RowModel) -> bool {
    exists|i: int| #[trigger]
        names(schema, c.column_name@, i) && comparable(a[i], b[i]) && if c.ascending {
            below(b[i], a[i])
        } else {
            below(a[i], b[i])
        }
}

/// The first row comes after the second: it does so in some sort column, and in none before
/// that is there a difference.
pub open spec fn ranks_after(
    specs: Seq<SortSpec>,
    schema: SchemaModel,
    a: RowModel,
    b: RowModel,
) -> bool {
    exists|k: int|
        {
            &&& 0 <= k < specs.len()
            &&& after_in(#[trigger] specs[k], schema, a, b)
            &&& forall|j: int| 0 <= j < k ==> ties_in(#[trigger] specs[j], schema, a, b)
        }
}

/// No row comes before one that it ranks after.
pub open spec fn sorted_by(specs: Seq<SortSpec>, schema: SchemaModel, rows: Seq<RowModel>) -> bool {
    forall|i: int, j: int|
        0 <= i < j < rows.len() ==> !ranks_after(
            specs,
            schema,
            #[trigger] rows[i],
            #[trigger] rows[j],
        )
}

/// The sort columns are what the list says.
pub open spec fn listed_by(cs: Seq<SortColumn>, specs: Seq<SortSpec>) -> bool {
    &&& cs.len() == specs.len()
    &&& forall|k: int| 0 <= k < specs.len() ==> #[trigger] cs[k] == specs[k].deep_view()
}

pub open spec fn all_there(specs: Seq<SortSpec>, schema: SchemaModel) -> bool {
    forall|k: int| 0 <= k < specs.len() ==> has_column(schema, (#[trigger] specs[k]).column_name@)
}

proof fn lemma_ranks_first(specs: Seq<SortSpec>, schema: SchemaModel, a: RowModel, b: RowModel)
    requires
        specs.len() > 0,
    ensures
        ranks_after(specs, schema, a, b) <==> (after_in(specs[0], schema, a, b) || (ties_in(
            specs[0],
            schema,
            a,
            b,
        ) && ranks_after(specs.drop_first(), schema, a, b))),
{
    let rest = specs.drop_first();
    if ranks_after(specs, schema, a, b) {
        let k = choose|k: int|
            {
                &&& 0 <= k < specs.len()
                &&& after_in(#[trigger] specs[k], schema, a, b)
                &&& forall|j: int| 0 <= j < k ==> ties_in(#[trigger] specs[j], schema, a, b)
            };
        if k > 0 {
            assert(ties_in(specs[0], schema, a, b));
            assert(rest[k - 1] == specs[k]);
            assert forall|j: int| 0 <= j < k - 1 implies ties_in(
                #[trigger] rest[j],
                schema,
                a,
                b,
            ) by {
                assert(rest[j] == specs[j + 1]);
            }
        }
    }
    if after_in(specs[0], schema, a, b) {
        assert(after_in(specs[0], schema, a, b));
    } else if ties_in(specs[0], schema, a, b) && ranks_after(rest, schema, a, b) {
        let k = choose|k: int|
            {
                &&& 0 <= k < rest.len()
                &&& after_in(#[trigger] rest[k], schema, a, b)
                &&& forall|j: int| 0 <= j < k ==> ties_in(#[trigger] rest[j], schema, a, b)
            };
        assert(rest[k] == specs[k + 1]);
        assert forall|j: int| 0 <= j < k + 1 implies ties_in(#[trigger] specs[j], schema, a, b) by {
            if j > 0 {
                assert(rest[j - 1] == specs[j]);
            }
        }
    }
}

/// Rows are ordered by the first sort column in which they differ, in its direction.
pub proof fn lemma_row_order_means(
    specs: Seq<SortSpec>,
    cs: Seq<SortColumn>,
    schema: SchemaModel,
    a: RowModel,
    b: RowModel,
)
    requires
        listed_by(cs, specs),
        all_there(specs, schema),
    ensures
        row_order(cs, schema, a, b) is Some,
        row_order(cs, schema, a, b) == Some(Order::Greater) <==> ranks_after(specs, schema, a, b),
        row_order(cs, schema, a, b) == Some(Order::Less) <==> ranks_after(specs, schema, b, a),
    decreases specs.len(),
{
    if specs.len() > 0 {
        let (rest, ds) = (specs.drop_first(), cs.drop_first());
        assert forall|k: int| 0 <= k < rest.len() implies #[trigger] ds[k]
            == rest[k].deep_view() by {
            assert(cs[k + 1] == specs[k + 1].deep_view());
        }
        assert forall|k: int| 0 <= k < rest.len() implies has_column(
            schema,
            (#[trigger] rest[k]).column_name@,
        ) by {
            assert(rest[k] == specs[k + 1]);
        }
        lemma_row_order_means(rest, ds, schema, a, b);
        lemma_ranks_first(specs, schema, a, b);
        lemma_ranks_first(specs, schema, b, a);
        let c = specs[0];
        assert(cs[0] == c.deep_view());
        assert(has_column(schema, c.column_name@));
        lemma_column_found(schema, c.column_name@);
        let i = column_of(schema, c.column_name@)->0;
        assert(names(schema, c.column_name@, i));
        lemma_order_means(a[i], b[i]);
        lemma_order_means(b[i], a[i]);
        assert(comparable(a[i], b[i]) <==> comparable(b[i], a[i]));
    }
}

// ── Tables that are stored in order ──────────────────────────────────────────

/// Some column of the table has the name and is said to be stored in order.
pub open spec fn stored_sorted(table: TableSpec, name: Seq<char>) -> bool {
    exists|i: int|
        {
            &&& 0 <= i < table.column_specs@.len()
            &&& (#[trigger] table.column_specs@[i]).column_name@ == name
            &&& said_ordered(table.column_specs@[i])
        }
}

/// The column of a projection that has the name comes from the column that has the other
/// name below: the first pair that gives the name says so. A name that no pair gives is the
/// same below.
pub open spec fn comes_from(
    map: Seq<(String, String)>,
    name: Seq<char>,
    other: Seq<char>,
) -> bool {
    ||| exists|i: int|
        {
            &&& 0 <= i < map.len()
            &&& (#[trigger] map[i]).1@ == name
            &&& map[i].0@ == other
            &&& forall|j: int| 0 <= j < i ==> (#[trigger] map[j]).1@ != name
        }
    ||| {
        &&& other == name
        &&& forall|j: int| 0 <= j < map.len() ==> (#[trigger] map[j]).1@ != name
    }
}

/// The columns come from those that have the other names below.
pub open spec fn all_come_from(
    map: Seq<(String, String)>,
    above: Seq<Seq<char>>,
    other: Seq<Seq<char>>,
) -> bool {
    &&& above.len() == other.len()
    &&& forall|k: int| 0 <= k < above.len() ==> comes_from(map, #[trigger] above[k], other[k])
}

/// What is below is filters and projections over a single table, and each of the columns
/// comes from one that the table is said to be stored in the order of.
pub open spec fn presorted(op: QueryOp, columns: Seq<Seq<char>>, ctx: DbContext) -> bool
    decreases op,
{
    match op {
        QueryOp::Scan(data) => exists|t: int| #[trigger]
            names_table(ctx, data.table_id@, t) && forall|k: int|
                0 <= k < columns.len() ==> stored_sorted(
                    ctx.table_specs@[t],
                    #[trigger] columns[k],
                ),
        QueryOp::Filter(data) => presorted(*data.underlying, columns, ctx),
        QueryOp::Project(data) => exists|other: Seq<Seq<char>>| #[trigger]
            all_come_from(data.column_name_map@, columns, other) && presorted(
                *data.underlying,
                other,
                ctx,
            ),
        _ => false,
    }
}

proof fn lemma_comes_from(
    raw: Seq<(String, String)>,
    map: Seq<(Seq<char>, Seq<char>)>,
    name: Seq<char>,
)
    requires
        map.len() == raw.len(),
        forall|k: int| 0 <= k < raw.len() ==> #[trigger] map[k] == (raw[k].0@, raw[k].1@),
    ensures
        forall|other: Seq<char>| #[trigger]
            comes_from(raw, name, other) <==> other == name_below(map, name),
    decreases raw.len(),
{
    if raw.len() > 0 {
        let (rest, below) = (raw.drop_first(), map.drop_first());
        assert forall|k: int| 0 <= k < rest.len() implies #[trigger] below[k] == (
            rest[k].0@,
            rest[k].1@,
        ) by {
            assert(map[k + 1] == (raw[k + 1].0@, raw[k + 1].1@));
        }
        lemma_comes_from(rest, below, name);
        assert(map[0] == (raw[0].0@, raw[0].1@));
        assert forall|j: int| 0 < j < raw.len() implies #[trigger] raw[j] == rest[j - 1] by {}
        assert forall|other: Seq<char>| #[trigger] comes_from(raw, name, other) <==> other
            == name_below(map, name) by {
            if raw[0].1@ == name {
                if comes_from(raw, name, other) {
                    assert(raw[0].1@ == name);
                }
            } else {
                assert(comes_from(rest, name, other) <==> other == name_below(below, name));
                lemma_comes_later(raw, name, other);
            }
        }
    }
}

proof fn lemma_comes_later(raw: Seq<(String, String)>, name: Seq<char>, other: Seq<char>)
    requires
        raw.len() > 0,
        raw[0].1@ != name,
    ensures
        comes_from(raw, name, other) <==> comes_from(raw.drop_first(), name, other),
{
    let rest = raw.drop_first();
    assert forall|j: int| 0 < j < raw.len() implies #[trigger] raw[j] == rest[j - 1] by {}
    assert forall|j: int| 0 <= j < rest.len() implies #[trigger] rest[j] == raw[j + 1] by {}
    if exists|i: int|
        {
            &&& 0 <= i < raw.len()
            &&& (#[trigger] raw[i]).1@ == name
            &&& raw[i].0@ == other
            &&& forall|j: int| 0 <= j < i ==> (#[trigger] raw[j]).1@ != name
        } {
        let i = choose|i: int|
            {
                &&& 0 <= i < raw.len()
                &&& (#[trigger] raw[i]).1@ == name
                &&& raw[i].0@ == other
                &&& forall|j: int| 0 <= j < i ==> (#[trigger] raw[j]).1@ != name
            };
        assert(rest[i - 1] == raw[i]);
        assert forall|j: int| 0 <= j < i - 1 implies (#[trigger] rest[j]).1@ != name by {
            assert(rest[j] == raw[j + 1]);
        }
    }
    if exists|i: int|
        {
            &&& 0 <= i < rest.len()
            &&& (#[trigger] rest[i]).1@ == name
            &&& rest[i].0@ == other
            &&& forall|j: int| 0 <= j < i ==> (#[trigger] rest[j]).1@ != name
        } {
        let i = choose|i: int|
            {
                &&& 0 <= i < rest.len()
                &&& (#[trigger] rest[i]).1@ == name
                &&& rest[i].0@ == other
                &&& forall|j: int| 0 <= j < i ==> (#[trigger] rest[j]).1@ != name
            };
        assert(rest[i] == raw[i + 1]);
        assert forall|j: int| 0 <= j < i + 1 implies (#[trigger] raw[j]).1@ != name by {
            if j > 0 {
                assert(raw[j] == rest[j - 1]);
            }
        }
    }
    if forall|j: int| 0 <= j < raw.len() ==> (#[trigger] raw[j]).1@ != name {
        assert forall|j: int| 0 <= j < rest.len() implies (#[trigger] rest[j]).1@ != name by {
            assert(rest[j] == raw[j + 1]);
        }
    }
    if forall|j: int| 0 <= j < rest.len() ==> (#[trigger] rest[j]).1@ != name {
        assert forall|j: int| 0 <= j < raw.len() implies (#[trigger] raw[j]).1@ != name by {
            if j > 0 {
                assert(raw[j] == rest[j - 1]);
            }
        }
    }
}

/// The names of some sort columns.
pub open spec fn columns_of(by: Seq<SortColumn>) -> Seq<Seq<char>> {
    Seq::new(by.len(), |k: int| by[k].column)
}

proof fn lemma_table_ordered(table: TableSpec, name: Seq<char>)
    ensures
        table_ordered(table, name) <==> stored_sorted(table, name),
{
    assert forall|i: int| 0 <= i < table.column_specs@.len() implies ((
    #[trigger] table.column_specs@[i]).is_ordered() <==> said_ordered(table.column_specs@[i])) by {
        lemma_ordered_means(table.column_specs@[i]);
    }
    if table_ordered(table, name) {
        let i = choose|i: int|
            0 <= i < table.column_specs@.len() && {
                let c = #[trigger] table.column_specs@[i];
                c.column_name@ == name && c.is_ordered()
            };
        assert(said_ordered(table.column_specs@[i]));
    }
    if stored_sorted(table, name) {
        let i = choose|i: int|
            {
                &&& 0 <= i < table.column_specs@.len()
                &&& (#[trigger] table.column_specs@[i]).column_name@ == name
                &&& said_ordered(table.column_specs@[i])
            };
        assert(table.column_specs@[i].is_ordered());
    }
}

proof fn lemma_presorted(op: QueryOp, by: Seq<SortColumn>, ctx: DbContext)
    ensures
        source_ordered(op, by, ctx) <==> presorted(op, columns_of(by), ctx),
    decreases op,
{
    let columns = columns_of(by);
    match op {
        QueryOp::Scan(data) => {
            let name = data.table_id@;
            lemma_table_found(ctx, name);
            assert forall|t: int| #[trigger] names_table(ctx, name, t) implies (source_ordered(
                op,
                by,
                ctx,
            ) <==> forall|k: int|
                0 <= k < columns.len() ==> stored_sorted(
                    ctx.table_specs@[t],
                    #[trigger] columns[k],
                )) by {
                let table = ctx.table_specs@[t];
                assert forall|k: int| 0 <= k < by.len() implies (table_ordered(
                    table,
                    (#[trigger] by[k]).column,
                ) <==> stored_sorted(table, columns[k])) by {
                    lemma_table_ordered(table, by[k].column);
                }
                if source_ordered(op, by, ctx) {
                    assert forall|k: int| 0 <= k < columns.len() implies stored_sorted(
                        table,
                        #[trigger] columns[k],
                    ) by {
                        assert(table_ordered(table, by[k].column));
                    }
                } else {
                    let k = choose|k: int|
                        0 <= k < by.len() && !table_ordered(table, (#[trigger] by[k]).column);
                    assert(!stored_sorted(table, columns[k]));
                }
            }
        },
        QueryOp::Filter(data) => lemma_presorted(*data.underlying, by, ctx),
        QueryOp::Project(data) => {
            let raw = data.column_name_map@;
            let map = data.column_name_map.deep_view();
            let under = by_below(map, by);
            lemma_presorted(*data.underlying, under, ctx);
            let other = columns_of(under);
            assert forall|k: int| 0 <= k < raw.len() implies #[trigger] map[k] == (
                raw[k].0@,
                raw[k].1@,
            ) by {}
            assert forall|k: int| 0 <= k < columns.len() implies comes_from(
                raw,
                #[trigger] columns[k],
                other[k],
            ) by {
                lemma_comes_from(raw, map, columns[k]);
            }
            assert(all_come_from(raw, columns, other));
            assert forall|x: Seq<Seq<char>>| #[trigger]
                all_come_from(raw, columns, x) implies x == other by {
                assert forall|k: int| 0 <= k < x.len() implies x[k] == other[k] by {
                    lemma_comes_from(raw, map, columns[k]);
                    assert(comes_from(raw, columns[k], x[k]));
                }
                assert(x =~= other);
            }
        },
        _ => {},
    }
}

/// The names in a list of sort columns.
pub open spec fn sorted_names(specs: Seq<SortSpec>) -> Seq<Seq<char>> {
    Seq::new(specs.len(), |k: int| specs[k].column_name@)
}

/// The rows come in the required order anyhow: every sort column is ascending, and comes from
/// a column that the single table below is said to be stored in the order of.
pub open spec fn needs_no_sort(op: QueryOp, specs: Seq<SortSpec>, ctx: DbContext) -> bool {
    &&& forall|k: int| 0 <= k < specs.len() ==> (#[trigger] specs[k]).ascending
    &&& presorted(op, sorted_names(specs), ctx)
}

/// A sort is left out exactly where the rows come in order anyhow.
pub proof fn lemma_left_out_only_where_stored(op: QueryOp, ctx: DbContext, facts: Facts)
    requires
        op is Sort,
        plan_of(*op->Sort_0.underlying, ctx, facts) is Ok,
    ensures
        plan_of(op, ctx, facts) is Ok,
        needs_no_sort(*op->Sort_0.underlying, op->Sort_0.sort_specs@, ctx) <==> plan_of(
            op,
            ctx,
            facts,
        ) == plan_of(*op->Sort_0.underlying, ctx, facts),
        sort_satisfied(
            *op->Sort_0.underlying,
            op->Sort_0.sort_specs.deep_view(),
            ctx,
        ) <==> needs_no_sort(*op->Sort_0.underlying, op->Sort_0.sort_specs@, ctx),
{
    let data = op->Sort_0;
    let by = data.sort_specs.deep_view();
    let specs = data.sort_specs@;
    lemma_presorted(*data.underlying, by, ctx);
    assert(columns_of(by) =~= sorted_names(specs));
    assert forall|k: int| 0 <= k < specs.len() implies (#[trigger] by[k]).ascending
        == specs[k].ascending by {}
    if needs_no_sort(*data.underlying, specs, ctx) {
        assert forall|k: int| 0 <= k < by.len() implies (#[trigger] by[k]).ascending by {
            assert(specs[k].ascending);
        }
    } else if forall|k: int| 0 <= k < by.len() ==> (#[trigger] by[k]).ascending {
        assert forall|k: int| 0 <= k < specs.len() implies (#[trigger] specs[k]).ascending by {
            assert(by[k].ascending);
        }
    }
    let child = plan_of(*data.underlying, ctx, facts)->Ok_0;
    lemma_sort_is_larger(child, by);
}

proof fn lemma_sort_is_larger(child: crate::executor::plan::Plan, by: Seq<SortColumn>)
    ensures
        child != (crate::executor::plan::Plan::Sort { by, child: Box::new(child) }),
    decreases child,
{
    if let crate::executor::plan::Plan::Sort { by: own, child: inner } = child {
        lemma_sort_is_larger(*inner, by);
    }
}

// ── Sort queries ─────────────────────────────────────────────────────────────

/// What a sort can be held to: its columns are there, the rows are those of their columns and
/// hold no float in a sort column that is not a number. Of rows that go to disk, each has
/// room in a block, and no two hold different zeros in a sort column but the last.
pub open spec fn can_be_sorted(
    specs: Seq<SortSpec>,
    by: Seq<SortColumn>,
    schema: SchemaModel,
    rows: Seq<RowModel>,
    block_size: nat,
) -> bool {
    &&& all_there(specs, schema)
    &&& all_conform(rows, schema)
    &&& forall|i: int, k: int, c: int|
        0 <= i < rows.len() && 0 <= k < specs.len() && #[trigger] names(
            schema,
            specs[k].column_name@,
            c,
        ) ==> !no_number((#[trigger] rows[i])[c])
    &&& !stays_in_memory(rows) ==> all_fit(rows, block_size) && all_zeros_agree(
        by,
        schema,
        rows.to_multiset(),
    )
}

proof fn lemma_orderly_rows(
    specs: Seq<SortSpec>,
    by: Seq<SortColumn>,
    schema: SchemaModel,
    rows: Seq<RowModel>,
)
    requires
        listed_by(by, specs),
        all_there(specs, schema),
        all_conform(rows, schema),
        forall|i: int, k: int, c: int|
            0 <= i < rows.len() && 0 <= k < specs.len() && #[trigger] names(
                schema,
                specs[k].column_name@,
                c,
            ) ==> !no_number((#[trigger] rows[i])[c]),
    ensures
        all_known(by, schema),
        all_orderly(by, schema, rows),
{
    assert forall|k: int| 0 <= k < by.len() implies column_of(
        schema,
        (#[trigger] by[k]).column,
    ) is Some by {
        assert(has_column(schema, specs[k].column_name@));
        lemma_column_found(schema, specs[k].column_name@);
    }
    assert forall|i: int| 0 <= i < rows.len() implies orderly(by, schema, #[trigger] rows[i]) by {
        assert(conforms(rows[i], schema));
        assert forall|k: int| 0 <= k < by.len() implies !crate::data::is_nan(
            rows[i][column_of(schema, (#[trigger] by[k]).column)->0],
        ) by {
            let name = specs[k].column_name@;
            lemma_column_found(schema, name);
            let c = column_of(schema, name)->0;
            assert(names(schema, name, c));
            lemma_order_means(rows[i][c], rows[i][c]);
        }
    }
}

/// A sort gives the rows that it gets, each as often, in the order of the sort columns.
pub proof fn lemma_sort_answers(
    specs: Seq<SortSpec>,
    by: Seq<SortColumn>,
    schema: SchemaModel,
    rows: Seq<RowModel>,
    block_size: nat,
)
    requires
        listed_by(by, specs),
        can_be_sorted(specs, by, schema, rows, block_size),
    ensures
        sort_result(by, schema, block_size, rows) matches Some(out) && {
            &&& out.to_multiset() == rows.to_multiset()
            &&& sorted_by(specs, schema, out)
        },
{
    lemma_orderly_rows(specs, by, schema, rows);
    lemma_sort_result_sorts(by, schema, block_size, rows);
    let out = sort_result(by, schema, block_size, rows)->0;
    assert forall|i: int, j: int| 0 <= i < j < out.len() implies !ranks_after(
        specs,
        schema,
        #[trigger] out[i],
        #[trigger] out[j],
    ) by {
        assert(may_precede(by, schema, out[i], out[j]));
        lemma_row_order_means(specs, by, schema, out[i], out[j]);
    }
}

/// A sort gives the rows in the order of its first columns even where one of them holds both
/// zeros of a float: only behind that one rows that went to disk may be out of order. In its
/// first column they are always in order.
pub proof fn lemma_first_columns_sorted(
    specs: Seq<SortSpec>,
    by: Seq<SortColumn>,
    schema: SchemaModel,
    rows: Seq<RowModel>,
    block_size: nat,
    n: int,
)
    requires
        listed_by(by, specs),
        0 <= n <= specs.len(),
        all_there(specs, schema),
        all_conform(rows, schema),
        forall|i: int, k: int, c: int|
            0 <= i < rows.len() && 0 <= k < specs.len() && #[trigger] names(
                schema,
                specs[k].column_name@,
                c,
            ) ==> !no_number((#[trigger] rows[i])[c]),
        !stays_in_memory(rows) ==> all_fit(rows, block_size) && (n <= 1 || all_zeros_agree(
            by.take(n),
            schema,
            rows.to_multiset(),
        )),
    ensures
        sort_result(by, schema, block_size, rows) matches Some(out) && {
            &&& out.to_multiset() == rows.to_multiset()
            &&& sorted_by(specs.take(n), schema, out)
        },
{
    lemma_orderly_rows(specs, by, schema, rows);
    lemma_sort_result_front(by, n, schema, block_size, rows);
    let out = sort_result(by, schema, block_size, rows)->0;
    let (ss, fs) = (specs.take(n), by.take(n));
    assert forall|k: int| 0 <= k < ss.len() implies #[trigger] fs[k] == ss[k].deep_view() by {
        assert(by[k] == specs[k].deep_view());
    }
    assert forall|k: int| 0 <= k < ss.len() implies has_column(
        schema,
        (#[trigger] ss[k]).column_name@,
    ) by {
        assert(ss[k] == specs[k]);
    }
    assert forall|i: int, j: int| 0 <= i < j < out.len() implies !ranks_after(
        ss,
        schema,
        #[trigger] out[i],
        #[trigger] out[j],
    ) by {
        assert(may_precede(fs, schema, out[i], out[j]));
        lemma_row_order_means(ss, fs, schema, out[i], out[j]);
    }
}

/// A query that sorts gives the rows below it, each as often, in the order of the sort
/// columns, unless they come from a table that is said to be stored in that order.
pub proof fn lemma_sort_query(op: QueryOp, ctx: DbContext, facts: Facts, d: DiskModel)
    requires
        op is Sort,
        plan_of(*op->Sort_0.underlying, ctx, facts) is Ok,
        plan_of(*op->Sort_0.underlying, ctx, facts)->Ok_0.rows(d) is Some,
        !needs_no_sort(*op->Sort_0.underlying, op->Sort_0.sort_specs@, ctx),
        can_be_sorted(
            op->Sort_0.sort_specs@,
            op->Sort_0.sort_specs.deep_view(),
            plan_of(*op->Sort_0.underlying, ctx, facts)->Ok_0.columns(),
            plan_of(*op->Sort_0.underlying, ctx, facts)->Ok_0.rows(d)->0,
            d.block_size,
        ),
    ensures
        ({
            let child = plan_of(*op->Sort_0.underlying, ctx, facts)->Ok_0;
            plan_of(op, ctx, facts) matches Ok(plan) && {
                &&& plan.columns() == child.columns()
                &&& plan.rows(d) matches Some(out) && {
                    &&& out.to_multiset() == child.rows(d)->0.to_multiset()
                    &&& sorted_by(op->Sort_0.sort_specs@, child.columns(), out)
                }
            }
        }),
{
    let data = op->Sort_0;
    let child = plan_of(*data.underlying, ctx, facts)->Ok_0;
    let by = data.sort_specs.deep_view();
    lemma_left_out_only_where_stored(op, ctx, facts);
    assert(listed_by(by, data.sort_specs@));
    lemma_sort_answers(
        data.sort_specs@,
        by,
        child.columns(),
        child.rows(d)->0,
        d.block_size,
    );
}

/// No column of any table that the query reads is said to be stored in order.
pub open spec fn nothing_stored_sorted(op: QueryOp, ctx: DbContext) -> bool {
    forall|t: int, i: int|
        #![trigger ctx.table_specs@[t].column_specs@[i]]
        {
            &&& 0 <= t < ctx.table_specs@.len()
            &&& reads_table(op, ctx.table_specs@[t].name@)
            &&& 0 <= i < ctx.table_specs@[t].column_specs@.len()
        } ==> !said_ordered(ctx.table_specs@[t].column_specs@[i])
}

proof fn lemma_nothing_presorted(op: QueryOp, columns: Seq<Seq<char>>, ctx: DbContext)
    requires
        nothing_stored_sorted(op, ctx),
        columns.len() > 0,
    ensures
        !presorted(op, columns, ctx),
    decreases op,
{
    if presorted(op, columns, ctx) {
        match op {
            QueryOp::Scan(data) => {
                let t = choose|t: int| #[trigger]
                    names_table(ctx, data.table_id@, t) && forall|k: int|
                        0 <= k < columns.len() ==> stored_sorted(
                            ctx.table_specs@[t],
                            #[trigger] columns[k],
                        );
                let table = ctx.table_specs@[t];
                assert(stored_sorted(table, columns[0]));
                let i = choose|i: int|
                    {
                        &&& 0 <= i < table.column_specs@.len()
                        &&& (#[trigger] table.column_specs@[i]).column_name@ == columns[0]
                        &&& said_ordered(table.column_specs@[i])
                    };
                assert(!said_ordered(ctx.table_specs@[t].column_specs@[i]));
            },
            QueryOp::Filter(data) => {
                assert(nothing_stored_sorted(*data.underlying, ctx));
                lemma_nothing_presorted(*data.underlying, columns, ctx);
            },
            QueryOp::Project(data) => {
                assert(nothing_stored_sorted(*data.underlying, ctx));
                let other = choose|other: Seq<Seq<char>>| #[trigger]
                    all_come_from(data.column_name_map@, columns, other) && presorted(
                        *data.underlying,
                        other,
                        ctx,
                    );
                lemma_nothing_presorted(*data.underlying, other, ctx);
            },
            _ => {},
        }
    }
}

/// A query that sorts what comes of tables of which no column is said to be stored in order
/// gives the rows in the order of the sort columns, however the tables are stored.
pub proof fn lemma_unordered_tables_are_sorted(
    op: QueryOp,
    ctx: DbContext,
    facts: Facts,
    d: DiskModel,
)
    requires
        op is Sort,
        nothing_stored_sorted(*op->Sort_0.underlying, ctx),
        plan_of(*op->Sort_0.underlying, ctx, facts) is Ok,
        plan_of(*op->Sort_0.underlying, ctx, facts)->Ok_0.rows(d) is Some,
        can_be_sorted(
            op->Sort_0.sort_specs@,
            op->Sort_0.sort_specs.deep_view(),
            plan_of(*op->Sort_0.underlying, ctx, facts)->Ok_0.columns(),
            plan_of(*op->Sort_0.underlying, ctx, facts)->Ok_0.rows(d)->0,
            d.block_size,
        ),
    ensures
        ({
            let child = plan_of(*op->Sort_0.underlying, ctx, facts)->Ok_0;
            plan_of(op, ctx, facts) matches Ok(plan) && {
                &&& plan.columns() == child.columns()
                &&& plan.rows(d) matches Some(out) && {
                    &&& out.to_multiset() == child.rows(d)->0.to_multiset()
                    &&& sorted_by(op->Sort_0.sort_specs@, child.columns(), out)
                }
            }
        }),
{
    let specs = op->Sort_0.sort_specs@;
    let under = *op->Sort_0.underlying;
    if specs.len() > 0 {
        lemma_nothing_presorted(under, sorted_names(specs), ctx);
        lemma_sort_query(op, ctx, facts, d);
    } else if needs_no_sort(under, specs, ctx) {
        lemma_left_out_only_where_stored(op, ctx, facts);
    } else {
        lemma_sort_query(op, ctx, facts, d);
    }
}

// ── Columns that are not there ───────────────────────────────────────────────

/// A sort column is not there, and no two rows differ in those before it.
pub open spec fn needs_missing(
    specs: Seq<SortSpec>,
    schema: SchemaModel,
    rows: Seq<RowModel>,
    k: int,
) -> bool {
    &&& 0 <= k < specs.len()
    &&& !has_column(schema, specs[k].column_name@)
    &&& forall|j: int, a: RowModel, b: RowModel|
        0 <= j < k && rows.contains(a) && rows.contains(b) ==> #[trigger] ties_in(
            specs[j],
            schema,
            a,
            b,
        ) && has_column(schema, specs[j].column_name@)
}

proof fn lemma_no_order(
    specs: Seq<SortSpec>,
    by: Seq<SortColumn>,
    schema: SchemaModel,
    rows: Seq<RowModel>,
    a: RowModel,
    b: RowModel,
    k: int,
)
    requires
        listed_by(by, specs),
        needs_missing(specs, schema, rows, k),
        rows.contains(a),
        rows.contains(b),
    ensures
        row_order(by, schema, a, b) is None,
    decreases specs.len(),
{
    let c = specs[0];
    lemma_column_found(schema, c.column_name@);
    assert(by[0] == c.deep_view());
    if k > 0 {
        assert(ties_in(specs[0], schema, a, b) && has_column(schema, specs[0].column_name@));
        let i = column_of(schema, c.column_name@)->0;
        assert(names(schema, c.column_name@, i));
        lemma_order_means(a[i], b[i]);
        let (rest, ds) = (specs.drop_first(), by.drop_first());
        assert forall|m: int| 0 <= m < rest.len() implies #[trigger] ds[m]
            == rest[m].deep_view() by {
            assert(by[m + 1] == specs[m + 1].deep_view());
        }
        assert(rest[k - 1] == specs[k]);
        assert forall|j: int, x: RowModel, y: RowModel|
            0 <= j < k - 1 && rows.contains(x) && rows.contains(y) implies #[trigger] ties_in(
            rest[j],
            schema,
            x,
            y,
        ) && has_column(schema, rest[j].column_name@) by {
            assert(rest[j] == specs[j + 1]);
            assert(ties_in(specs[j + 1], schema, x, y));
        }
        lemma_no_order(rest, ds, schema, rows, a, b, k - 1);
    }
}

proof fn lemma_no_sort(
    specs: Seq<SortSpec>,
    by: Seq<SortColumn>,
    schema: SchemaModel,
    all: Seq<RowModel>,
    rows: Seq<RowModel>,
    k: int,
)
    requires
        listed_by(by, specs),
        needs_missing(specs, schema, all, k),
        forall|i: int| 0 <= i < rows.len() ==> all.contains(#[trigger] rows[i]),
        rows.len() >= 2,
    ensures
        sort_rows(by, schema, rows) is None,
    decreases rows.len(),
{
    let half = (rows.len() / 2) as int;
    let (x, y) = (rows.take(half), rows.skip(half));
    if y.len() >= 2 {
        assert forall|i: int| 0 <= i < y.len() implies all.contains(#[trigger] y[i]) by {
            assert(y[i] == rows[half + i]);
        }
        lemma_no_sort(specs, by, schema, all, y, k);
    } else {
        assert(all.contains(rows[0]) && all.contains(rows[1]));
        assert(x[0] == rows[0] && y[0] == rows[1]);
        lemma_no_order(specs, by, schema, all, rows[0], rows[1], k);
        assert(sort_rows(by, schema, x) == Some(x));
        assert(sort_rows(by, schema, y) == Some(y));
        assert(merge_rows(by, schema, x, y) is None);
    }
}

/// Rows that have to be compared in a column that is not there are not sorted.
pub proof fn lemma_missing_column_refused(
    specs: Seq<SortSpec>,
    by: Seq<SortColumn>,
    schema: SchemaModel,
    rows: Seq<RowModel>,
    block_size: nat,
    k: int,
)
    requires
        listed_by(by, specs),
        needs_missing(specs, schema, rows, k),
        rows.len() >= 2,
    ensures
        sort_result(by, schema, block_size, rows) is None,
{
    reveal(sorted_from);
    let none = Seq::<RowModel>::empty();
    assert(none + rows =~= rows);
    assert forall|i: int| 0 <= i < rows.len() implies rows.contains(#[trigger] rows[i]) by {}
    lemma_no_sort(specs, by, schema, rows, rows, k);
    lemma_column_found(schema, specs[k].column_name@);
    assert(by[k] == specs[k].deep_view());
    assert(!all_known(by, schema)) by {
        assert(column_of(schema, by[k].column) is None);
    }
}

// ── Rows that tie ────────────────────────────────────────────────────────────

/// Neither row ranks after the other.
pub open spec fn tied(specs: Seq<SortSpec>, schema: SchemaModel, x: RowModel) -> spec_fn(
    RowModel,
) -> bool {
    |r: RowModel| !ranks_after(specs, schema, x, r) && !ranks_after(specs, schema, r, x)
}

proof fn lemma_ties_means(
    specs: Seq<SortSpec>,
    by: Seq<SortColumn>,
    schema: SchemaModel,
    x: RowModel,
    rows: Seq<RowModel>,
)
    requires
        listed_by(by, specs),
        all_there(specs, schema),
    ensures
        ties(by, schema, x, rows) == rows.filter(tied(specs, schema, x)),
    decreases rows.len(),
{
    let p = tied(specs, schema, x);
    reveal(Seq::filter);
    if rows.len() > 0 {
        let rest = rows.drop_first();
        let one = seq![rows[0]];
        lemma_ties_means(specs, by, schema, x, rest);
        lemma_row_order_means(specs, by, schema, x, rows[0]);
        Seq::filter_distributes_over_add(one, rest, p);
        assert(rows =~= one + rest);
        assert(one.drop_last() =~= Seq::<RowModel>::empty());
        assert(one.drop_last().filter(p) =~= Seq::<RowModel>::empty());
        let order = row_order(by, schema, x, rows[0])->0;
        assert(order == Order::Less || order == Order::Equal || order == Order::Greater);
        assert(p(rows[0]) <==> order == Order::Equal);
        if p(rows[0]) {
            assert(one.last() == rows[0]);
            assert(one.filter(p) =~= one);
            assert(rows.filter(p) == one + rest.filter(p));
        } else {
            assert(one.filter(p) =~= Seq::<RowModel>::empty());
            assert(Seq::<RowModel>::empty() + rest.filter(p) =~= rest.filter(p));
        }
    } else {
        assert(ties(by, schema, x, rows) =~= rows.filter(p));
    }
}

/// No two rows hold different values in a sort column of which neither is below the other,
/// as the two zeros of a float are.
pub open spec fn ties_are_equal(
    specs: Seq<SortSpec>,
    schema: SchemaModel,
    rows: Seq<RowModel>,
) -> bool {
    forall|i: int, j: int, k: int, c: int|
        0 <= i < rows.len() && 0 <= j < rows.len() && 0 <= k < specs.len() && #[trigger] names(
            schema,
            specs[k].column_name@,
            c,
        ) && !below((#[trigger] rows[i])[c], (#[trigger] rows[j])[c]) && !below(
            rows[j][c],
            rows[i][c],
        ) ==> rows[i][c] == rows[j][c]
}

/// A sort keeps rows that tie as they came: the rows that tie with one of them are the same
/// before and after, in the same order. Of rows that go to disk, each has to have room in a
/// block, and values that tie have to be equal.
pub proof fn lemma_ties_keep_their_order(
    specs: Seq<SortSpec>,
    by: Seq<SortColumn>,
    schema: SchemaModel,
    rows: Seq<RowModel>,
    block_size: nat,
    i: int,
)
    requires
        listed_by(by, specs),
        all_there(specs, schema),
        all_conform(rows, schema),
        forall|i: int, k: int, c: int|
            0 <= i < rows.len() && 0 <= k < specs.len() && #[trigger] names(
                schema,
                specs[k].column_name@,
                c,
            ) ==> !no_number((#[trigger] rows[i])[c]),
        !stays_in_memory(rows) ==> all_fit(rows, block_size) && ties_are_equal(
            specs,
            schema,
            rows,
        ),
        0 <= i < rows.len(),
    ensures
        sort_result(by, schema, block_size, rows) matches Some(out) && out.filter(
            tied(specs, schema, rows[i]),
        ) == rows.filter(tied(specs, schema, rows[i])),
{
    broadcast use vstd::seq_lib::group_to_multiset_ensures;

    lemma_orderly_rows(specs, by, schema, rows);
    if !stays_in_memory(rows) {
        assert forall|a: RowModel, b: RowModel|
            #![trigger rows.to_multiset().count(a), rows.to_multiset().count(b)]
            rows.to_multiset().count(a) > 0 && rows.to_multiset().count(
                b,
            ) > 0 implies no_zero_pair(by, schema, a, b) by {
            assert(rows.contains(a) && rows.contains(b));
            let p = choose|p: int| 0 <= p < rows.len() && rows[p] == a;
            let q = choose|q: int| 0 <= q < rows.len() && rows[q] == b;
            assert forall|k: int| 0 <= k < by.len() implies {
                let c = column_of(schema, (#[trigger] by[k]).column)->0;
                !zero_pair(a[c], b[c])
            } by {
                let name = specs[k].column_name@;
                assert(by[k] == specs[k].deep_view());
                assert(has_column(schema, name));
                lemma_column_found(schema, name);
                let c = column_of(schema, name)->0;
                assert(names(schema, name, c));
                lemma_order_means(rows[p][c], rows[q][c]);
                if zero_pair(a[c], b[c]) {
                    assert(!below(rows[p][c], rows[q][c]) && !below(rows[q][c], rows[p][c]));
                    assert(rows[p][c] == rows[q][c]);
                }
            }
        }
    }
    assert(orderly(by, schema, rows[i]));
    lemma_sort_result_is_stable(by, schema, block_size, rows, rows[i]);
    let out = sort_result(by, schema, block_size, rows)->0;
    lemma_ties_means(specs, by, schema, rows[i], rows);
    lemma_ties_means(specs, by, schema, rows[i], out);
}

/// Rows whose sort columns are there have an order, whatever they hold, so that a sort gives
/// them all. Of rows that go to disk, each has to have room in a block.
pub proof fn lemma_sort_gives_all(
    specs: Seq<SortSpec>,
    by: Seq<SortColumn>,
    schema: SchemaModel,
    rows: Seq<RowModel>,
    block_size: nat,
)
    requires
        listed_by(by, specs),
        all_there(specs, schema),
        stays_in_memory(rows) || all_fit(rows, block_size),
    ensures
        sort_result(by, schema, block_size, rows) matches Some(out) && out.to_multiset()
            == rows.to_multiset(),
{
    reveal(sorted_from);
    let none = Seq::<RowModel>::empty();
    let runs = cut_runs(none, rows);
    assert(none + rows =~= rows);
    if none_filled(runs) {
        lemma_sort_has_rows(specs, by, schema, rows);
    } else {
        lemma_runs_fit(none, rows, block_size);
        lemma_runs_have_rows(specs, by, schema, block_size, runs);
        assert forall|k: int| 0 <= k < by.len() implies column_of(
            schema,
            (#[trigger] by[k]).column,
        ) is Some by {
            assert(has_column(schema, specs[k].column_name@));
            lemma_column_found(schema, specs[k].column_name@);
        }
    }
    lemma_sort_result_permutes(by, schema, block_size, rows);
}

/// No row of a run is larger than those that were given.
proof fn lemma_runs_fit(open: Seq<RowModel>, rest: Seq<RowModel>, block_size: nat)
    requires
        all_fit(open, block_size),
        all_fit(rest, block_size),
    ensures
        forall|i: int|
            0 <= i < cut_runs(open, rest).len() ==> all_fit(
                #[trigger] cut_runs(open, rest)[i],
                block_size,
            ),
    decreases rest.len(),
{
    if rest.len() > 0 {
        let more = open.push(rest[0]);
        let later = rest.drop_first();
        let none = Seq::<RowModel>::empty();
        assert forall|i: int| 0 <= i < later.len() implies row_bytes(#[trigger] later[i]).len()
            <= block_size - 2 by {
            assert(later[i] == rest[i + 1]);
        }
        assert forall|i: int| 0 <= i < more.len() implies row_bytes(#[trigger] more[i]).len()
            <= block_size - 2 by {
            if i < open.len() {
                assert(more[i] == open[i]);
            } else {
                assert(more[i] == rest[0]);
            }
        }
        lemma_runs_fit(none, later, block_size);
        lemma_runs_fit(more, later, block_size);
        if fills_run(more) {
            let after = cut_runs(none, later);
            let all = seq![more] + after;
            assert forall|i: int| 0 <= i < all.len() implies all_fit(
                #[trigger] all[i],
                block_size,
            ) by {
                if i > 0 {
                    assert(all[i] == after[i - 1]);
                }
            }
            assert(cut_runs(open, rest) == all);
        } else {
            assert(cut_runs(open, rest) == cut_runs(more, later));
        }
    } else if open.len() > 0 {
        let all = cut_runs(open, rest);
        assert(all =~= seq![open]);
        assert forall|i: int| 0 <= i < all.len() implies all_fit(
            #[trigger] all[i],
            block_size,
        ) by {
            assert(all[i] == open);
        }
    }
}

proof fn lemma_runs_have_rows(
    specs: Seq<SortSpec>,
    by: Seq<SortColumn>,
    schema: SchemaModel,
    block_size: nat,
    runs: Seq<Seq<RowModel>>,
)
    requires
        listed_by(by, specs),
        all_there(specs, schema),
        forall|i: int| 0 <= i < runs.len() ==> all_fit(#[trigger] runs[i], block_size),
    ensures
        sorted_runs(by, schema, block_size, runs) is Some,
    decreases runs.len(),
{
    if runs.len() > 0 {
        let rest = runs.drop_first();
        assert forall|i: int| 0 <= i < rest.len() implies all_fit(
            #[trigger] rest[i],
            block_size,
        ) by {
            assert(rest[i] == runs[i + 1]);
        }
        lemma_runs_have_rows(specs, by, schema, block_size, rest);
        lemma_sort_has_rows(specs, by, schema, runs[0]);
        lemma_sort_permutes(by, schema, runs[0]);
        lemma_permuted_fit(runs[0], sort_rows(by, schema, runs[0])->0, block_size);
    }
}

proof fn lemma_merge_has_rows(
    specs: Seq<SortSpec>,
    by: Seq<SortColumn>,
    schema: SchemaModel,
    a: Seq<RowModel>,
    b: Seq<RowModel>,
)
    requires
        listed_by(by, specs),
        all_there(specs, schema),
    ensures
        merge_rows(by, schema, a, b) is Some,
    decreases a.len() + b.len(),
{
    if a.len() > 0 && b.len() > 0 {
        lemma_row_order_means(specs, by, schema, a[0], b[0]);
        lemma_merge_has_rows(specs, by, schema, a, b.drop_first());
        lemma_merge_has_rows(specs, by, schema, a.drop_first(), b);
    }
}

proof fn lemma_sort_has_rows(
    specs: Seq<SortSpec>,
    by: Seq<SortColumn>,
    schema: SchemaModel,
    rows: Seq<RowModel>,
)
    requires
        listed_by(by, specs),
        all_there(specs, schema),
    ensures
        sort_rows(by, schema, rows) is Some,
    decreases rows.len(),
{
    if rows.len() > 1 {
        let half = (rows.len() / 2) as int;
        let (x, y) = (rows.take(half), rows.skip(half));
        lemma_sort_has_rows(specs, by, schema, x);
        lemma_sort_has_rows(specs, by, schema, y);
        lemma_merge_has_rows(
            specs,
            by,
            schema,
            sort_rows(by, schema, x)->0,
            sort_rows(by, schema, y)->0,
        );
    }
}

} // verus!
