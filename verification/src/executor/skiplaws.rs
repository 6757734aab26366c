//! What leaving out a sort promises: the rows come in order anyhow.

use vstd::prelude::*;

use crate::bytes::Order;
use crate::catalog::{table_of, DbContext};
use crate::data::{value_order, Value};
use crate::disk::DiskModel;
use crate::executor::filter::filter_rows;
use crate::executor::joinlaws::{kept_places, lemma_filter_keeps};
use crate::executor::plan::{by_below, leaves_of, name_below, plan_of, scan_plan, sort_satisfied,
    source_ordered, table_ordered, Facts};
use crate::executor::planlaws::value_named;
use crate::executor::project::{missing, picked, project_row, project_rows, renamed};
use crate::executor::sortkey::all_known;
use crate::executor::sortlaws::{in_order, may_precede};
use crate::query::{QueryOp, SortColumn};
use crate::row::{column_of, lemma_column_of, RowModel, SchemaModel};

verus! {

/// One value is not above another.
pub open spec fn not_above(u: Value, v: Value) -> bool {
    value_order(u, v) matches Some(o) && o != Order::Greater
}

/// The values under the name do not fall from row to row.
pub open spec fn rises(schema: SchemaModel, rows: Seq<RowModel>, name: Seq<char>) -> bool {
    &&& column_of(schema, name) is Some
    &&& forall|i: int, j: int|
        0 <= i < j < rows.len() ==> not_above(
            (#[trigger] rows[i])[column_of(schema, name)->0],
            (#[trigger] rows[j])[column_of(schema, name)->0],
        )
}

/// The rows do not fall in any of the sort columns.
pub open spec fn all_rise(
    by: Seq<SortColumn>,
    schema: SchemaModel,
    rows: Seq<RowModel>,
) -> bool {
    forall|k: int| 0 <= k < by.len() ==> rises(schema, rows, (#[trigger] by[k]).column)
}

/// Rows that fall in no sort column are in the order of all of them, all ascending.
proof fn lemma_rising_rows(
    by: Seq<SortColumn>,
    schema: SchemaModel,
    rows: Seq<RowModel>,
    i: int,
    j: int,
)
    requires
        forall|k: int| 0 <= k < by.len() ==> (#[trigger] by[k]).ascending,
        all_rise(by, schema, rows),
        0 <= i < j < rows.len(),
    ensures
        may_precede(by, schema, rows[i], rows[j]),
    decreases by.len(),
{
    if by.len() > 0 {
        let rest = by.drop_first();
        assert forall|k: int| 0 <= k < rest.len() implies (#[trigger] rest[k]).ascending && rises(
            schema,
            rows,
            rest[k].column,
        ) by {
            assert(rest[k] == by[k + 1]);
        }
        lemma_rising_rows(rest, schema, rows, i, j);
        assert(rises(schema, rows, by[0].column));
        let c = column_of(schema, by[0].column)->0;
        assert(not_above(rows[i][c], rows[j][c]));
        assert(by[0].ascending);
    }
}

// ── Filters and projections ──────────────────────────────────────────────────

/// A filter keeps rows in their order.
proof fn lemma_filter_rises(
    conditions: Seq<crate::query::Condition>,
    schema: SchemaModel,
    rows: Seq<RowModel>,
    name: Seq<char>,
)
    requires
        rises(schema, rows, name),
        filter_rows(conditions, schema, rows) is Some,
    ensures
        rises(schema, filter_rows(conditions, schema, rows)->0, name),
{
    lemma_filter_keeps(conditions, schema, rows);
    let places = kept_places(conditions, schema, rows);
    let out = filter_rows(conditions, schema, rows)->0;
    let c = column_of(schema, name)->0;
    assert forall|i: int, j: int| 0 <= i < j < out.len() implies not_above(
        (#[trigger] out[i])[c],
        (#[trigger] out[j])[c],
    ) by {
        assert(places[i] < places[j]);
        assert(0 <= places[i] < rows.len() && 0 <= places[j] < rows.len());
        assert(out[i] == rows[places[i]] && out[j] == rows[places[j]]);
    }
}

/// The place of the first pair of a projection that gives a name.
proof fn lemma_name_below(map: Seq<(Seq<char>, Seq<char>)>, name: Seq<char>, i: int)
    requires
        0 <= i < map.len(),
        map[i].1 == name,
        forall|j: int| 0 <= j < i ==> (#[trigger] map[j]).1 != name,
    ensures
        name_below(map, name) == map[i].0,
    decreases map.len(),
{
    if i > 0 {
        let rest = map.drop_first();
        assert(map[0].1 != name);
        assert forall|j: int| 0 <= j < i - 1 implies (#[trigger] rest[j]).1 != name by {
            assert(rest[j] == map[j + 1]);
        }
        lemma_name_below(rest, name, i - 1);
    }
}

proof fn lemma_picked_place(map: Seq<(Seq<char>, Seq<char>)>, schema: SchemaModel, i: int)
    requires
        picked(map, schema) is Some,
        0 <= i < map.len(),
    ensures
        picked(map, schema)->0.len() == map.len(),
        column_of(schema, map[i].0) == Some(picked(map, schema)->0[i]),
    decreases map.len(),
{
    if i < map.len() - 1 {
        lemma_picked_place(map.drop_last(), schema, i);
    } else if map.len() > 1 {
        lemma_picked_place(map.drop_last(), schema, 0);
    }
}

/// A projection gives under a name the values of the column that the name comes from.
proof fn lemma_project_keeps(
    map: Seq<(Seq<char>, Seq<char>)>,
    schema: SchemaModel,
    row: RowModel,
    name: Seq<char>,
)
    requires
        picked(map, schema) is Some,
        column_of(renamed(map, picked(map, schema)->0, schema), name) is Some,
    ensures
        value_named(
            renamed(map, picked(map, schema)->0, schema),
            project_row(picked(map, schema)->0, row),
            name,
        ) == value_named(schema, row, name_below(map, name)),
{
    let places = picked(map, schema)->0;
    let columns = renamed(map, places, schema);
    lemma_column_of(columns, name);
    let i = column_of(columns, name)->0;
    assert forall|j: int| 0 <= j < i implies (#[trigger] map[j]).1 != name by {
        assert(columns[j].0 != name);
    }
    lemma_name_below(map, name, i);
    lemma_picked_place(map, schema, i);
    assert(project_row(places, row)[i] == row[places[i]]);
}

proof fn lemma_project_rises(
    map: Seq<(Seq<char>, Seq<char>)>,
    schema: SchemaModel,
    rows: Seq<RowModel>,
    name: Seq<char>,
)
    requires
        picked(map, schema) is Some,
        column_of(renamed(map, picked(map, schema)->0, schema), name) is Some,
        rises(schema, rows, name_below(map, name)),
    ensures
        rises(
            renamed(map, picked(map, schema)->0, schema),
            project_rows(picked(map, schema)->0, rows),
            name,
        ),
{
    let places = picked(map, schema)->0;
    let columns = renamed(map, places, schema);
    let out = project_rows(places, rows);
    let (c, k) = (column_of(schema, name_below(map, name))->0, column_of(columns, name)->0);
    assert forall|i: int| 0 <= i < rows.len() implies (#[trigger] out[i])[k] == rows[i][c] by {
        lemma_project_keeps(map, schema, rows[i], name);
    }
    assert forall|i: int, j: int| 0 <= i < j < out.len() implies not_above(
        (#[trigger] out[i])[k],
        (#[trigger] out[j])[k],
    ) by {
        assert(out[i][k] == rows[i][c] && out[j][k] == rows[j][c]);
    }
}

/// A column that a projection gives comes from a column that is there.
proof fn lemma_below_known(
    map: Seq<(Seq<char>, Seq<char>)>,
    schema: SchemaModel,
    by: Seq<SortColumn>,
)
    requires
        picked(map, schema) is Some,
        all_known(by, renamed(map, picked(map, schema)->0, schema)),
    ensures
        all_known(by_below(map, by), schema),
{
    let columns = renamed(map, picked(map, schema)->0, schema);
    let below = by_below(map, by);
    assert forall|k: int| 0 <= k < below.len() implies column_of(
        schema,
        (#[trigger] below[k]).column,
    ) is Some by {
        let name = by[k].column;
        assert(column_of(columns, name) is Some);
        lemma_project_keeps(map, schema, Seq::empty(), name);
    }
}

// ── Queries ──────────────────────────────────────────────────────────────────

/// The scan below filters and projections gives rows that do not fall in any column that
/// the table is said to be ordered by.
pub open spec fn stored_in_order(op: QueryOp, ctx: DbContext, facts: Facts, d: DiskModel) -> bool
    decreases op,
{
    match op {
        QueryOp::Scan(data) => match (
            table_of(ctx.table_specs@, data.table_id@),
            scan_plan(data.table_id@, ctx, facts),
        ) {
            (Some(table), Ok(plan)) => plan.rows(d) matches Some(rows) ==> forall|name: Seq<char>|
                #[trigger] table_ordered(table, name) ==> rises(table.columns(), rows, name),
            _ => true,
        },
        QueryOp::Filter(data) => stored_in_order(*data.underlying, ctx, facts, d),
        QueryOp::Project(data) => stored_in_order(*data.underlying, ctx, facts, d),
        _ => true,
    }
}

/// What is below filters and projections is one side.
proof fn lemma_one_leaf(op: QueryOp, by: Seq<SortColumn>, ctx: DbContext, facts: Facts)
    requires
        source_ordered(op, by, ctx),
    ensures
        leaves_of(op, ctx, facts) matches Ok(leaves) ==> leaves.len() == 1,
    decreases op,
{
    if let QueryOp::Filter(data) = op {
        lemma_one_leaf(*data.underlying, by, ctx, facts);
    }
}

proof fn lemma_source_rises(
    op: QueryOp,
    by: Seq<SortColumn>,
    ctx: DbContext,
    facts: Facts,
    d: DiskModel,
)
    requires
        source_ordered(op, by, ctx),
        stored_in_order(op, ctx, facts, d),
        plan_of(op, ctx, facts) matches Ok(plan) ==> all_known(by, plan.columns()),
    ensures
        plan_of(op, ctx, facts) matches Ok(plan) ==> (plan.rows(d) matches Some(rows) ==> all_rise(
            by,
            plan.columns(),
            rows,
        )),
    decreases op,
{
    if let Ok(plan) = plan_of(op, ctx, facts) {
        if let Some(rows) = plan.rows(d) {
            match op {
                QueryOp::Scan(data) => {
                    let table = table_of(ctx.table_specs@, data.table_id@)->0;
                    assert forall|k: int| 0 <= k < by.len() implies rises(
                        plan.columns(),
                        rows,
                        (#[trigger] by[k]).column,
                    ) by {
                        assert(table_ordered(table, by[k].column));
                    }
                },
                QueryOp::Filter(data) => {
                    lemma_one_leaf(op, by, ctx, facts);
                    lemma_source_rises(*data.underlying, by, ctx, facts, d);
                    let child = plan_of(*data.underlying, ctx, facts)->Ok_0;
                    let inner = child.rows(d)->0;
                    let conditions = data.predicates.deep_view();
                    assert forall|k: int| 0 <= k < by.len() implies rises(
                        plan.columns(),
                        rows,
                        (#[trigger] by[k]).column,
                    ) by {
                        assert(rises(child.columns(), inner, by[k].column));
                        lemma_filter_rises(conditions, child.columns(), inner, by[k].column);
                    }
                },
                QueryOp::Project(data) => {
                    let child = plan_of(*data.underlying, ctx, facts)->Ok_0;
                    let inner = child.rows(d)->0;
                    let map = data.column_name_map.deep_view();
                    let below = by_below(map, by);
                    lemma_missing_none(map, child.columns());
                    lemma_below_known(map, child.columns(), by);
                    lemma_source_rises(*data.underlying, below, ctx, facts, d);
                    assert forall|k: int| 0 <= k < by.len() implies rises(
                        plan.columns(),
                        rows,
                        (#[trigger] by[k]).column,
                    ) by {
                        assert(rises(child.columns(), inner, below[k].column));
                        assert(column_of(plan.columns(), by[k].column) is Some);
                        lemma_project_rises(map, child.columns(), inner, by[k].column);
                    }
                },
                _ => {},
            }
        }
    }
}

proof fn lemma_missing_none(map: Seq<(Seq<char>, Seq<char>)>, schema: SchemaModel)
    requires
        missing(map, schema) is None,
    ensures
        picked(map, schema) is Some,
    decreases map.len(),
{
    if map.len() > 0 {
        lemma_missing_none(map.drop_last(), schema);
    }
}

/// A sort that is left out would have changed nothing: where the sort columns are there, the
/// rows come in their order, if the table is stored in the order of the columns that are
/// said to be ordered.
pub proof fn lemma_sort_may_be_left_out(
    op: QueryOp,
    by: Seq<SortColumn>,
    ctx: DbContext,
    facts: Facts,
    d: DiskModel,
)
    requires
        sort_satisfied(op, by, ctx),
        stored_in_order(op, ctx, facts, d),
        plan_of(op, ctx, facts) is Ok,
        plan_of(op, ctx, facts)->Ok_0.rows(d) is Some,
        all_known(by, plan_of(op, ctx, facts)->Ok_0.columns()),
    ensures
        in_order(
            by,
            plan_of(op, ctx, facts)->Ok_0.columns(),
            plan_of(op, ctx, facts)->Ok_0.rows(d)->0,
        ),
{
    let plan = plan_of(op, ctx, facts)->Ok_0;
    let rows = plan.rows(d)->0;
    lemma_source_rises(op, by, ctx, facts, d);
    assert forall|i: int, j: int| 0 <= i < j < rows.len() implies may_precede(
        by,
        plan.columns(),
        #[trigger] rows[i],
        #[trigger] rows[j],
    ) by {
        lemma_rising_rows(by, plan.columns(), rows, i, j);
    }
}

} // verus!
