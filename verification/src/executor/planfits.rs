//! The rows of a plan fit its columns.

use vstd::prelude::*;

use crate::block::{block_rows, rows_at};
use crate::bytes::le_number;
use crate::catalog::DbContext;
use crate::disk::DiskModel;
use crate::executor::cross::{beside, product};
use crate::executor::cursor::region_rows;
use crate::executor::equivalence::cross_columns;
use crate::executor::hashjoin::{left_keys, right_keys};
use crate::executor::joinlaws::{first_places, joins, kept_places, lemma_filter_keeps,
    lemma_hash_join, lemma_parts_join, same_keys};
use crate::executor::mergelaws::lemma_sort_result_permutes;
use crate::executor::plan::{equi_keys, join_rest, join_two, last_max, leaves_of, lemma_last_max,
    plan_of, pushed_down, scores, sizes, Facts, LeafPlan, Plan};
use crate::executor::planlaws::{columns_in, schemas_of, sides_fit, sides_of, some_sides, widths_ok};
use crate::executor::project::{missing, picked};
use crate::query::{Condition, QueryOp};
use crate::row::{lemma_columns_at_conform, RowModel, SchemaModel};

verus! {

/// Every row has a value for each column.
pub open spec fn rows_fit(schema: SchemaModel, rows: Seq<RowModel>) -> bool {
    forall|k: int| 0 <= k < rows.len() ==> (#[trigger] rows[k]).len() == schema.len()
}

pub proof fn lemma_rest_fits(schema: SchemaModel, rows: Seq<RowModel>)
    requires
        rows.len() > 0,
        rows_fit(schema, rows),
    ensures
        rows_fit(schema, rows.drop_first()),
        rows[0].len() == schema.len(),
{
    let rest = rows.drop_first();
    assert forall|k: int| 0 <= k < rest.len() implies (#[trigger] rest[k]).len()
        == schema.len() by {
        assert(rest[k] == rows[k + 1]);
    }
}

/// The rows of a cross product have a value for each column of both sides.
pub proof fn lemma_product_fits(
    a: SchemaModel,
    b: SchemaModel,
    left: Seq<RowModel>,
    right: Seq<RowModel>,
)
    requires
        rows_fit(a, left),
        rows_fit(b, right),
    ensures
        rows_fit(a + b, product(left, right)),
    decreases left.len(),
{
    if left.len() > 0 {
        lemma_rest_fits(a, left);
        lemma_product_fits(a, b, left.drop_first(), right);
        let (x, y) = (beside(left[0], right), product(left.drop_first(), right));
        assert forall|k: int| 0 <= k < (x + y).len() implies (#[trigger] (x + y)[k]).len() == (a
            + b).len() by {
            if k < x.len() {
                assert((x + y)[k] == x[k]);
                assert(x[k] == left[0] + right[k]);
            } else {
                assert((x + y)[k] == y[k - x.len()]);
            }
        }
    }
}

/// Every projection picks columns that are there.
pub open spec fn sound(plan: Plan) -> bool
    decreases plan,
{
    match plan {
        Plan::Scan { columns, start, blocks } => true,
        Plan::Filter { conditions, child } => sound(*child),
        Plan::Project { map, child } => sound(*child) && picked(map, child.columns()) is Some,
        Plan::Sort { by, child } => sound(*child),
        Plan::Cross { left, right, block_size } => sound(*left) && sound(*right),
        Plan::HashJoin { keys, left, right } => sound(*left) && sound(*right),
    }
}

proof fn lemma_rows_at_fit(data: Seq<u8>, schema: SchemaModel, n: nat)
    ensures
        rows_at(data, schema, n) matches Some((rows, used)) ==> rows_fit(schema, rows),
    decreases n,
{
    if n > 0 {
        lemma_rows_at_fit(data, schema, (n - 1) as nat);
        if let Some((rows, used)) = rows_at(data, schema, (n - 1) as nat) {
            lemma_columns_at_conform(data.skip(used as int), schema, schema.len());
            assert(schema.take(schema.len() as int) =~= schema);
        }
    }
}

proof fn lemma_region_fits(
    blocks: Map<int, Seq<u8>>,
    schema: SchemaModel,
    start: int,
    count: nat,
)
    ensures
        region_rows(blocks, schema, start, count) matches Some(rows) ==> rows_fit(schema, rows),
    decreases count,
{
    if count > 0 {
        lemma_region_fits(blocks, schema, start, (count - 1) as nat);
        let block = blocks[start + count - 1];
        if block.len() >= 2 {
            lemma_rows_at_fit(block, schema, le_number(block.skip(block.len() - 2)));
        }
        if let (Some(a), Some(b)) = (
            region_rows(blocks, schema, start, (count - 1) as nat),
            block_rows(block, schema),
        ) {
            assert forall|k: int| 0 <= k < (a + b).len() implies (#[trigger] (a + b)[k]).len()
                == schema.len() by {
                if k < a.len() {
                    assert((a + b)[k] == a[k]);
                } else {
                    assert((a + b)[k] == b[k - a.len()]);
                }
            }
        }
    }
}

proof fn lemma_picked_len(map: Seq<(Seq<char>, Seq<char>)>, schema: SchemaModel)
    ensures
        picked(map, schema) matches Some(places) ==> places.len() == map.len(),
        picked(map, schema) is Some <==> missing(map, schema) is None,
    decreases map.len(),
{
    if map.len() > 0 {
        lemma_picked_len(map.drop_last(), schema);
    }
}

/// The rows of a plan have a value for each of its columns.
pub proof fn lemma_plan_fits(plan: Plan, d: DiskModel)
    requires
        sound(plan),
    ensures
        plan.rows(d) matches Some(rows) ==> rows_fit(plan.columns(), rows),
    decreases plan,
{
    match plan {
        Plan::Scan { columns, start, blocks } => lemma_region_fits(
            d.blocks,
            columns,
            start as int,
            blocks as nat,
        ),
        Plan::Filter { conditions, child } => {
            lemma_plan_fits(*child, d);
            if let (Some(rows), Some(out)) = (child.rows(d), plan.rows(d)) {
                lemma_filter_keeps(conditions, child.columns(), rows);
                let places = kept_places(conditions, child.columns(), rows);
                assert forall|k: int| 0 <= k < out.len() implies (#[trigger] out[k]).len()
                    == plan.columns().len() by {
                    assert(0 <= places[k] < rows.len());
                    assert(out[k] == rows[places[k]]);
                }
            }
        },
        Plan::Project { map, child } => {
            lemma_plan_fits(*child, d);
            lemma_picked_len(map, child.columns());
        },
        Plan::Sort { by, child } => {
            lemma_plan_fits(*child, d);
            if let (Some(rows), Some(out)) = (child.rows(d), plan.rows(d)) {
                broadcast use vstd::seq_lib::group_to_multiset_ensures;

                lemma_sort_result_permutes(by, child.columns(), d.block_size, rows);
                assert forall|k: int| 0 <= k < out.len() implies (#[trigger] out[k]).len()
                    == plan.columns().len() by {
                    assert(out.contains(out[k]));
                    assert(out.to_multiset().count(out[k]) > 0);
                    assert(rows.contains(out[k]));
                    let m = choose|m: int| 0 <= m < rows.len() && rows[m] == out[k];
                    assert(rows[m].len() == child.columns().len());
                }
            }
        },
        Plan::Cross { left, right, block_size } => {
            lemma_plan_fits(*left, d);
            lemma_plan_fits(*right, d);
            if let (Some(l), Some(r)) = (left.rows(d), right.rows(d)) {
                lemma_product_fits(left.columns(), right.columns(), l, r);
            }
        },
        Plan::HashJoin { keys, left, right } => {
            lemma_plan_fits(*left, d);
            lemma_plan_fits(*right, d);
            if let (Some(l), Some(r), Some(out)) = (left.rows(d), right.rows(d), plan.rows(d)) {
                let (li, ri) = (left_keys(keys), right_keys(keys));
                lemma_hash_join(li, ri, l, r);
                lemma_parts_join(li, ri, l, r);
                let pairs = choose|pairs: Seq<(int, int)>|
                    joins(out, pairs, l, r, same_keys(li, ri, l, r));
                assert forall|k: int| 0 <= k < out.len() implies (#[trigger] out[k]).len()
                    == plan.columns().len() by {
                    let (i, j) = pairs[k];
                    assert(out[k] == l[i] + r[j]);
                    assert(l[i].len() == left.columns().len());
                    assert(r[j].len() == right.columns().len());
                }
            }
        },
    }
}

// ── Plans of queries ─────────────────────────────────────────────────────────

pub open spec fn all_sound(leaves: Seq<LeafPlan>) -> bool {
    forall|i: int| 0 <= i < leaves.len() ==> sound((#[trigger] leaves[i]).plan)
}

proof fn lemma_remove_sound(leaves: Seq<LeafPlan>, pos: int)
    requires
        all_sound(leaves),
        0 <= pos < leaves.len(),
    ensures
        all_sound(leaves.remove(pos)),
{
    let rest = leaves.remove(pos);
    assert forall|i: int| 0 <= i < rest.len() implies sound((#[trigger] rest[i]).plan) by {
        if i < pos {
            assert(rest[i] == leaves[i]);
        } else {
            assert(rest[i] == leaves[i + 1]);
        }
    }
}

proof fn lemma_join_rest_sound(
    cs: Seq<Condition>,
    current: Plan,
    rest: Seq<LeafPlan>,
    block_size: nat,
)
    requires
        sound(current),
        all_sound(rest),
    ensures
        sound(join_rest(cs, current, rest, block_size)),
    decreases rest.len(),
{
    let pos = last_max(scores(cs, current.columns(), rest));
    if 0 <= pos < rest.len() {
        let right = pushed_down(cs, rest[pos]);
        assert(sound(rest[pos].plan));
        assert(sound(right));
        let keys = equi_keys(cs, current.columns(), right.columns());
        let both = if keys.len() == 0 {
            Plan::Cross { left: Box::new(current), right: Box::new(right), block_size }
        } else {
            Plan::HashJoin { keys, left: Box::new(current), right: Box::new(right) }
        };
        assert(sound(both));
        lemma_remove_sound(rest, pos);
        lemma_join_rest_sound(
            cs,
            join_two(cs, current, right, block_size),
            rest.remove(pos),
            block_size,
        );
    }
}

/// The sides of a join are sound plans.
pub proof fn lemma_leaves_sound(op: QueryOp, ctx: DbContext, facts: Facts)
    ensures
        leaves_of(op, ctx, facts) matches Ok(leaves) ==> all_sound(leaves),
    decreases op, 1int,
{
    match op {
        QueryOp::Filter(data) => lemma_leaves_sound(*data.underlying, ctx, facts),
        QueryOp::Cross(data) => {
            lemma_leaves_sound(*data.left, ctx, facts);
            lemma_leaves_sound(*data.right, ctx, facts);
            if let (Ok(a), Ok(b)) = (
                leaves_of(*data.left, ctx, facts),
                leaves_of(*data.right, ctx, facts),
            ) {
                assert forall|i: int| 0 <= i < (a + b).len() implies sound(
                    (#[trigger] (a + b)[i]).plan,
                ) by {
                    if i < a.len() {
                        assert((a + b)[i] == a[i]);
                    } else {
                        assert((a + b)[i] == b[i - a.len()]);
                    }
                }
            }
        },
        _ => lemma_plan_sound(op, ctx, facts),
    }
}

/// The plan of a query is a sound plan.
pub proof fn lemma_plan_sound(op: QueryOp, ctx: DbContext, facts: Facts)
    ensures
        plan_of(op, ctx, facts) matches Ok(plan) ==> sound(plan),
    decreases op, 0int,
{
    match op {
        QueryOp::Scan(data) => {},
        QueryOp::Filter(data) => {
            lemma_leaves_sound(*data.underlying, ctx, facts);
            lemma_plan_sound(*data.underlying, ctx, facts);
            if let Ok(leaves) = leaves_of(*data.underlying, ctx, facts) {
                if leaves.len() > 1 {
                    let cs = crate::executor::plan::conditions_of(op);
                    let start = last_max(sizes(leaves));
                    lemma_last_max(sizes(leaves));
                    assert(sound(leaves[start].plan));
                    lemma_remove_sound(leaves, start);
                    lemma_join_rest_sound(
                        cs,
                        pushed_down(cs, leaves[start]),
                        leaves.remove(start),
                        facts.block_size,
                    );
                }
            }
        },
        QueryOp::Project(data) => {
            lemma_plan_sound(*data.underlying, ctx, facts);
            if let Ok(child) = plan_of(*data.underlying, ctx, facts) {
                lemma_picked_len(data.column_name_map.deep_view(), child.columns());
            }
        },
        QueryOp::Sort(data) => lemma_plan_sound(*data.underlying, ctx, facts),
        QueryOp::Cross(data) => {
            lemma_plan_sound(*data.left, ctx, facts);
            lemma_plan_sound(*data.right, ctx, facts);
        },
    }
}

/// The sides of a join fit their columns.
pub proof fn lemma_sides_fit(leaves: Seq<LeafPlan>, d: DiskModel)
    requires
        all_sound(leaves),
        forall|i: int| 0 <= i < leaves.len() ==> (#[trigger] leaves[i]).plan.rows(d) is Some,
    ensures
        sides_fit(schemas_of(leaves), sides_of(leaves, d)),
{
    let (schemas, sides) = (schemas_of(leaves), sides_of(leaves, d));
    assert forall|i: int, j: int| 0 <= i < sides.len() && 0 <= j < sides[i].len() implies (
    #[trigger] sides[i][j]).len() == schemas[i].len() by {
        assert(sound(leaves[i].plan));
        assert(leaves[i].plan.rows(d) is Some);
        lemma_plan_fits(leaves[i].plan, d);
    }
}

// ── Widths ───────────────────────────────────────────────────────────────────

/// A side may be left out of an order.
proof fn lemma_width_without(schemas: Seq<SchemaModel>, order: Seq<int>, pos: int)
    requires
        0 <= pos < order.len(),
    ensures
        columns_in(schemas, order).len() == columns_in(schemas, order.remove(pos)).len()
            + schemas[order[pos]].len(),
    decreases order.len(),
{
    let less = order.remove(pos);
    if pos == order.len() - 1 {
        assert(less =~= order.drop_last());
    } else {
        lemma_width_without(schemas, order.drop_last(), pos);
        assert(less.drop_last() =~= order.drop_last().remove(pos));
        assert(less.last() == order.last());
    }
}

proof fn lemma_width_bound(schemas: Seq<SchemaModel>, order: Seq<int>, n: nat)
    requires
        some_sides(order, n),
        n <= schemas.len(),
    ensures
        columns_in(schemas, order).len() <= columns_in(schemas, first_places(n)).len(),
    decreases n,
{
    if n == 0 {
        if order.len() > 0 {
            assert(0 <= order[0] < 0);
        }
    } else {
        let last = n - 1;
        assert(first_places(n).drop_last() =~= first_places(last as nat));
        if order.contains(last) {
            let pos = choose|pos: int| 0 <= pos < order.len() && order[pos] == last;
            let less = order.remove(pos);
            lemma_width_without(schemas, order, pos);
            assert forall|k: int| 0 <= k < less.len() implies 0 <= #[trigger] less[k] < last by {
                if k < pos {
                    assert(less[k] == order[k]);
                } else {
                    assert(less[k] == order[k + 1]);
                }
            }
            assert forall|x: int, y: int|
                0 <= x < less.len() && 0 <= y < less.len() && x != y implies less[x] != less[y] by {
                let u = if x < pos {
                    x
                } else {
                    x + 1
                };
                let v = if y < pos {
                    y
                } else {
                    y + 1
                };
                assert(less[x] == order[u] && less[y] == order[v]);
            }
            lemma_width_bound(schemas, less, last as nat);
        } else {
            assert forall|k: int| 0 <= k < order.len() implies 0 <= #[trigger] order[k] < last by {
                assert(order.contains(order[k]));
            }
            lemma_width_bound(schemas, order, last as nat);
        }
    }
}

/// Where the columns of all sides together can be numbered, so can those of some.
pub proof fn lemma_widths(schemas: Seq<SchemaModel>)
    requires
        cross_columns(schemas).len() <= usize::MAX,
    ensures
        widths_ok(schemas),
{
    assert forall|order: Seq<int>| some_sides(order, schemas.len()) implies #[trigger] columns_in(
        schemas,
        order,
    ).len() <= usize::MAX by {
        lemma_width_bound(schemas, order, schemas.len());
    }
    assert forall|i: int| 0 <= i < schemas.len() implies (#[trigger] schemas[i]).len()
        <= usize::MAX by {
        let order = seq![i];
        lemma_width_bound(schemas, order, schemas.len());
        assert(order.drop_last() =~= Seq::<int>::empty());
        assert(columns_in(schemas, order.drop_last()).len() == 0);
    }
}

} // verus!
