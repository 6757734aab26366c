//! A planned query and the query as it is written give the same rows.

use vstd::prelude::*;

use crate::catalog::DbContext;
use crate::disk::DiskModel;
use crate::executor::cross::{beside, product};
use crate::executor::equivalence::{cross_all, cross_columns, lemma_join_is_filtered_cross,
    same_answer};
use crate::executor::filter::{all_hold, filter_rows, filtered, holds};
use crate::executor::joinlaws::{first_places, lemma_product_split};
use crate::executor::plan::{applicable, applies, conditions_of, join_plan, leaves_of, plan_of,
    share_name, Facts, LeafPlan, Plan};
use crate::executor::planfits::{lemma_leaves_sound, lemma_product_fits, lemma_rest_fits,
    lemma_sides_fit, rows_fit};
use crate::executor::planlaws::{columns_in, joinable, lemma_all_hold, lemma_column_concat,
    lemma_holds_by_name, lemma_names_apart, lemma_not_shared, lemma_value_left, lemma_value_right,
    names_apart, schemas_of, sides_fit, sides_of};
use crate::query::{Condition, Operand, QueryOp};
use crate::row::{RowModel, SchemaModel};

verus! {

// ── The query as it is written ───────────────────────────────────────────────

/// The columns of filters and cross products above some sides.
pub open spec fn plain_columns(op: QueryOp, ctx: DbContext, facts: Facts) -> SchemaModel
    decreases op,
{
    match op {
        QueryOp::Filter(data) => plain_columns(*data.underlying, ctx, facts),
        QueryOp::Cross(data) => plain_columns(*data.left, ctx, facts) + plain_columns(
            *data.right,
            ctx,
            facts,
        ),
        _ => plan_of(op, ctx, facts)->Ok_0.columns(),
    }
}

/// The rows of filters and cross products above some sides, worked out as they stand: all
/// pairs, and then those that the conditions leave.
pub open spec fn plain_rows(op: QueryOp, ctx: DbContext, facts: Facts, d: DiskModel) -> Option<
    Seq<RowModel>,
>
    decreases op,
{
    match op {
        QueryOp::Filter(data) => filtered(
            data.predicates.deep_view(),
            plain_columns(*data.underlying, ctx, facts),
            plain_rows(*data.underlying, ctx, facts, d),
        ),
        QueryOp::Cross(data) => match (
            plain_rows(*data.left, ctx, facts, d),
            plain_rows(*data.right, ctx, facts, d),
        ) {
            (Some(left), Some(right)) => Some(product(left, right)),
            _ => None,
        },
        _ => plan_of(op, ctx, facts)->Ok_0.rows(d),
    }
}

/// All conditions apply.
pub open spec fn all_apply(cs: Seq<Condition>, schema: SchemaModel) -> bool {
    forall|k: int| 0 <= k < cs.len() ==> applies(#[trigger] cs[k], schema)
}

/// Each filter names only columns that are there.
pub open spec fn columns_known(op: QueryOp, ctx: DbContext, facts: Facts) -> bool
    decreases op,
{
    match op {
        QueryOp::Filter(data) => {
            &&& all_apply(
                data.predicates.deep_view(),
                plain_columns(*data.underlying, ctx, facts),
            )
            &&& columns_known(*data.underlying, ctx, facts)
        },
        QueryOp::Cross(data) => {
            &&& columns_known(*data.left, ctx, facts)
            &&& columns_known(*data.right, ctx, facts)
        },
        _ => true,
    }
}

// ── Filters above filters and cross products ─────────────────────────────────

/// The rows of which all conditions hold.
pub open spec fn chosen(cs: Seq<Condition>, schema: SchemaModel, rows: Seq<RowModel>) -> Seq<
    RowModel,
>
    decreases rows.len(),
{
    if rows.len() == 0 {
        Seq::empty()
    } else {
        let rest = chosen(cs, schema, rows.drop_first());
        if all_hold(cs, rows[0], schema) == Some(true) {
            seq![rows[0]] + rest
        } else {
            rest
        }
    }
}

proof fn lemma_chosen(cs: Seq<Condition>, schema: SchemaModel, rows: Seq<RowModel>)
    requires
        all_apply(cs, schema),
    ensures
        filter_rows(cs, schema, rows) == Some(chosen(cs, schema, rows)),
    decreases rows.len(),
{
    if rows.len() > 0 {
        lemma_all_hold(cs, schema, rows[0]);
        lemma_chosen(cs, schema, rows.drop_first());
    }
}

proof fn lemma_chosen_concat(
    cs: Seq<Condition>,
    schema: SchemaModel,
    a: Seq<RowModel>,
    b: Seq<RowModel>,
)
    ensures
        chosen(cs, schema, a + b) == chosen(cs, schema, a) + chosen(cs, schema, b),
    decreases a.len(),
{
    if a.len() == 0 {
        assert(a + b =~= b);
        assert(chosen(cs, schema, a) + chosen(cs, schema, b) =~= chosen(cs, schema, b));
    } else {
        lemma_chosen_concat(cs, schema, a.drop_first(), b);
        assert((a + b).drop_first() =~= a.drop_first() + b);
        assert(chosen(cs, schema, a + b) =~= chosen(cs, schema, a) + chosen(cs, schema, b));
    }
}

/// Conditions hold together exactly where each list of them does.
proof fn lemma_all_hold_concat(
    p: Seq<Condition>,
    q: Seq<Condition>,
    schema: SchemaModel,
    row: RowModel,
)
    requires
        all_apply(p, schema),
        all_apply(q, schema),
    ensures
        all_apply(p + q, schema),
        all_hold(p + q, row, schema) == Some(true) <==> (all_hold(p, row, schema) == Some(true)
            && all_hold(q, row, schema) == Some(true)),
{
    let both = p + q;
    assert forall|k: int| 0 <= k < both.len() implies applies(#[trigger] both[k], schema) by {
        if k < p.len() {
            assert(both[k] == p[k]);
        } else {
            assert(both[k] == q[k - p.len()]);
        }
    }
    lemma_all_hold(p, schema, row);
    lemma_all_hold(q, schema, row);
    lemma_all_hold(both, schema, row);
    if all_hold(both, row, schema) == Some(true) {
        assert forall|k: int| 0 <= k < p.len() implies holds(#[trigger] p[k], row, schema) == Some(
            true,
        ) by {
            assert(both[k] == p[k]);
        }
        assert forall|k: int| 0 <= k < q.len() implies holds(#[trigger] q[k], row, schema) == Some(
            true,
        ) by {
            assert(both[k + p.len()] == q[k]);
        }
    }
    if all_hold(p, row, schema) == Some(true) && all_hold(q, row, schema) == Some(true) {
        assert forall|k: int| 0 <= k < both.len() implies holds(#[trigger] both[k], row, schema)
            == Some(true) by {
            if k < p.len() {
                assert(both[k] == p[k]);
            } else {
                assert(both[k] == q[k - p.len()]);
            }
        }
    }
}

/// A filter above a filter is a filter with the conditions of both.
proof fn lemma_chosen_twice(
    p: Seq<Condition>,
    q: Seq<Condition>,
    schema: SchemaModel,
    rows: Seq<RowModel>,
)
    requires
        all_apply(p, schema),
        all_apply(q, schema),
    ensures
        chosen(p, schema, chosen(q, schema, rows)) == chosen(p + q, schema, rows),
    decreases rows.len(),
{
    if rows.len() > 0 {
        let rest = rows.drop_first();
        lemma_chosen_twice(p, q, schema, rest);
        lemma_all_hold_concat(p, q, schema, rows[0]);
        let inner = chosen(q, schema, rest);
        if all_hold(q, rows[0], schema) == Some(true) {
            let all = seq![rows[0]] + inner;
            assert(all.drop_first() =~= inner);
            assert(all[0] == rows[0]);
        }
    }
}

/// Conditions on each side hold of a pair exactly where they hold of its rows.
proof fn lemma_pair_holds(
    p: Seq<Condition>,
    q: Seq<Condition>,
    a: SchemaModel,
    b: SchemaModel,
    l: RowModel,
    r: RowModel,
)
    requires
        all_apply(p, a),
        all_apply(q, b),
        !share_name(a, b),
        l.len() == a.len(),
        r.len() == b.len(),
    ensures
        all_apply(p + q, a + b),
        all_hold(p + q, l + r, a + b) == Some(true) <==> (all_hold(p, l, a) == Some(true)
            && all_hold(q, r, b) == Some(true)),
{
    assert forall|k: int| 0 <= k < p.len() implies applies(#[trigger] p[k], a + b) && holds(
        p[k],
        l + r,
        a + b,
    ) == holds(p[k], l, a) by {
        let c = p[k];
        assert(applies(c, a));
        lemma_value_left(a, b, l, r, c.column);
        if let Operand::Column(name) = c.operand {
            lemma_value_left(a, b, l, r, name);
        }
        lemma_holds_by_name(c, l, a, l + r, a + b);
    }
    assert forall|k: int| 0 <= k < q.len() implies applies(#[trigger] q[k], a + b) && holds(
        q[k],
        l + r,
        a + b,
    ) == holds(q[k], r, b) by {
        let c = q[k];
        assert(applies(c, b));
        lemma_not_shared(a, b, c.column);
        lemma_value_right(a, b, l, r, c.column);
        if let Operand::Column(name) = c.operand {
            lemma_not_shared(a, b, name);
            lemma_value_right(a, b, l, r, name);
        }
        lemma_holds_by_name(c, r, b, l + r, a + b);
    }
    lemma_all_hold_concat(p, q, a + b, l + r);
    lemma_all_hold(p, a, l);
    lemma_all_hold(q, b, r);
    lemma_all_hold(p, a + b, l + r);
    lemma_all_hold(q, a + b, l + r);
    if all_hold(p, l + r, a + b) == Some(true) {
        assert forall|k: int| 0 <= k < p.len() implies holds(#[trigger] p[k], l, a) == Some(
            true,
        ) by {
            assert(holds(p[k], l + r, a + b) == Some(true));
        }
    }
    if all_hold(p, l, a) == Some(true) {
        assert forall|k: int| 0 <= k < p.len() implies holds(#[trigger] p[k], l + r, a + b) == Some(
            true,
        ) by {
            assert(holds(p[k], l, a) == Some(true));
        }
    }
    if all_hold(q, l + r, a + b) == Some(true) {
        assert forall|k: int| 0 <= k < q.len() implies holds(#[trigger] q[k], r, b) == Some(
            true,
        ) by {
            assert(holds(q[k], l + r, a + b) == Some(true));
        }
    }
    if all_hold(q, r, b) == Some(true) {
        assert forall|k: int| 0 <= k < q.len() implies holds(#[trigger] q[k], l + r, a + b) == Some(
            true,
        ) by {
            assert(holds(q[k], r, b) == Some(true));
        }
    }
}

proof fn lemma_chosen_beside(
    p: Seq<Condition>,
    q: Seq<Condition>,
    a: SchemaModel,
    b: SchemaModel,
    l: RowModel,
    right: Seq<RowModel>,
)
    requires
        all_apply(p, a),
        all_apply(q, b),
        !share_name(a, b),
        l.len() == a.len(),
        rows_fit(b, right),
    ensures
        chosen(p + q, a + b, beside(l, right)) == if all_hold(p, l, a) == Some(true) {
            beside(l, chosen(q, b, right))
        } else {
            Seq::empty()
        },
    decreases right.len(),
{
    let all = beside(l, right);
    if right.len() == 0 {
        assert(beside(l, chosen(q, b, right)) =~= Seq::<RowModel>::empty());
    } else {
        let rest = right.drop_first();
        lemma_rest_fits(b, right);
        lemma_chosen_beside(p, q, a, b, l, rest);
        assert(all.drop_first() =~= beside(l, rest));
        assert(all[0] == l + right[0]);
        lemma_pair_holds(p, q, a, b, l, right[0]);
        let inner = chosen(q, b, rest);
        assert(beside(l, seq![right[0]] + inner) =~= seq![l + right[0]] + beside(l, inner));
    }
}

/// A filter above a cross product with conditions on each side alone is the cross product of
/// the filtered sides.
proof fn lemma_chosen_product(
    p: Seq<Condition>,
    q: Seq<Condition>,
    a: SchemaModel,
    b: SchemaModel,
    left: Seq<RowModel>,
    right: Seq<RowModel>,
)
    requires
        all_apply(p, a),
        all_apply(q, b),
        !share_name(a, b),
        rows_fit(a, left),
        rows_fit(b, right),
    ensures
        chosen(p + q, a + b, product(left, right)) == product(
            chosen(p, a, left),
            chosen(q, b, right),
        ),
    decreases left.len(),
{
    if left.len() > 0 {
        let rest = left.drop_first();
        lemma_rest_fits(a, left);
        lemma_chosen_product(p, q, a, b, rest, right);
        lemma_chosen_beside(p, q, a, b, left[0], right);
        lemma_chosen_concat(p + q, a + b, beside(left[0], right), product(rest, right));
        let inner = chosen(p, a, rest);
        let kept = chosen(q, b, right);
        if all_hold(p, left[0], a) == Some(true) {
            let all = seq![left[0]] + inner;
            assert(all.drop_first() =~= inner);
            assert(all[0] == left[0]);
        } else {
            assert(Seq::<RowModel>::empty() + product(inner, kept) =~= product(inner, kept));
        }
    }
}

// ── Products of products ─────────────────────────────────────────────────────

proof fn lemma_beside_product(l: RowModel, b: Seq<RowModel>, c: Seq<RowModel>)
    ensures
        product(beside(l, b), c) == beside(l, product(b, c)),
    decreases b.len(),
{
    if b.len() == 0 {
        assert(beside(l, product(b, c)) =~= Seq::<RowModel>::empty());
    } else {
        lemma_beside_product(l, b.drop_first(), c);
        assert(beside(l, b).drop_first() =~= beside(l, b.drop_first()));
        let x = beside(b[0], c);
        let y = product(b.drop_first(), c);
        assert(beside(l, x + y) =~= beside(l, x) + beside(l, y));
        assert(beside(l + b[0], c) =~= beside(l, x)) by {
            assert forall|j: int| 0 <= j < c.len() implies (l + b[0]) + c[j] == l + (b[0]
                + c[j]) by {
                assert((l + b[0]) + c[j] =~= l + (b[0] + c[j]));
            }
        }
    }
}

/// It does not matter which of two cross products is made first.
proof fn lemma_product_assoc(a: Seq<RowModel>, b: Seq<RowModel>, c: Seq<RowModel>)
    ensures
        product(product(a, b), c) == product(a, product(b, c)),
    decreases a.len(),
{
    if a.len() > 0 {
        lemma_product_assoc(a.drop_first(), b, c);
        lemma_product_split(beside(a[0], b), product(a.drop_first(), b), c);
        lemma_beside_product(a[0], b, c);
    }
}

/// The cross product of two lists of sides.
proof fn lemma_cross_concat(x: Seq<Seq<RowModel>>, y: Seq<Seq<RowModel>>)
    ensures
        cross_all(x + y) == product(cross_all(x), cross_all(y)),
    decreases y.len(),
{
    if y.len() == 0 {
        assert(x + y =~= x);
        lemma_product_unit(cross_all(x));
    } else {
        lemma_cross_concat(x, y.drop_last());
        assert((x + y).drop_last() =~= x + y.drop_last());
        lemma_product_assoc(cross_all(x), cross_all(y.drop_last()), y.last());
    }
}

/// The product with the empty row alone changes nothing.
proof fn lemma_product_unit(a: Seq<RowModel>)
    ensures
        product(a, seq![Seq::empty()]) == a,
    decreases a.len(),
{
    let unit = seq![Seq::<crate::data::Value>::empty()];
    if a.len() > 0 {
        lemma_product_unit(a.drop_first());
        assert(a[0] + Seq::<crate::data::Value>::empty() =~= a[0]);
        assert(beside(a[0], unit) =~= seq![a[0]]);
        assert(seq![a[0]] + a.drop_first() =~= a);
    } else {
        assert(a =~= Seq::<RowModel>::empty());
    }
}

proof fn lemma_unit_product(a: Seq<RowModel>)
    ensures
        product(seq![Seq::empty()], a) == a,
{
    let unit = seq![Seq::<crate::data::Value>::empty()];
    assert(unit.drop_first() =~= Seq::<RowModel>::empty());
    assert(product(unit.drop_first(), a) == Seq::<RowModel>::empty());
    assert(beside(unit[0], a) =~= a) by {
        assert forall|j: int| 0 <= j < a.len() implies unit[0] + a[j] == #[trigger] a[j] by {
            assert(unit[0] + a[j] =~= a[j]);
        }
    }
    assert(a + Seq::<RowModel>::empty() =~= a);
}

/// The columns of two lists of sides.
proof fn lemma_columns_concat(x: Seq<SchemaModel>, y: Seq<SchemaModel>)
    ensures
        cross_columns(x + y) == cross_columns(x) + cross_columns(y),
    decreases y.len(),
{
    let all = x + y;
    let n = all.len();
    if y.len() == 0 {
        assert(all =~= x);
        assert(first_places(0) =~= Seq::<int>::empty());
        assert(cross_columns(y) =~= Seq::<(Seq<char>, crate::data::DataType)>::empty());
        assert(cross_columns(x) + cross_columns(y) =~= cross_columns(x));
    } else {
        let front = y.drop_last();
        lemma_columns_concat(x, front);
        assert(all.drop_last() =~= x + front);
        lemma_columns_front(all);
        lemma_columns_front(y);
        assert(all.last() == y.last());
        let (p, q, r) = (cross_columns(x), cross_columns(front), y.last());
        assert((p + q) + r =~= p + (q + r));
    }
}

proof fn lemma_columns_front(x: Seq<SchemaModel>)
    requires
        x.len() > 0,
    ensures
        cross_columns(x) == cross_columns(x.drop_last()) + x.last(),
{
    let n = x.len();
    assert(first_places(n).drop_last() =~= first_places((n - 1) as nat));
    lemma_columns_same(x, x.drop_last(), first_places((n - 1) as nat));
}

proof fn lemma_columns_same(x: Seq<SchemaModel>, y: Seq<SchemaModel>, order: Seq<int>)
    requires
        y.len() <= x.len(),
        forall|i: int| 0 <= i < y.len() ==> #[trigger] x[i] == y[i],
        forall|k: int| 0 <= k < order.len() ==> 0 <= #[trigger] order[k] < y.len(),
    ensures
        columns_in(x, order) == columns_in(y, order),
    decreases order.len(),
{
    if order.len() > 0 {
        let front = order.drop_last();
        assert forall|k: int| 0 <= k < front.len() implies 0 <= #[trigger] front[k] < y.len() by {
            assert(front[k] == order[k]);
        }
        lemma_columns_same(x, y, front);
        assert(0 <= order[order.len() - 1] < y.len());
    }
}

/// The rows of a cross product of sides that fit have a value for each column.
proof fn lemma_cross_fits(schemas: Seq<SchemaModel>, sides: Seq<Seq<RowModel>>)
    requires
        sides_fit(schemas, sides),
    ensures
        rows_fit(cross_columns(schemas), cross_all(sides)),
    decreases sides.len(),
{
    if sides.len() == 0 {
        assert(first_places(0) =~= Seq::<int>::empty());
    } else {
        let (s, x) = (schemas.drop_last(), sides.drop_last());
        assert forall|i: int, j: int| 0 <= i < x.len() && 0 <= j < x[i].len() implies (
        #[trigger] x[i][j]).len() == s[i].len() by {
            assert(x[i][j] == sides[i][j]);
        }
        lemma_cross_fits(s, x);
        lemma_columns_front(schemas);
        let last = sides.last();
        assert(rows_fit(schemas.last(), last)) by {
            assert forall|k: int| 0 <= k < last.len() implies (#[trigger] last[k]).len()
                == schemas.last().len() by {
                assert(last[k] == sides[sides.len() - 1][k]);
            }
        }
        lemma_product_fits(cross_columns(s), schemas.last(), cross_all(x), last);
    }
}

// ── The law ──────────────────────────────────────────────────────────────────

/// The sides are readable, fit their columns, and share no column name.
pub open spec fn sides_sound(leaves: Seq<LeafPlan>, d: DiskModel) -> bool {
    &&& forall|i: int| 0 <= i < leaves.len() ==> (#[trigger] leaves[i]).plan.rows(d) is Some
    &&& sides_fit(schemas_of(leaves), sides_of(leaves, d))
    &&& names_apart(schemas_of(leaves))
}

proof fn lemma_split_sound(x: Seq<LeafPlan>, y: Seq<LeafPlan>, d: DiskModel)
    requires
        sides_sound(x + y, d),
    ensures
        sides_sound(x, d),
        sides_sound(y, d),
        !share_name(cross_columns(schemas_of(x)), cross_columns(schemas_of(y))),
        schemas_of(x + y) == schemas_of(x) + schemas_of(y),
        sides_of(x + y, d) == sides_of(x, d) + sides_of(y, d),
{
    let all = x + y;
    assert(schemas_of(all) =~= schemas_of(x) + schemas_of(y));
    assert(sides_of(all, d) =~= sides_of(x, d) + sides_of(y, d));
    let n = x.len() as int;
    assert forall|i: int| 0 <= i < x.len() implies (#[trigger] x[i]).plan.rows(d) is Some by {
        assert(all[i] == x[i]);
    }
    assert forall|i: int| 0 <= i < y.len() implies (#[trigger] y[i]).plan.rows(d) is Some by {
        assert(all[n + i] == y[i]);
    }
    let (sx, sy, sa) = (schemas_of(x), schemas_of(y), schemas_of(all));
    let (rx, ry, ra) = (sides_of(x, d), sides_of(y, d), sides_of(all, d));
    assert forall|i: int, j: int| 0 <= i < rx.len() && 0 <= j < rx[i].len() implies (
    #[trigger] rx[i][j]).len() == sx[i].len() by {
        assert(ra[i] == rx[i]);
        assert(ra[i][j].len() == sa[i].len());
    }
    assert forall|i: int, j: int| 0 <= i < ry.len() && 0 <= j < ry[i].len() implies (
    #[trigger] ry[i][j]).len() == sy[i].len() by {
        assert(ra[n + i] == ry[i]);
        assert(ra[n + i][j].len() == sa[n + i].len());
    }
    assert forall|i: int, j: int| 0 <= i < sx.len() && 0 <= j < sx.len() && i != j implies !(
    #[trigger] share_name(sx[i], sx[j])) by {
        assert(sa[i] == sx[i] && sa[j] == sx[j]);
        assert(!share_name(sa[i], sa[j]));
    }
    assert forall|i: int, j: int| 0 <= i < sy.len() && 0 <= j < sy.len() && i != j implies !(
    #[trigger] share_name(sy[i], sy[j])) by {
        assert(sa[n + i] == sy[i] && sa[n + j] == sy[j]);
        assert(!share_name(sa[n + i], sa[n + j]));
    }
    let (a, b) = (cross_columns(sx), cross_columns(sy));
    assert forall|i: int, j: int| 0 <= i < a.len() && 0 <= j < b.len() implies #[trigger] a[i].0
        != #[trigger] b[j].0 by {
        let (p, u) = lemma_column_origin(sx, i);
        let (q, v) = lemma_column_origin(sy, j);
        assert(sa[p] == sx[p] && sa[n + q] == sy[q]);
        assert(!share_name(sa[p], sa[n + q]));
        assert(sa[p][u].0 == a[i].0 && sa[n + q][v].0 == b[j].0);
    }
}

/// The side and the place that a column of a cross product comes from.
proof fn lemma_column_origin(x: Seq<SchemaModel>, i: int) -> (r: (int, int))
    requires
        0 <= i < cross_columns(x).len(),
    ensures
        0 <= r.0 < x.len(),
        0 <= r.1 < x[r.0].len(),
        x[r.0][r.1] == cross_columns(x)[i],
    decreases x.len(),
{
    if x.len() == 0 {
        assert(first_places(0) =~= Seq::<int>::empty());
        (0, 0)
    } else {
        lemma_columns_front(x);
        let front = cross_columns(x.drop_last());
        if i < front.len() {
            let (p, u) = lemma_column_origin(x.drop_last(), i);
            assert(x.drop_last()[p] == x[p]);
            (p, u)
        } else {
            (x.len() - 1, i - front.len())
        }
    }
}

/// Filters and cross products above some sides, as they are written, are one filter above
/// the cross product of all sides.
proof fn lemma_flatten(op: QueryOp, ctx: DbContext, facts: Facts, d: DiskModel)
    requires
        leaves_of(op, ctx, facts) is Ok,
        sides_sound(leaves_of(op, ctx, facts)->Ok_0, d),
        columns_known(op, ctx, facts),
    ensures
        ({
            let leaves = leaves_of(op, ctx, facts)->Ok_0;
            let columns = cross_columns(schemas_of(leaves));
            &&& plain_columns(op, ctx, facts) == columns
            &&& all_apply(conditions_of(op), columns)
            &&& plain_rows(op, ctx, facts, d) == Some(
                chosen(conditions_of(op), columns, cross_all(sides_of(leaves, d))),
            )
        }),
    decreases op,
{
    let leaves = leaves_of(op, ctx, facts)->Ok_0;
    let schemas = schemas_of(leaves);
    let sides = sides_of(leaves, d);
    let columns = cross_columns(schemas);
    match op {
        QueryOp::Filter(data) => {
            lemma_flatten(*data.underlying, ctx, facts, d);
            let own = data.predicates.deep_view();
            let below = conditions_of(*data.underlying);
            let rows = cross_all(sides);
            lemma_chosen(own, columns, chosen(below, columns, rows));
            lemma_chosen_twice(own, below, columns, rows);
            lemma_all_hold_concat(own, below, columns, Seq::empty());
        },
        QueryOp::Cross(data) => {
            let x = leaves_of(*data.left, ctx, facts)->Ok_0;
            let y = leaves_of(*data.right, ctx, facts)->Ok_0;
            lemma_split_sound(x, y, d);
            lemma_flatten(*data.left, ctx, facts, d);
            lemma_flatten(*data.right, ctx, facts, d);
            let (sx, sy) = (schemas_of(x), schemas_of(y));
            let (rx, ry) = (sides_of(x, d), sides_of(y, d));
            let (a, b) = (cross_columns(sx), cross_columns(sy));
            let (p, q) = (conditions_of(*data.left), conditions_of(*data.right));
            lemma_columns_concat(sx, sy);
            lemma_cross_concat(rx, ry);
            lemma_cross_fits(sx, rx);
            lemma_cross_fits(sy, ry);
            lemma_chosen_product(p, q, a, b, cross_all(rx), cross_all(ry));
            assert(all_apply(p + q, a + b)) by {
                let all = p + q;
                assert forall|k: int| 0 <= k < all.len() implies applies(
                    #[trigger] all[k],
                    a + b,
                ) by {
                    let c = all[k];
                    lemma_column_concat(a, b, c.column);
                    if let Operand::Column(name) = c.operand {
                        lemma_column_concat(a, b, name);
                    }
                    if k < p.len() {
                        assert(applies(p[k], a));
                    } else {
                        assert(applies(q[k - p.len()], b));
                    }
                }
            }
        },
        _ => {
            let leaf = leaves[0];
            assert(leaf.plan.rows(d) is Some);
            assert(schemas.drop_last() =~= Seq::<SchemaModel>::empty());
            assert(sides.drop_last() =~= Seq::<Seq<RowModel>>::empty());
            lemma_columns_front(schemas);
            assert(first_places(0) =~= Seq::<int>::empty());
            assert(cross_columns(schemas.drop_last()) =~= Seq::<
                (Seq<char>, crate::data::DataType),
            >::empty());
            assert(columns =~= leaf.plan.columns());
            lemma_unit_product(sides.last());
            assert(cross_all(sides.drop_last()) == seq![Seq::<crate::data::Value>::empty()]);
            let rows = cross_all(sides);
            lemma_chosen(Seq::empty(), columns, rows);
            crate::executor::planlaws::lemma_filter_none(columns, rows);
        },
    }
}

/// Where all conditions apply, all are applicable.
proof fn lemma_all_applicable(cs: Seq<Condition>, schema: SchemaModel)
    requires
        all_apply(cs, schema),
    ensures
        applicable(cs, schema) == cs,
    decreases cs.len(),
{
    if cs.len() > 0 {
        let front = cs.drop_last();
        assert forall|k: int| 0 <= k < front.len() implies applies(#[trigger] front[k], schema) by {
            assert(front[k] == cs[k]);
        }
        lemma_all_applicable(front, schema);
        assert(applies(cs[cs.len() - 1], schema));
        assert(front.push(cs.last()) =~= cs);
    }
}

/// A query that filters a cross product of several sides gets a plan that joins them, and
/// the plan gives what the query says, up to the order of the rows and of the columns: the
/// rows that come of making all pairs and then checking all conditions.
pub proof fn lemma_plan_answers_query(
    op: QueryOp,
    ctx: DbContext,
    facts: Facts,
    d: DiskModel,
) -> (places: Seq<int>)
    requires
        op is Filter,
        leaves_of(op, ctx, facts) is Ok,
        joinable(conditions_of(op), leaves_of(op, ctx, facts)->Ok_0, d),
        columns_known(op, ctx, facts),
        plain_columns(op, ctx, facts).len() <= usize::MAX,
        plan_of(op, ctx, facts) matches Ok(plan) ==> plan.rows(d) is Some,
    ensures
        plan_of(op, ctx, facts) is Ok,
        plain_rows(op, ctx, facts, d) is Some,
        same_answer(
            plan_of(op, ctx, facts)->Ok_0.columns(),
            plan_of(op, ctx, facts)->Ok_0.rows(d)->0,
            plain_columns(op, ctx, facts),
            plain_rows(op, ctx, facts, d)->0,
            places,
        ),
{
    let leaves = leaves_of(op, ctx, facts)->Ok_0;
    let cs = conditions_of(op);
    let columns = cross_columns(schemas_of(leaves));
    assert(plan_of(op, ctx, facts) == Ok::<Plan, crate::executor::plan::Fault>(
        join_plan(cs, leaves, facts.block_size),
    ));
    lemma_names_apart(leaves);
    lemma_leaves_sound(op, ctx, facts);
    lemma_sides_fit(leaves, d);
    lemma_flatten(op, ctx, facts, d);
    lemma_chosen(cs, columns, cross_all(sides_of(leaves, d)));
    lemma_all_applicable(cs, columns);
    lemma_join_is_filtered_cross(cs, leaves, facts.block_size, d)
}

} // verus!
