//! What planning a join promises: the rows that filtering the cross product would give.

use vstd::prelude::*;

use crate::data::{value_equal, Value};
use crate::disk::DiskModel;
use crate::executor::filter::{all_hold, filter_rows, filtered, holds};
use crate::executor::hashjoin::{left_keys, right_keys};
use crate::executor::joinlaws::{any_pair, distinct_places, first_places, joins, kept_places,
    lemma_cross_product, lemma_filter_keeps, lemma_hash_join, lemma_parts_join, rows_at, same_keys};
use crate::executor::plan::{applicable, applies, equi_keys, filter_if_any, join_columns, join_plan,
    join_rest, join_two, joined_on, last_max, lemma_last_max, overlap, pushed_down, residual,
    scores, share_name, sizes, LeafPlan, Plan};
use crate::key::key_of;
use crate::query::{ComparisionOperator, Condition, Operand};
use crate::row::{column_of, lemma_column_of, RowModel, SchemaModel};

verus! {

// ── Columns of two sides ─────────────────────────────────────────────────────

/// A column is the first of its name.
proof fn lemma_column_is(schema: SchemaModel, name: Seq<char>, i: int)
    requires
        0 <= i < schema.len(),
        schema[i].0 == name,
        forall|j: int| 0 <= j < i ==> (#[trigger] schema[j]).0 != name,
    ensures
        column_of(schema, name) == Some(i),
{
    lemma_column_of(schema, name);
}

/// A column of two sides is one of the left side, or else one of the right.
pub proof fn lemma_column_concat(a: SchemaModel, b: SchemaModel, name: Seq<char>)
    ensures
        column_of(a + b, name) == match column_of(a, name) {
            Some(i) => Some(i),
            None => match column_of(b, name) {
                Some(j) => Some(a.len() + j),
                None => None,
            },
        },
{
    let both = a + b;
    lemma_column_of(a, name);
    lemma_column_of(b, name);
    lemma_column_of(both, name);
    match column_of(a, name) {
        Some(i) => {
            assert(both[i] == a[i]);
            assert forall|j: int| 0 <= j < i implies (#[trigger] both[j]).0 != name by {
                assert(both[j] == a[j]);
            }
            lemma_column_is(both, name, i);
        },
        None => match column_of(b, name) {
            Some(j) => {
                let i = a.len() + j;
                assert(both[i] == b[j]);
                assert forall|k: int| 0 <= k < i implies (#[trigger] both[k]).0 != name by {
                    if k < a.len() {
                        assert(both[k] == a[k]);
                    } else {
                        assert(both[k] == b[k - a.len()]);
                    }
                }
                lemma_column_is(both, name, i);
            },
            None => {
                if let Some(k) = column_of(both, name) {
                    if k < a.len() {
                        assert(both[k] == a[k]);
                    } else {
                        assert(both[k] == b[k - a.len()]);
                    }
                }
            },
        },
    }
}

/// A name that both sides have is shared.
pub proof fn lemma_not_shared(a: SchemaModel, b: SchemaModel, name: Seq<char>)
    requires
        !share_name(a, b),
        column_of(b, name) is Some,
    ensures
        column_of(a, name) is None,
{
    lemma_column_of(a, name);
    lemma_column_of(b, name);
    if let (Some(i), Some(j)) = (column_of(a, name), column_of(b, name)) {
        assert(a[i].0 == b[j].0);
    }
}

/// The value of a row under a name.
pub open spec fn value_named(schema: SchemaModel, row: RowModel, name: Seq<char>) -> Option<Value> {
    match column_of(schema, name) {
        Some(i) => Some(row[i]),
        None => None,
    }
}

/// Whether a condition holds depends on the values under its names alone.
pub proof fn lemma_holds_by_name(
    c: Condition,
    row: RowModel,
    schema: SchemaModel,
    other_row: RowModel,
    other: SchemaModel,
)
    requires
        value_named(schema, row, c.column) == value_named(other, other_row, c.column),
        c.operand matches Operand::Column(name) ==> value_named(schema, row, name) == value_named(
            other,
            other_row,
            name,
        ),
    ensures
        applies(c, schema) == applies(c, other),
        holds(c, row, schema) == holds(c, other_row, other),
        applies(c, schema) ==> holds(c, row, schema) is Some,
{
}

pub proof fn lemma_value_left(
    a: SchemaModel,
    b: SchemaModel,
    l: RowModel,
    r: RowModel,
    name: Seq<char>,
)
    requires
        l.len() == a.len(),
        column_of(a, name) is Some,
    ensures
        value_named(a + b, l + r, name) == value_named(a, l, name),
{
    lemma_column_concat(a, b, name);
    lemma_column_of(a, name);
}

pub proof fn lemma_value_right(
    a: SchemaModel,
    b: SchemaModel,
    l: RowModel,
    r: RowModel,
    name: Seq<char>,
)
    requires
        l.len() == a.len(),
        r.len() == b.len(),
        column_of(a, name) is None,
    ensures
        value_named(a + b, l + r, name) == value_named(b, r, name),
{
    lemma_column_concat(a, b, name);
    lemma_column_of(b, name);
    if let Some(j) = column_of(b, name) {
        assert((l + r)[a.len() + j] == r[j]);
    }
}

/// The row meets all conditions whose columns are there.
pub open spec fn meets(cs: Seq<Condition>, schema: SchemaModel, row: RowModel) -> bool {
    forall|k: int|
        0 <= k < cs.len() && applies(#[trigger] cs[k], schema) ==> holds(cs[k], row, schema)
            == Some(true)
}

/// What meets all conditions on both sides meets them on the left side.
proof fn lemma_meets_left(
    cs: Seq<Condition>,
    a: SchemaModel,
    b: SchemaModel,
    l: RowModel,
    r: RowModel,
)
    requires
        l.len() == a.len(),
        meets(cs, a + b, l + r),
    ensures
        meets(cs, a, l),
{
    assert forall|k: int| 0 <= k < cs.len() && applies(#[trigger] cs[k], a) implies holds(
        cs[k],
        l,
        a,
    ) == Some(true) by {
        let c = cs[k];
        lemma_value_left(a, b, l, r, c.column);
        if let Operand::Column(name) = c.operand {
            lemma_value_left(a, b, l, r, name);
        }
        lemma_holds_by_name(c, l, a, l + r, a + b);
    }
}

/// What meets all conditions on both sides meets them on the right side.
proof fn lemma_meets_right(
    cs: Seq<Condition>,
    a: SchemaModel,
    b: SchemaModel,
    l: RowModel,
    r: RowModel,
)
    requires
        l.len() == a.len(),
        r.len() == b.len(),
        !share_name(a, b),
        meets(cs, a + b, l + r),
    ensures
        meets(cs, b, r),
{
    assert forall|k: int| 0 <= k < cs.len() && applies(#[trigger] cs[k], b) implies holds(
        cs[k],
        r,
        b,
    ) == Some(true) by {
        let c = cs[k];
        lemma_not_shared(a, b, c.column);
        lemma_value_right(a, b, l, r, c.column);
        if let Operand::Column(name) = c.operand {
            lemma_not_shared(a, b, name);
            lemma_value_right(a, b, l, r, name);
        }
        lemma_holds_by_name(c, r, b, l + r, a + b);
    }
}

// ── Conditions that are picked ───────────────────────────────────────────────

/// Where all conditions apply, they all hold or some do not.
pub proof fn lemma_all_hold(cs: Seq<Condition>, schema: SchemaModel, row: RowModel)
    requires
        forall|k: int| 0 <= k < cs.len() ==> applies(#[trigger] cs[k], schema),
    ensures
        all_hold(cs, row, schema) is Some,
        all_hold(cs, row, schema) == Some(true) <==> (forall|k: int|
            0 <= k < cs.len() ==> holds(#[trigger] cs[k], row, schema) == Some(true)),
    decreases cs.len(),
{
    if cs.len() > 0 {
        let rest = cs.drop_first();
        assert forall|k: int| 0 <= k < rest.len() implies applies(#[trigger] rest[k], schema) by {
            assert(rest[k] == cs[k + 1]);
        }
        lemma_all_hold(rest, schema, row);
        assert(applies(cs[0], schema));
        lemma_holds_by_name(cs[0], row, schema, row, schema);
        if all_hold(cs, row, schema) == Some(true) {
            assert forall|k: int| 0 <= k < cs.len() implies holds(#[trigger] cs[k], row, schema)
                == Some(true) by {
                if k > 0 {
                    assert(cs[k] == rest[k - 1]);
                }
            }
        }
        if forall|k: int| 0 <= k < cs.len() ==> holds(#[trigger] cs[k], row, schema) == Some(true) {
            assert forall|k: int| 0 <= k < rest.len() implies holds(#[trigger] rest[k], row, schema)
                == Some(true) by {
                assert(rest[k] == cs[k + 1]);
            }
            assert(holds(cs[0], row, schema) == Some(true));
        }
    }
}

/// Where all conditions apply, a filter can tell of every row.
pub proof fn lemma_filter_tells(cs: Seq<Condition>, schema: SchemaModel, rows: Seq<RowModel>)
    requires
        forall|k: int| 0 <= k < cs.len() ==> applies(#[trigger] cs[k], schema),
    ensures
        filter_rows(cs, schema, rows) is Some,
    decreases rows.len(),
{
    if rows.len() > 0 {
        lemma_all_hold(cs, schema, rows[0]);
        lemma_filter_tells(cs, schema, rows.drop_first());
    }
}

pub proof fn lemma_applicable(cs: Seq<Condition>, schema: SchemaModel)
    ensures
        forall|k: int|
            0 <= k < applicable(cs, schema).len() ==> {
                let c = #[trigger] applicable(cs, schema)[k];
                applies(c, schema) && cs.contains(c)
            },
        forall|k: int|
            0 <= k < cs.len() && applies(#[trigger] cs[k], schema) ==> applicable(
                cs,
                schema,
            ).contains(cs[k]),
    decreases cs.len(),
{
    if cs.len() > 0 {
        let front = cs.drop_last();
        lemma_applicable(front, schema);
        let before = applicable(front, schema);
        let all = applicable(cs, schema);
        assert forall|k: int| 0 <= k < all.len() implies {
            let c = #[trigger] all[k];
            applies(c, schema) && cs.contains(c)
        } by {
            if k < before.len() {
                assert(all[k] == before[k]);
                let m = choose|m: int| 0 <= m < front.len() && front[m] == before[k];
                assert(cs[m] == before[k]);
            } else {
                assert(cs[cs.len() - 1] == all[k]);
            }
        }
        assert forall|k: int| 0 <= k < cs.len() && applies(
            #[trigger] cs[k],
            schema,
        ) implies all.contains(cs[k]) by {
            if k < front.len() {
                assert(front[k] == cs[k]);
                let m = choose|m: int| 0 <= m < before.len() && before[m] == cs[k];
                assert(all[m] == cs[k]);
            } else {
                assert(all[before.len() as int] == cs[k]);
            }
        }
    }
}

proof fn lemma_residual(
    cs: Seq<Condition>,
    keys: Seq<(usize, usize)>,
    a: SchemaModel,
    b: SchemaModel,
)
    ensures
        forall|k: int|
            0 <= k < residual(cs, keys, a, b).len() ==> {
                let c = #[trigger] residual(cs, keys, a, b)[k];
                applies(c, a + b) && cs.contains(c)
            },
        forall|k: int|
            0 <= k < cs.len() && applies(#[trigger] cs[k], a + b) && !joined_on(cs[k], keys, a, b)
                ==> residual(cs, keys, a, b).contains(cs[k]),
    decreases cs.len(),
{
    if cs.len() > 0 {
        let front = cs.drop_last();
        lemma_residual(front, keys, a, b);
        let before = residual(front, keys, a, b);
        let all = residual(cs, keys, a, b);
        assert forall|k: int| 0 <= k < all.len() implies {
            let c = #[trigger] all[k];
            applies(c, a + b) && cs.contains(c)
        } by {
            if k < before.len() {
                assert(all[k] == before[k]);
                let m = choose|m: int| 0 <= m < front.len() && front[m] == before[k];
                assert(cs[m] == before[k]);
            } else {
                assert(cs[cs.len() - 1] == all[k]);
            }
        }
        assert forall|k: int|
            0 <= k < cs.len() && applies(#[trigger] cs[k], a + b) && !joined_on(
                cs[k],
                keys,
                a,
                b,
            ) implies all.contains(cs[k]) by {
            if k < front.len() {
                assert(front[k] == cs[k]);
                let m = choose|m: int| 0 <= m < before.len() && before[m] == cs[k];
                assert(all[m] == cs[k]);
            } else {
                assert(all[before.len() as int] == cs[k]);
            }
        }
    }
}

proof fn lemma_equi_keys(cs: Seq<Condition>, a: SchemaModel, b: SchemaModel)
    ensures
        forall|m: int|
            0 <= m < equi_keys(cs, a, b).len() ==> exists|k: int|
                0 <= k < cs.len() && join_columns(#[trigger] cs[k], a, b) == Some(
                    #[trigger] equi_keys(cs, a, b)[m],
                ),
    decreases cs.len(),
{
    if cs.len() > 0 {
        let front = cs.drop_last();
        lemma_equi_keys(front, a, b);
        let before = equi_keys(front, a, b);
        let all = equi_keys(cs, a, b);
        assert forall|m: int| 0 <= m < all.len() implies exists|k: int|
            0 <= k < cs.len() && join_columns(#[trigger] cs[k], a, b) == Some(
                #[trigger] all[m],
            ) by {
            if m < before.len() {
                assert(all[m] == before[m]);
                let k = choose|k: int|
                    0 <= k < front.len() && join_columns(#[trigger] front[k], a, b) == Some(
                        before[m],
                    );
                assert(cs[k] == front[k]);
            } else {
                assert(join_columns(cs[cs.len() - 1], a, b) == Some(all[m]));
            }
        }
    }
}

// ── A pair of rows ───────────────────────────────────────────────────────────

/// Where the condition asks for two values to be equal, they are equal as keys exactly
/// where they are equal as values. That is so of all values but NaN and the two zeros.
pub open spec fn key_faithful(u: Value, v: Value) -> bool {
    value_equal(u, v) <==> u == v
}

/// What the condition compares of two rows are values that are equal as keys exactly where
/// they are equal.
pub open spec fn pair_faithful(
    c: Condition,
    a: SchemaModel,
    b: SchemaModel,
    l: RowModel,
    r: RowModel,
) -> bool {
    match (c.operator, c.operand) {
        (ComparisionOperator::EQ, Operand::Column(name)) => {
            &&& (value_named(a, l, c.column), value_named(b, r, name)) matches (
                Some(u),
                Some(v),
            ) ==> key_faithful(u, v)
            &&& (value_named(a, l, name), value_named(b, r, c.column)) matches (
                Some(u),
                Some(v),
            ) ==> key_faithful(v, u)
        },
        _ => true,
    }
}

/// The columns of a key are those that the condition names.
proof fn lemma_join_columns(c: Condition, a: SchemaModel, b: SchemaModel, l: usize, r: usize)
    requires
        join_columns(c, a, b) == Some((l, r)),
        a.len() <= usize::MAX,
        b.len() <= usize::MAX,
    ensures
        c.operator is EQ,
        c.operand is Column,
        l < a.len(),
        r < b.len(),
        ({
            let name = c.operand->Column_0;
            ||| column_of(a, c.column) == Some(l as int) && column_of(b, name) == Some(r as int)
            ||| column_of(a, name) == Some(l as int) && column_of(b, c.column) == Some(r as int)
        }),
        column_of(a, a[l as int].0) == Some(l as int),
        column_of(b, b[r as int].0) == Some(r as int),
{
    if let Operand::Column(name) = c.operand {
        lemma_column_of(a, c.column);
        lemma_column_of(b, name);
        lemma_column_of(a, name);
        lemma_column_of(b, c.column);
    }
}

/// A pair has the keys of the join and meets what is left to check exactly where it meets
/// all conditions.
proof fn lemma_pair_meets(
    cs: Seq<Condition>,
    a: SchemaModel,
    b: SchemaModel,
    l: RowModel,
    r: RowModel,
)
    requires
        l.len() == a.len(),
        r.len() == b.len(),
        a.len() <= usize::MAX,
        b.len() <= usize::MAX,
        !share_name(a, b),
        forall|k: int| 0 <= k < cs.len() ==> pair_faithful(#[trigger] cs[k], a, b, l, r),
    ensures
        ({
            let keys = equi_keys(cs, a, b);
            meets(cs, a + b, l + r) <==> (key_of(left_keys(keys), l) == key_of(right_keys(keys), r)
                && all_hold(residual(cs, keys, a, b), l + r, a + b) == Some(true))
        }),
{
    let keys = equi_keys(cs, a, b);
    let rest = residual(cs, keys, a, b);
    let (kl, kr) = (key_of(left_keys(keys), l), key_of(right_keys(keys), r));
    lemma_residual(cs, keys, a, b);
    lemma_equi_keys(cs, a, b);
    assert forall|k: int| 0 <= k < rest.len() implies applies(#[trigger] rest[k], a + b) by {}
    lemma_all_hold(rest, a + b, l + r);
    if meets(cs, a + b, l + r) {
        assert forall|k: int| 0 <= k < rest.len() implies holds(#[trigger] rest[k], l + r, a + b)
            == Some(true) by {
            let m = choose|m: int| 0 <= m < cs.len() && cs[m] == rest[k];
            assert(applies(cs[m], a + b));
        }
        assert forall|m: int| 0 <= m < keys.len() implies #[trigger] kl[m] == kr[m] by {
            let key = keys[m];
            let k = choose|k: int|
                0 <= k < cs.len() && join_columns(#[trigger] cs[k], a, b) == Some(keys[m]);
            lemma_key_values(cs[k], a, b, l, r, key.0, key.1);
            assert(pair_faithful(cs[k], a, b, l, r));
            assert(applies(cs[k], a + b));
            assert(kl[m] == l[key.0 as int]);
            assert(kr[m] == r[key.1 as int]);
        }
        assert(kl =~= kr);
    }
    if kl == kr && all_hold(rest, l + r, a + b) == Some(true) {
        assert forall|k: int| 0 <= k < cs.len() && applies(#[trigger] cs[k], a + b) implies holds(
            cs[k],
            l + r,
            a + b,
        ) == Some(true) by {
            let c = cs[k];
            if joined_on(c, keys, a, b) {
                let name = c.operand->Column_0;
                let m = choose|m: int|
                    0 <= m < keys.len() && {
                        let (x, y) = #[trigger] keys[m];
                        ||| a[x as int].0 == c.column && b[y as int].0 == name
                        ||| a[x as int].0 == name && b[y as int].0 == c.column
                    };
                let (x, y) = keys[m];
                let q = choose|q: int|
                    0 <= q < cs.len() && join_columns(#[trigger] cs[q], a, b) == Some(keys[m]);
                lemma_join_columns(cs[q], a, b, x, y);
                assert(kl[m] == kr[m]);
                assert(l[x as int] == r[y as int]);
                assert(pair_faithful(c, a, b, l, r));
                lemma_named_key(c, a, b, l, r, x, y);
            } else {
                assert(rest.contains(c));
                let m = choose|m: int| 0 <= m < rest.len() && rest[m] == c;
                assert(holds(rest[m], l + r, a + b) == Some(true));
            }
        }
    }
}

/// What a key condition says of two rows.
proof fn lemma_key_values(
    c: Condition,
    a: SchemaModel,
    b: SchemaModel,
    l: RowModel,
    r: RowModel,
    x: usize,
    y: usize,
)
    requires
        l.len() == a.len(),
        r.len() == b.len(),
        a.len() <= usize::MAX,
        b.len() <= usize::MAX,
        !share_name(a, b),
        join_columns(c, a, b) == Some((x, y)),
        pair_faithful(c, a, b, l, r),
    ensures
        x < a.len(),
        y < b.len(),
        applies(c, a + b),
        holds(c, l + r, a + b) == Some(l[x as int] == r[y as int]),
{
    lemma_join_columns(c, a, b, x, y);
    lemma_named_key(c, a, b, l, r, x, y);
}

proof fn lemma_named_key(
    c: Condition,
    a: SchemaModel,
    b: SchemaModel,
    l: RowModel,
    r: RowModel,
    x: usize,
    y: usize,
)
    requires
        l.len() == a.len(),
        r.len() == b.len(),
        !share_name(a, b),
        x < a.len(),
        y < b.len(),
        column_of(a, a[x as int].0) == Some(x as int),
        column_of(b, b[y as int].0) == Some(y as int),
        c.operator is EQ,
        c.operand is Column,
        (a[x as int].0 == c.column && b[y as int].0 == c.operand->Column_0) || (a[x as int].0
            == c.operand->Column_0 && b[y as int].0 == c.column) || (column_of(a, c.column) == Some(
            x as int,
        ) && column_of(b, c.operand->Column_0) == Some(y as int)) || (column_of(
            a,
            c.operand->Column_0,
        ) == Some(x as int) && column_of(b, c.column) == Some(y as int)),
        pair_faithful(c, a, b, l, r),
    ensures
        applies(c, a + b),
        holds(c, l + r, a + b) == Some(l[x as int] == r[y as int]),
{
    let name = c.operand->Column_0;
    lemma_column_of(a, c.column);
    lemma_column_of(a, name);
    lemma_column_of(b, c.column);
    lemma_column_of(b, name);
    let (left_name, right_name) = (a[x as int].0, b[y as int].0);
    lemma_not_shared(a, b, right_name);
    lemma_value_left(a, b, l, r, left_name);
    lemma_value_right(a, b, l, r, right_name);
    lemma_column_concat(a, b, left_name);
    lemma_column_concat(a, b, right_name);
    let (u, v) = (l[x as int], r[y as int]);
    assert(value_named(a + b, l + r, left_name) == Some(u));
    assert(value_named(a + b, l + r, right_name) == Some(v));
}

// ── Several sides ────────────────────────────────────────────────────────────

/// The columns of some sides, one after the other in the given order.
pub open spec fn columns_in(schemas: Seq<SchemaModel>, order: Seq<int>) -> SchemaModel
    decreases order.len(),
{
    if order.len() == 0 {
        Seq::empty()
    } else {
        columns_in(schemas, order.drop_last()) + schemas[order.last()]
    }
}

/// One row of each side, one after the other in the given order. `combo` holds the place
/// of the row in its side.
pub open spec fn row_in(sides: Seq<Seq<RowModel>>, order: Seq<int>, combo: Seq<int>) -> RowModel
    decreases order.len(),
{
    if order.len() == 0 {
        Seq::empty()
    } else {
        row_in(sides, order.drop_last(), combo.drop_last())
            + sides[order.last()][combo.last()]
    }
}

/// There is such a row in each side.
pub open spec fn valid_combo(sides: Seq<Seq<RowModel>>, order: Seq<int>, combo: Seq<int>) -> bool {
    &&& combo.len() == order.len()
    &&& forall|k: int|
        0 <= k < order.len() ==> 0 <= #[trigger] combo[k] < sides[order[k]].len()
}

/// The order names some of `n` sides, none of them twice.
pub open spec fn some_sides(order: Seq<int>, n: nat) -> bool {
    distinct_places(order, n)
}

/// Every row of a side has a value for each of its columns.
pub open spec fn sides_fit(schemas: Seq<SchemaModel>, sides: Seq<Seq<RowModel>>) -> bool {
    &&& schemas.len() == sides.len()
    &&& forall|i: int, j: int|
        0 <= i < sides.len() && 0 <= j < sides[i].len() ==> (#[trigger] sides[i][j]).len()
            == schemas[i].len()
}

/// No two sides have a column name in common.
pub open spec fn names_apart(schemas: Seq<SchemaModel>) -> bool {
    forall|i: int, j: int|
        0 <= i < schemas.len() && 0 <= j < schemas.len() && i != j ==> !(#[trigger] share_name(
            schemas[i],
            schemas[j],
        ))
}

/// The condition compares only values that are equal as keys exactly where they are equal.
pub open spec fn sides_faithful(
    cs: Seq<Condition>,
    schemas: Seq<SchemaModel>,
    sides: Seq<Seq<RowModel>>,
) -> bool {
    forall|k: int, i: int, j: int, p: int, q: int|
        0 <= k < cs.len() && 0 <= i < sides.len() && 0 <= j < sides.len() && i != j && 0 <= p
            < sides[i].len() && 0 <= q < sides[j].len() ==> #[trigger] pair_faithful(
            cs[k],
            schemas[i],
            schemas[j],
            sides[i][p],
            sides[j][q],
        )
}

/// The rows are combinations of one row of each side, none of them twice, and all those
/// that meet the conditions are among them; `combos` tells which they are.
pub open spec fn reaches(
    cs: Seq<Condition>,
    schemas: Seq<SchemaModel>,
    sides: Seq<Seq<RowModel>>,
    order: Seq<int>,
    rows: Seq<RowModel>,
    combos: Seq<Seq<int>>,
) -> bool {
    &&& rows.len() == combos.len()
    &&& combos.no_duplicates()
    &&& forall|m: int|
        0 <= m < combos.len() ==> {
            let t = #[trigger] combos[m];
            &&& valid_combo(sides, order, t)
            &&& rows[m] == row_in(sides, order, t)
        }
    &&& forall|t: Seq<int>|
        valid_combo(sides, order, t) && meets(
            cs,
            columns_in(schemas, order),
            row_in(sides, order, t),
        ) ==> #[trigger] combos.contains(t)
}

/// The rows are the combinations of one row of each side that meet all conditions, each
/// once; `combos` tells which they are.
pub open spec fn covers(
    cs: Seq<Condition>,
    schemas: Seq<SchemaModel>,
    sides: Seq<Seq<RowModel>>,
    order: Seq<int>,
    rows: Seq<RowModel>,
    combos: Seq<Seq<int>>,
) -> bool {
    &&& reaches(cs, schemas, sides, order, rows, combos)
    &&& forall|m: int|
        0 <= m < rows.len() ==> meets(cs, columns_in(schemas, order), #[trigger] rows[m])
}

/// The side that has a column, and the value there.
pub proof fn lemma_named_side(
    schemas: Seq<SchemaModel>,
    sides: Seq<Seq<RowModel>>,
    order: Seq<int>,
    combo: Seq<int>,
    name: Seq<char>,
) -> (k: int)
    requires
        sides_fit(schemas, sides),
        some_sides(order, sides.len()),
        valid_combo(sides, order, combo),
    ensures
        row_in(sides, order, combo).len() == columns_in(schemas, order).len(),
        match column_of(columns_in(schemas, order), name) {
            Some(_) => {
                &&& 0 <= k < order.len()
                &&& column_of(schemas[order[k]], name) is Some
                &&& value_named(
                    columns_in(schemas, order),
                    row_in(sides, order, combo),
                    name,
                ) == value_named(schemas[order[k]], sides[order[k]][combo[k]], name)
            },
            None => forall|m: int|
                0 <= m < order.len() ==> column_of(schemas[#[trigger] order[m]], name) is None,
        },
    decreases order.len(),
{
    if order.len() == 0 {
        0
    } else {
        let front = order.drop_last();
        let t = combo.drop_last();
        let n = order.len() - 1;
        lemma_front_valid(sides, order, combo);
        let k = lemma_named_side(schemas, sides, front, t, name);
        let (a, b) = (columns_in(schemas, front), schemas[order.last()]);
        let (l, r) = (row_in(sides, front, t), sides[order.last()][combo.last()]);
        assert(order[n] == order.last() && combo[n] == combo.last());
        assert(r.len() == b.len());
        lemma_column_concat(a, b, name);
        if column_of(a, name) is Some {
            lemma_value_left(a, b, l, r, name);
            assert(front[k] == order[k] && t[k] == combo[k]);
            k
        } else {
            lemma_value_right(a, b, l, r, name);
            if column_of(b, name) is None {
                assert forall|m: int| 0 <= m < order.len() implies column_of(
                    schemas[#[trigger] order[m]],
                    name,
                ) is None by {
                    if m < n {
                        assert(front[m] == order[m]);
                    }
                }
            }
            n
        }
    }
}

proof fn lemma_front_valid(sides: Seq<Seq<RowModel>>, order: Seq<int>, combo: Seq<int>)
    requires
        order.len() > 0,
        some_sides(order, sides.len()),
        valid_combo(sides, order, combo),
    ensures
        some_sides(order.drop_last(), sides.len()),
        valid_combo(sides, order.drop_last(), combo.drop_last()),
        0 <= order.last() < sides.len(),
        0 <= combo.last() < sides[order.last()].len(),
{
    let (front, t) = (order.drop_last(), combo.drop_last());
    assert forall|k: int| 0 <= k < front.len() implies 0 <= #[trigger] front[k] < sides.len() by {
        assert(front[k] == order[k]);
    }
    assert forall|k: int| 0 <= k < front.len() implies 0 <= #[trigger] t[k]
        < sides[front[k]].len() by {
        assert(t[k] == combo[k] && front[k] == order[k]);
    }
    let n = order.len() - 1;
    assert(0 <= order[n] < sides.len());
    assert(0 <= combo[n] < sides[order[n]].len());
}

/// A new side has no name in common with those joined.
proof fn lemma_new_side_apart(
    schemas: Seq<SchemaModel>,
    sides: Seq<Seq<RowModel>>,
    order: Seq<int>,
    id: int,
)
    requires
        names_apart(schemas),
        schemas.len() == sides.len(),
        some_sides(order, sides.len()),
        0 <= id < schemas.len(),
        !order.contains(id),
    ensures
        !share_name(columns_in(schemas, order), schemas[id]),
    decreases order.len(),
{
    let b = schemas[id];
    if order.len() > 0 {
        let front = order.drop_last();
        assert forall|k: int| 0 <= k < front.len() implies 0 <= #[trigger] front[k]
            < sides.len() by {
            assert(front[k] == order[k]);
        }
        assert(!front.contains(id)) by {
            if front.contains(id) {
                let k = choose|k: int| 0 <= k < front.len() && front[k] == id;
                assert(order[k] == id);
            }
        }
        lemma_new_side_apart(schemas, sides, front, id);
        let a = columns_in(schemas, front);
        let last = order[order.len() - 1];
        assert(order.contains(last));
        assert(0 <= last < sides.len());
        assert(!share_name(schemas[last], b));
        let both = columns_in(schemas, order);
        assert forall|i: int, j: int|
            0 <= i < both.len() && 0 <= j < b.len() implies #[trigger] both[i].0
            != #[trigger] b[j].0 by {
            if i < a.len() {
                assert(both[i] == a[i]);
            } else {
                assert(both[i] == schemas[last][i - a.len()]);
            }
        }
    }
}

/// What is asked of pairs of a combination and a row of a new side.
proof fn lemma_combo_faithful(
    cs: Seq<Condition>,
    schemas: Seq<SchemaModel>,
    sides: Seq<Seq<RowModel>>,
    order: Seq<int>,
    combo: Seq<int>,
    id: int,
    q: int,
)
    requires
        sides_fit(schemas, sides),
        sides_faithful(cs, schemas, sides),
        some_sides(order, sides.len()),
        valid_combo(sides, order, combo),
        0 <= id < sides.len(),
        !order.contains(id),
        0 <= q < sides[id].len(),
    ensures
        forall|k: int|
            0 <= k < cs.len() ==> pair_faithful(
                #[trigger] cs[k],
                columns_in(schemas, order),
                schemas[id],
                row_in(sides, order, combo),
                sides[id][q],
            ),
{
    let (a, l) = (columns_in(schemas, order), row_in(sides, order, combo));
    let (b, r) = (schemas[id], sides[id][q]);
    assert forall|k: int| 0 <= k < cs.len() implies pair_faithful(
        #[trigger] cs[k],
        a,
        b,
        l,
        r,
    ) by {
        let c = cs[k];
        if let (ComparisionOperator::EQ, Operand::Column(name)) = (c.operator, c.operand) {
            let x = lemma_named_side(schemas, sides, order, combo, c.column);
            let y = lemma_named_side(schemas, sides, order, combo, name);
            if column_of(a, c.column) is Some {
                assert(order.contains(order[x]));
                assert(0 <= combo[x] < sides[order[x]].len());
                assert(pair_faithful(
                    cs[k],
                    schemas[order[x]],
                    schemas[id],
                    sides[order[x]][combo[x]],
                    sides[id][q],
                ));
            }
            if column_of(a, name) is Some {
                assert(order.contains(order[y]));
                assert(0 <= combo[y] < sides[order[y]].len());
                assert(pair_faithful(
                    cs[k],
                    schemas[order[y]],
                    schemas[id],
                    sides[order[y]][combo[y]],
                    sides[id][q],
                ));
            }
        }
    }
}

/// The combinations after a join of one more side: `pairs` tells what was joined, `kept`
/// what was left of it, and `places` which rows of the new side took part.
pub open spec fn combos_joined(
    combos: Seq<Seq<int>>,
    places: Seq<int>,
    pairs: Seq<(int, int)>,
    kept: Seq<int>,
) -> Seq<Seq<int>> {
    Seq::new(kept.len(), |m: int| combos[pairs[kept[m]].0].push(places[pairs[kept[m]].1]))
}

/// Joining one more side: what holds of the combinations so far holds of those after.
pub proof fn lemma_step(
    cs: Seq<Condition>,
    schemas: Seq<SchemaModel>,
    sides: Seq<Seq<RowModel>>,
    order: Seq<int>,
    rows: Seq<RowModel>,
    combos: Seq<Seq<int>>,
    id: int,
    places: Seq<int>,
    both: Seq<RowModel>,
    pairs: Seq<(int, int)>,
    good: spec_fn(int, int) -> bool,
)
    requires
        sides_fit(schemas, sides),
        names_apart(schemas),
        sides_faithful(cs, schemas, sides),
        some_sides(order, sides.len()),
        reaches(cs, schemas, sides, order, rows, combos),
        0 <= id < sides.len(),
        !order.contains(id),
        columns_in(schemas, order).len() <= usize::MAX,
        schemas[id].len() <= usize::MAX,
        distinct_places(places, sides[id].len()),
        forall|j: int|
            0 <= j < sides[id].len() && meets(cs, schemas[id], sides[id][j])
                ==> #[trigger] places.contains(j),
        joins(both, pairs, rows, rows_at(sides[id], places), good),
        ({
            let keys = equi_keys(cs, columns_in(schemas, order), schemas[id]);
            forall|i: int, j: int|
                0 <= i < rows.len() && 0 <= j < places.len() ==> (#[trigger] good(i, j) <==> key_of(
                    left_keys(keys),
                    rows[i],
                ) == key_of(right_keys(keys), sides[id][places[j]]))
        }),
    ensures
        ({
            let (a, b) = (columns_in(schemas, order), schemas[id]);
            let keys = equi_keys(cs, a, b);
            let rest = residual(cs, keys, a, b);
            let kept = kept_places(rest, a + b, both);
            &&& filter_rows(rest, a + b, both) == Some(rows_at(both, kept))
            &&& covers(
                cs,
                schemas,
                sides,
                order.push(id),
                rows_at(both, kept),
                combos_joined(combos, places, pairs, kept),
            )
            &&& columns_in(schemas, order.push(id)) == a + b
        }),
{
    let (a, b) = (columns_in(schemas, order), schemas[id]);
    let side = sides[id];
    let part = rows_at(side, places);
    let keys = equi_keys(cs, a, b);
    let rest = residual(cs, keys, a, b);
    let more = order.push(id);
    lemma_residual(cs, keys, a, b);
    lemma_filter_tells(rest, a + b, both);
    lemma_filter_keeps(rest, a + b, both);
    lemma_new_side_apart(schemas, sides, order, id);
    let kept = kept_places(rest, a + b, both);
    let out = rows_at(both, kept);
    let all = combos_joined(combos, places, pairs, kept);
    assert(more.drop_last() =~= order);
    assert(more.last() == id);
    assert(columns_in(schemas, more) == a + b);
    assert forall|m: int| 0 <= m < all.len() implies {
        let t = #[trigger] all[m];
        &&& valid_combo(sides, more, t)
        &&& out[m] == row_in(sides, more, t)
        &&& meets(cs, a + b, out[m])
    } by {
        let f = kept[m];
        assert(0 <= kept[m] < both.len());
        let (i, j) = pairs[f];
        let t = combos[i];
        let q = places[j];
        assert(0 <= places[j] < side.len());
        assert(valid_combo(sides, order, t));
        assert(all[m] == t.push(q));
        assert(t.push(q).drop_last() =~= t);
        assert forall|k: int| 0 <= k < more.len() implies 0 <= #[trigger] t.push(q)[k]
            < sides[more[k]].len() by {
            if k < order.len() {
                assert(t.push(q)[k] == t[k] && more[k] == order[k]);
            }
        }
        assert(part[j] == side[q]);
        assert(both[f] == rows[i] + side[q]);
        assert(kept.contains(f));
        let ignored = lemma_named_side(schemas, sides, order, t, Seq::empty());
        lemma_combo_faithful(cs, schemas, sides, order, t, id, q);
        lemma_pair_meets(cs, a, b, rows[i], side[q]);
        assert(good(i, j));
    }
    assert forall|m: int| 0 <= m < out.len() implies meets(
        cs,
        columns_in(schemas, more),
        #[trigger] out[m],
    ) by {
        let t = all[m];
    }
    assert forall|x: int, y: int|
        0 <= x < all.len() && 0 <= y < all.len() && x != y implies all[x] != all[y] by {
        assert(kept[x] != kept[y]);
        assert(0 <= kept[x] < both.len() && 0 <= kept[y] < both.len());
        let (p, q) = (pairs[kept[x]], pairs[kept[y]]);
        assert(p != q);
        assert(all[x].drop_last() =~= combos[p.0] && all[x].last() == places[p.1]);
        assert(all[y].drop_last() =~= combos[q.0] && all[y].last() == places[q.1]);
        if all[x] == all[y] {
            assert(combos[p.0] == combos[q.0]);
            assert(p.0 == q.0);
            assert(places[p.1] == places[q.1]);
            assert(p.1 == q.1);
        }
    }
    assert forall|t: Seq<int>|
        valid_combo(sides, more, t) && meets(
            cs,
            columns_in(schemas, more),
            row_in(sides, more, t),
        ) implies #[trigger] all.contains(t) by {
        let front = t.drop_last();
        let q = t.last();
        assert(some_sides(more, sides.len())) by {
            assert forall|k: int| 0 <= k < more.len() implies 0 <= #[trigger] more[k]
                < sides.len() by {
                if k < order.len() {
                    assert(more[k] == order[k]);
                }
            }
        }
        lemma_front_valid(sides, more, t);
        let l = row_in(sides, order, front);
        let r = side[q];
        let ignored = lemma_named_side(schemas, sides, order, front, Seq::empty());
        assert(row_in(sides, more, t) == l + r);
        lemma_meets_left(cs, a, b, l, r);
        lemma_meets_right(cs, a, b, l, r);
        assert(combos.contains(front));
        let i = choose|i: int| 0 <= i < combos.len() && combos[i] == front;
        assert(valid_combo(sides, order, combos[i]));
        assert(rows[i] == l);
        assert(places.contains(q));
        let j = choose|j: int| 0 <= j < places.len() && places[j] == q;
        assert(part[j] == r);
        lemma_combo_faithful(cs, schemas, sides, order, front, id, q);
        lemma_pair_meets(cs, a, b, l, r);
        assert(good(i, j));
        assert(pairs.contains((i, j)));
        let f = choose|f: int| 0 <= f < pairs.len() && pairs[f] == (i, j);
        assert(both[f] == l + r);
        assert(kept.contains(f));
        let m = choose|m: int| 0 <= m < kept.len() && kept[m] == f;
        assert(all[m] == front.push(q));
        assert(front.push(q) =~= t);
    }
}

// ── Plans of joins ───────────────────────────────────────────────────────────

/// A filter without conditions keeps everything.
pub proof fn lemma_filter_none(schema: SchemaModel, rows: Seq<RowModel>)
    ensures
        filter_rows(Seq::empty(), schema, rows) == Some(rows),
    decreases rows.len(),
{
    if rows.len() > 0 {
        lemma_filter_none(schema, rows.drop_first());
        assert(seq![rows[0]] + rows.drop_first() =~= rows);
    } else {
        assert(rows =~= Seq::<RowModel>::empty());
    }
}

/// A filter that is left out where there is nothing to check is a filter.
proof fn lemma_filter_if_any(conditions: Seq<Condition>, child: Plan, d: DiskModel)
    ensures
        filter_if_any(conditions, child).columns() == child.columns(),
        filter_if_any(conditions, child).rows(d) == filtered(
            conditions,
            child.columns(),
            child.rows(d),
        ),
{
    if conditions.len() == 0 {
        assert(conditions =~= Seq::<Condition>::empty());
        if let Some(rows) = child.rows(d) {
            lemma_filter_none(child.columns(), rows);
        }
    }
}

/// What pushing conditions down to a side leaves of it.
proof fn lemma_pushed_down(cs: Seq<Condition>, leaf: LeafPlan, d: DiskModel) -> (places: Seq<int>)
    requires
        leaf.plan.rows(d) is Some,
    ensures
        ({
            let side = leaf.plan.rows(d)->0;
            &&& pushed_down(cs, leaf).columns() == leaf.plan.columns()
            &&& pushed_down(cs, leaf).rows(d) == Some(rows_at(side, places))
            &&& distinct_places(places, side.len())
            &&& forall|j: int|
                0 <= j < side.len() && meets(cs, leaf.plan.columns(), side[j])
                    ==> #[trigger] places.contains(j)
        }),
{
    let side = leaf.plan.rows(d)->0;
    let schema = leaf.plan.columns();
    if leaf.is_scan {
        let picked = applicable(cs, schema);
        lemma_applicable(cs, schema);
        lemma_filter_if_any(picked, leaf.plan, d);
        assert forall|k: int| 0 <= k < picked.len() implies applies(
            #[trigger] picked[k],
            schema,
        ) by {}
        lemma_filter_tells(picked, schema, side);
        lemma_filter_keeps(picked, schema, side);
        let places = kept_places(picked, schema, side);
        assert forall|j: int| 0 <= j < side.len() && meets(
            cs,
            schema,
            side[j],
        ) implies #[trigger] places.contains(j) by {
            lemma_all_hold(picked, schema, side[j]);
            assert forall|k: int| 0 <= k < picked.len() implies holds(
                #[trigger] picked[k],
                side[j],
                schema,
            ) == Some(true) by {
                let m = choose|m: int| 0 <= m < cs.len() && cs[m] == picked[k];
                assert(applies(cs[m], schema));
            }
        }
        places
    } else {
        let places = first_places(side.len());
        assert(rows_at(side, places) =~= side);
        assert forall|j: int| 0 <= j < side.len() && meets(
            cs,
            schema,
            side[j],
        ) implies #[trigger] places.contains(j) by {
            assert(places[j] == j);
        }
        places
    }
}

/// A join of one more side gives the combinations with it.
proof fn lemma_join_two(
    cs: Seq<Condition>,
    schemas: Seq<SchemaModel>,
    sides: Seq<Seq<RowModel>>,
    order: Seq<int>,
    left: Plan,
    combos: Seq<Seq<int>>,
    leaf: LeafPlan,
    id: int,
    block_size: nat,
    d: DiskModel,
) -> (after: Seq<Seq<int>>)
    requires
        sides_fit(schemas, sides),
        names_apart(schemas),
        sides_faithful(cs, schemas, sides),
        some_sides(order, sides.len()),
        left.columns() == columns_in(schemas, order),
        left.rows(d) is Some,
        reaches(cs, schemas, sides, order, left.rows(d)->0, combos),
        0 <= id < sides.len(),
        !order.contains(id),
        leaf.plan.columns() == schemas[id],
        leaf.plan.rows(d) == Some(sides[id]),
        left.columns().len() <= usize::MAX,
        schemas[id].len() <= usize::MAX,
        join_two(cs, left, pushed_down(cs, leaf), block_size).rows(d) is Some,
    ensures
        ({
            let both = join_two(cs, left, pushed_down(cs, leaf), block_size);
            &&& both.columns() == columns_in(schemas, order.push(id))
            &&& covers(cs, schemas, sides, order.push(id), both.rows(d)->0, after)
        }),
{
    let right = pushed_down(cs, leaf);
    let places = lemma_pushed_down(cs, leaf, d);
    let (a, b) = (left.columns(), right.columns());
    let keys = equi_keys(cs, a, b);
    let (li, ri) = (left_keys(keys), right_keys(keys));
    let rows = left.rows(d)->0;
    let part = rows_at(sides[id], places);
    let node = if keys.len() == 0 {
        Plan::Cross { left: Box::new(left), right: Box::new(right), block_size }
    } else {
        Plan::HashJoin { keys, left: Box::new(left), right: Box::new(right) }
    };
    lemma_filter_if_any(residual(cs, keys, a, b), node, d);
    assert(node.columns() == a + b);
    let both = node.rows(d)->0;
    let good = same_keys(li, ri, rows, part);
    lemma_cross_product(rows, part);
    lemma_hash_join(li, ri, rows, part);
    lemma_parts_join(li, ri, rows, part);
    assert forall|i: int, j: int| 0 <= i < rows.len() && 0 <= j < places.len() implies (
    #[trigger] good(i, j) <==> key_of(li, rows[i]) == key_of(ri, sides[id][places[j]])) by {
        assert(part[j] == sides[id][places[j]]);
    }
    if keys.len() == 0 {
        let pairs = choose|pairs: Seq<(int, int)>| joins(both, pairs, rows, part, any_pair());
        assert forall|i: int, j: int| #[trigger] good(i, j) by {
            assert(key_of(li, rows[i]) =~= key_of(ri, part[j]));
        }
        assert(joins(both, pairs, rows, part, good)) by {
            assert forall|i: int, j: int|
                0 <= i < rows.len() && 0 <= j < part.len() && #[trigger] good(
                    i,
                    j,
                ) implies pairs.contains((i, j)) by {
                let any = any_pair();
                assert(any(i, j));
            }
        }
        lemma_step(cs, schemas, sides, order, rows, combos, id, places, both, pairs, good);
        combos_joined(
            combos,
            places,
            pairs,
            kept_places(residual(cs, keys, a, b), a + b, both),
        )
    } else {
        let pairs = choose|pairs: Seq<(int, int)>| joins(both, pairs, rows, part, good);
        lemma_step(cs, schemas, sides, order, rows, combos, id, places, both, pairs, good);
        combos_joined(
            combos,
            places,
            pairs,
            kept_places(residual(cs, keys, a, b), a + b, both),
        )
    }
}

/// What is joined has rows where the whole has.
proof fn lemma_rest_has_rows(
    cs: Seq<Condition>,
    current: Plan,
    rest: Seq<LeafPlan>,
    block_size: nat,
    d: DiskModel,
)
    requires
        join_rest(cs, current, rest, block_size).rows(d) is Some,
    ensures
        current.rows(d) is Some,
    decreases rest.len(),
{
    let pos = last_max(scores(cs, current.columns(), rest));
    if 0 <= pos < rest.len() {
        let right = pushed_down(cs, rest[pos]);
        lemma_rest_has_rows(
            cs,
            join_two(cs, current, right, block_size),
            rest.remove(pos),
            block_size,
            d,
        );
        let keys = equi_keys(cs, current.columns(), right.columns());
        let node = if keys.len() == 0 {
            Plan::Cross { left: Box::new(current), right: Box::new(right), block_size }
        } else {
            Plan::HashJoin { keys, left: Box::new(current), right: Box::new(right) }
        };
        lemma_filter_if_any(residual(cs, keys, current.columns(), right.columns()), node, d);
    }
}

/// The sides that are still to be joined are those with the given numbers.
pub open spec fn leaves_are(
    rest: Seq<LeafPlan>,
    ids: Seq<int>,
    schemas: Seq<SchemaModel>,
    sides: Seq<Seq<RowModel>>,
    d: DiskModel,
) -> bool {
    &&& rest.len() == ids.len()
    &&& forall|i: int|
        0 <= i < rest.len() ==> {
            let leaf = #[trigger] rest[i];
            &&& leaf.plan.columns() == schemas[ids[i]]
            &&& leaf.plan.rows(d) == Some(sides[ids[i]])
        }
}

/// No side is too wide for its columns to be numbered, nor are all together.
pub open spec fn widths_ok(schemas: Seq<SchemaModel>) -> bool {
    &&& forall|order: Seq<int>|
        some_sides(order, schemas.len()) ==> #[trigger] columns_in(schemas, order).len()
            <= usize::MAX
    &&& forall|i: int|
        0 <= i < schemas.len() ==> (#[trigger] schemas[i]).len() <= usize::MAX
}

/// Joining all remaining sides gives the combinations of all sides.
proof fn lemma_join_rest(
    cs: Seq<Condition>,
    schemas: Seq<SchemaModel>,
    sides: Seq<Seq<RowModel>>,
    order: Seq<int>,
    current: Plan,
    combos: Seq<Seq<int>>,
    rest: Seq<LeafPlan>,
    ids: Seq<int>,
    block_size: nat,
    d: DiskModel,
) -> (r: (Seq<int>, Seq<Seq<int>>))
    requires
        sides_fit(schemas, sides),
        names_apart(schemas),
        sides_faithful(cs, schemas, sides),
        widths_ok(schemas),
        some_sides(order + ids, sides.len()),
        (order + ids).len() == sides.len(),
        current.columns() == columns_in(schemas, order),
        current.rows(d) is Some,
        reaches(cs, schemas, sides, order, current.rows(d)->0, combos),
        rest.len() == 0 ==> covers(cs, schemas, sides, order, current.rows(d)->0, combos),
        leaves_are(rest, ids, schemas, sides, d),
        join_rest(cs, current, rest, block_size).rows(d) is Some,
    ensures
        ({
            let (whole, after) = r;
            let plan = join_rest(cs, current, rest, block_size);
            &&& some_sides(whole, sides.len())
            &&& whole.len() == sides.len()
            &&& plan.columns() == columns_in(schemas, whole)
            &&& covers(cs, schemas, sides, whole, plan.rows(d)->0, after)
        }),
    decreases rest.len(),
{
    let list = scores(cs, current.columns(), rest);
    let pos = last_max(list);
    assert forall|k: int| 0 <= k < order.len() implies 0 <= #[trigger] order[k] < sides.len() by {
        assert((order + ids)[k] == order[k]);
    }
    assert(some_sides(order, sides.len())) by {
        assert forall|x: int, y: int|
            0 <= x < order.len() && 0 <= y < order.len() && x != y implies order[x] != order[y] by {
            assert((order + ids)[x] == order[x] && (order + ids)[y] == order[y]);
        }
    }
    if rest.len() == 0 {
        assert(order + ids =~= order);
        (order, combos)
    } else {
        lemma_last_max(list);
        let leaf = rest[pos];
        let id = ids[pos];
        assert((order + ids)[order.len() + pos] == id);
        assert(!order.contains(id)) by {
            if order.contains(id) {
                let k = choose|k: int| 0 <= k < order.len() && order[k] == id;
                assert((order + ids)[k] == id);
            }
        }
        let next = join_two(cs, current, pushed_down(cs, leaf), block_size);
        let (more, left) = (rest.remove(pos), ids.remove(pos));
        lemma_rest_has_rows(cs, next, more, block_size, d);
        let after = lemma_join_two(
            cs,
            schemas,
            sides,
            order,
            current,
            combos,
            leaf,
            id,
            block_size,
            d,
        );
        let order2 = order.push(id);
        let now = order2 + left;
        assert(some_sides(now, sides.len())) by {
            // Where each place of the new order was in the old one.
            let was = |k: int| -> int
                {
                    if k < order.len() {
                        k
                    } else if k == order.len() {
                        order.len() + pos
                    } else if k - 1 < order.len() + pos {
                        k - 1
                    } else {
                        k
                    }
                };
            assert forall|k: int| 0 <= k < now.len() implies {
                &&& 0 <= was(k) < (order + ids).len()
                &&& #[trigger] now[k] == (order + ids)[was(k)]
            } by {
                if k > order.len() {
                    let m = k - order.len() - 1;
                    assert(now[k] == left[m]);
                    if m < pos {
                        assert(left[m] == ids[m]);
                    } else {
                        assert(left[m] == ids[m + 1]);
                    }
                }
            }
            assert forall|x: int, y: int|
                0 <= x < now.len() && 0 <= y < now.len() && x != y implies now[x] != now[y] by {
                assert(was(x) != was(y));
                assert(now[x] == (order + ids)[was(x)]);
                assert(now[y] == (order + ids)[was(y)]);
            }
            assert forall|k: int| 0 <= k < now.len() implies 0 <= #[trigger] now[k]
                < sides.len() by {
                assert(now[k] == (order + ids)[was(k)]);
            }
        }
        assert(leaves_are(more, left, schemas, sides, d)) by {
            assert forall|i: int| 0 <= i < more.len() implies {
                let l = #[trigger] more[i];
                &&& l.plan.columns() == schemas[left[i]]
                &&& l.plan.rows(d) == Some(sides[left[i]])
            } by {
                if i < pos {
                    assert(more[i] == rest[i] && left[i] == ids[i]);
                } else {
                    assert(more[i] == rest[i + 1] && left[i] == ids[i + 1]);
                }
            }
        }
        lemma_join_rest(
            cs,
            schemas,
            sides,
            order2,
            next,
            after,
            more,
            left,
            block_size,
            d,
        )
    }
}

/// The columns of the sides of a join.
pub open spec fn schemas_of(leaves: Seq<LeafPlan>) -> Seq<SchemaModel> {
    Seq::new(leaves.len(), |i: int| leaves[i].plan.columns())
}

/// The rows of the sides of a join.
pub open spec fn sides_of(leaves: Seq<LeafPlan>, d: DiskModel) -> Seq<Seq<RowModel>> {
    Seq::new(leaves.len(), |i: int| leaves[i].plan.rows(d)->0)
}

/// The sides of a join can all be read, share no column name, and hold in the columns that
/// are compared only values that are equal as keys exactly where they are equal.
pub open spec fn joinable(cs: Seq<Condition>, leaves: Seq<LeafPlan>, d: DiskModel) -> bool {
    &&& leaves.len() > 1
    &&& !overlap(leaves)
    &&& forall|i: int| 0 <= i < leaves.len() ==> (#[trigger] leaves[i]).plan.rows(d) is Some
    &&& sides_faithful(cs, schemas_of(leaves), sides_of(leaves, d))
}

pub proof fn lemma_names_apart(leaves: Seq<LeafPlan>)
    requires
        !overlap(leaves),
    ensures
        names_apart(schemas_of(leaves)),
{
    let schemas = schemas_of(leaves);
    assert forall|i: int, j: int|
        0 <= i < schemas.len() && 0 <= j < schemas.len() && i != j implies !(
    #[trigger] share_name(schemas[i], schemas[j])) by {
        let (a, b) = (schemas[i], schemas[j]);
        if share_name(a, b) {
            let (x, y) = choose|x: int, y: int|
                0 <= x < a.len() && 0 <= y < b.len() && #[trigger] a[x].0 == #[trigger] b[y].0;
            if i < j {
                assert(share_name(leaves[i].plan.columns(), leaves[j].plan.columns()));
            } else {
                assert(b[y].0 == a[x].0);
                assert(share_name(leaves[j].plan.columns(), leaves[i].plan.columns()));
            }
        }
    }
}

proof fn lemma_single(sides: Seq<Seq<RowModel>>, start: int, t: Seq<int>)
    requires
        t.len() == 1,
    ensures
        row_in(sides, seq![start], t) == sides[start][t[0]],
{
    let order = seq![start];
    assert(order.drop_last() =~= Seq::<int>::empty());
    assert(row_in(sides, order.drop_last(), t.drop_last()) == Seq::<Value>::empty());
    assert(Seq::<Value>::empty() + sides[start][t[0]] =~= sides[start][t[0]]);
}

/// A join of several sides gives each combination of one row of each side that meets all
/// conditions, once. The columns of the sides come one after the other in some order.
pub proof fn lemma_join_covers(
    cs: Seq<Condition>,
    leaves: Seq<LeafPlan>,
    block_size: nat,
    d: DiskModel,
) -> (r: (Seq<int>, Seq<Seq<int>>))
    requires
        joinable(cs, leaves, d),
        sides_fit(schemas_of(leaves), sides_of(leaves, d)),
        widths_ok(schemas_of(leaves)),
        join_plan(cs, leaves, block_size).rows(d) is Some,
    ensures
        ({
            let (order, combos) = r;
            let plan = join_plan(cs, leaves, block_size);
            &&& some_sides(order, leaves.len())
            &&& order.len() == leaves.len()
            &&& plan.columns() == columns_in(schemas_of(leaves), order)
            &&& covers(
                cs,
                schemas_of(leaves),
                sides_of(leaves, d),
                order,
                plan.rows(d)->0,
                combos,
            )
        }),
{
    let (schemas, sides) = (schemas_of(leaves), sides_of(leaves, d));
    lemma_names_apart(leaves);
    let start = last_max(sizes(leaves));
    lemma_last_max(sizes(leaves));
    let leaf = leaves[start];
    let current = pushed_down(cs, leaf);
    let rest = leaves.remove(start);
    assert(leaf.plan.rows(d) is Some);
    let places = lemma_pushed_down(cs, leaf, d);
    lemma_rest_has_rows(cs, current, rest, block_size, d);
    let order = seq![start];
    let ids = first_places(leaves.len()).remove(start);
    let none = order.drop_last();
    assert(none =~= Seq::<int>::empty());
    assert(columns_in(schemas, none) == Seq::<(Seq<char>, crate::data::DataType)>::empty());
    assert(columns_in(schemas, order) =~= schemas[start]);
    let rows = current.rows(d)->0;
    let side = sides[start];
    let first = Seq::new(places.len(), |m: int| seq![places[m]]);
    assert(reaches(cs, schemas, sides, order, rows, first)) by {
        assert forall|m: int| 0 <= m < first.len() implies {
            let t = #[trigger] first[m];
            &&& valid_combo(sides, order, t)
            &&& rows[m] == row_in(sides, order, t)
        } by {
            assert(0 <= places[m] < side.len());
            lemma_single(sides, start, first[m]);
        }
        assert forall|x: int, y: int|
            0 <= x < first.len() && 0 <= y < first.len() && x != y implies first[x]
            != first[y] by {
            assert(first[x][0] == places[x] && first[y][0] == places[y]);
        }
        assert forall|t: Seq<int>|
            valid_combo(sides, order, t) && meets(
                cs,
                columns_in(schemas, order),
                row_in(sides, order, t),
            ) implies #[trigger] first.contains(t) by {
            assert(0 <= t[0] < sides[order[0]].len());
            lemma_single(sides, start, t);
            assert(places.contains(t[0]));
            let m = choose|m: int| 0 <= m < places.len() && places[m] == t[0];
            assert(first[m] =~= t);
        }
    }
    assert(leaves_are(rest, ids, schemas, sides, d)) by {
        assert forall|i: int| 0 <= i < rest.len() implies {
            let l = #[trigger] rest[i];
            &&& l.plan.columns() == schemas[ids[i]]
            &&& l.plan.rows(d) == Some(sides[ids[i]])
        } by {
            if i < start {
                assert(rest[i] == leaves[i] && ids[i] == i);
            } else {
                assert(rest[i] == leaves[i + 1] && ids[i] == i + 1);
            }
        }
    }
    let all = order + ids;
    assert(some_sides(all, sides.len())) by {
        assert forall|k: int| 0 <= k < all.len() implies {
            &&& 0 <= #[trigger] all[k] < sides.len()
            &&& all[k] == if k == 0 {
                start
            } else if k <= start {
                k - 1
            } else {
                k
            }
        } by {
            if k > 0 {
                assert(all[k] == ids[k - 1]);
            }
        }
    }
    lemma_join_rest(cs, schemas, sides, order, current, first, rest, ids, block_size, d)
}

} // verus!
