//! What the operators of a plan give, row by row.

use vstd::prelude::*;

use crate::block::{all_fit, block_rows};
use crate::catalog::DbContext;
use crate::data::Value;
use crate::disk::DiskModel;
use crate::executor::cross::{beside, product};
use crate::executor::cursor::region_rows;
use crate::executor::filter::{all_hold, filter_rows};
use crate::executor::hashjoin::{left_keys, right_keys};
use crate::executor::joincore::INMEM_BUILD_BUDGET;
use crate::executor::joinlaws::{joins, kept_places, lemma_filter_keeps, lemma_parts_join,
    same_keys};
use crate::executor::jointable::matching;
use crate::executor::partition::rows_weight;
use crate::executor::partjoin::hash_joined;
use crate::executor::plan::{leaves_of, plan_of, Facts, Fault, Plan};
use crate::executor::project::{missing, picked};
use crate::facts::known;
use crate::key::key_of;
use crate::query::{Condition, Predicate, QueryOp};
use crate::querylaws::{all_true, defined, has_column, lemma_all_hold_means, lemma_column_found,
    lemma_key_means, lemma_table_columns, lemma_table_found, names, names_table, stuck_at};
use crate::row::{column_of, RowModel, SchemaModel};

verus! {

// ── Scans ────────────────────────────────────────────────────────────────────

/// Each of the groups is the rows of one block of a region, in the order of the blocks.
pub open spec fn groups_of(
    blocks: Map<int, Seq<u8>>,
    schema: SchemaModel,
    start: int,
    groups: Seq<Seq<RowModel>>,
) -> bool {
    forall|i: int|
        0 <= i < groups.len() ==> block_rows(blocks[start + i], schema) == Some(
            #[trigger] groups[i],
        )
}

/// The rows of a region are those of its blocks, one block after the other.
pub proof fn lemma_region_means(
    blocks: Map<int, Seq<u8>>,
    schema: SchemaModel,
    start: int,
    count: nat,
) -> (groups: Seq<Seq<RowModel>>)
    ensures
        region_rows(blocks, schema, start, count) matches Some(rows) ==> {
            &&& groups.len() == count
            &&& groups_of(blocks, schema, start, groups)
            &&& rows == groups.flatten()
        },
        region_rows(blocks, schema, start, count) is None ==> exists|i: int|
            0 <= i < count && (#[trigger] block_rows(blocks[start + i], schema)) is None,
    decreases count,
{
    if count == 0 {
        let none = Seq::<Seq<RowModel>>::empty();
        assert(none.flatten() =~= Seq::<RowModel>::empty());
        none
    } else {
        let front = lemma_region_means(blocks, schema, start, (count - 1) as nat);
        match (
            region_rows(blocks, schema, start, (count - 1) as nat),
            block_rows(blocks[start + count - 1], schema),
        ) {
            (Some(a), Some(b)) => {
                let groups = front.push(b);
                front.lemma_flatten_push(b);
                assert forall|i: int| 0 <= i < groups.len() implies block_rows(
                    blocks[start + i],
                    schema,
                ) == Some(#[trigger] groups[i]) by {
                    if i < front.len() {
                        assert(groups[i] == front[i]);
                    }
                }
                groups
            },
            (Some(a), None) => {
                assert(block_rows(blocks[start + (count - 1)], schema) is None);
                front
            },
            _ => front,
        }
    }
}

/// A query for a table reads the blocks of its file: from the block where the file starts, as
/// many as it has, in their order. Its columns are those of the table.
pub proof fn lemma_scan_answers(
    op: QueryOp,
    ctx: DbContext,
    facts: Facts,
    d: DiskModel,
    t: int,
) -> (groups: Seq<Seq<RowModel>>)
    requires
        op is Scan,
        names_table(ctx, op->Scan_0.table_id@, t),
        known(facts.starts, ctx.table_specs@[t].file_id@) is Some,
        known(facts.sizes, ctx.table_specs@[t].file_id@) is Some,
        known(facts.starts, ctx.table_specs@[t].file_id@)->0 + known(
            facts.sizes,
            ctx.table_specs@[t].file_id@,
        )->0 <= u64::MAX,
    ensures
        ({
            let table = ctx.table_specs@[t];
            let start = known(facts.starts, table.file_id@)->0 as int;
            let count = known(facts.sizes, table.file_id@)->0 as int;
            &&& plan_of(op, ctx, facts) matches Ok(plan) && {
                &&& plan.columns().len() == table.column_specs@.len()
                &&& forall|i: int|
                    0 <= i < table.column_specs@.len() ==> #[trigger] plan.columns()[i] == (
                        table.column_specs@[i].column_name@,
                        table.column_specs@[i].data_type,
                    )
                &&& plan.rows(d) matches Some(rows) ==> {
                    &&& groups.len() == count
                    &&& groups_of(d.blocks, plan.columns(), start, groups)
                    &&& rows == groups.flatten()
                }
                &&& plan.rows(d) is None ==> exists|i: int|
                    0 <= i < count && (#[trigger] block_rows(
                        d.blocks[start + i],
                        plan.columns(),
                    )) is None
            }
        }),
{
    let table = ctx.table_specs@[t];
    lemma_table_found(ctx, op->Scan_0.table_id@);
    lemma_table_columns(table);
    let start = known(facts.starts, table.file_id@)->0;
    let count = known(facts.sizes, table.file_id@)->0;
    lemma_region_means(d.blocks, table.columns(), start as int, count as nat)
}

/// A query for a table that there is not has no plan.
pub proof fn lemma_scan_refused(op: QueryOp, ctx: DbContext, facts: Facts)
    requires
        op is Scan,
        forall|t: int| !(#[trigger] names_table(ctx, op->Scan_0.table_id@, t)),
    ensures
        plan_of(op, ctx, facts) == Err::<Plan, Fault>(Fault::UnknownTable(op->Scan_0.table_id@)),
{
    lemma_table_found(ctx, op->Scan_0.table_id@);
}

// ── Filters ──────────────────────────────────────────────────────────────────

/// The conditions are what the predicates say.
pub open spec fn said_by(cs: Seq<Condition>, ps: Seq<Predicate>) -> bool {
    &&& cs.len() == ps.len()
    &&& forall|k: int| 0 <= k < ps.len() ==> #[trigger] cs[k] == ps[k].deep_view()
}

/// `out` is the rows at the given places, in their order, and the places are those of the
/// rows of which all predicates are true.
pub open spec fn keeps(
    out: Seq<RowModel>,
    rows: Seq<RowModel>,
    places: Seq<int>,
    ps: Seq<Predicate>,
    schema: SchemaModel,
) -> bool {
    &&& out.len() == places.len()
    &&& forall|k: int|
        0 <= k < places.len() ==> 0 <= #[trigger] places[k] < rows.len() && out[k]
            == rows[places[k]]
    &&& forall|k: int, m: int| 0 <= k < m < places.len() ==> places[k] < places[m]
    &&& forall|i: int|
        0 <= i < rows.len() ==> (#[trigger] places.contains(i) <==> all_true(ps, schema, rows[i]))
}

proof fn lemma_filter_none(cs: Seq<Condition>, schema: SchemaModel, rows: Seq<RowModel>)
    ensures
        filter_rows(cs, schema, rows) is None <==> exists|i: int|
            0 <= i < rows.len() && all_hold(cs, #[trigger] rows[i], schema) is None,
    decreases rows.len(),
{
    if rows.len() > 0 {
        let rest = rows.drop_first();
        lemma_filter_none(cs, schema, rest);
        if exists|i: int| 0 <= i < rest.len() && all_hold(cs, #[trigger] rest[i], schema) is None {
            let i = choose|i: int|
                0 <= i < rest.len() && all_hold(cs, #[trigger] rest[i], schema) is None;
            assert(rows[i + 1] == rest[i]);
        }
        if exists|i: int| 0 <= i < rows.len() && all_hold(cs, #[trigger] rows[i], schema) is None {
            let i = choose|i: int|
                0 <= i < rows.len() && all_hold(cs, #[trigger] rows[i], schema) is None;
            if i > 0 {
                assert(rest[i - 1] == rows[i]);
            }
        }
        if all_hold(cs, rows[0], schema) is None {
            assert(all_hold(cs, rows[0], schema) is None);
        }
    }
}

/// A filter gives the rows of which all predicates are true, in their order, and no others.
/// It fails exactly where a predicate that is asked of some row names a column that is not
/// there.
pub proof fn lemma_filter_answers(
    cs: Seq<Condition>,
    ps: Seq<Predicate>,
    schema: SchemaModel,
    rows: Seq<RowModel>,
) -> (places: Seq<int>)
    requires
        said_by(cs, ps),
    ensures
        match filter_rows(cs, schema, rows) {
            Some(out) => keeps(out, rows, places, ps, schema),
            None => exists|i: int, k: int|
                0 <= i < rows.len() && #[trigger] stuck_at(ps, schema, rows[i], k),
        },
        (exists|i: int, k: int|
            0 <= i < rows.len() && #[trigger] stuck_at(ps, schema, rows[i], k)) ==> filter_rows(
            cs,
            schema,
            rows,
        ) is None,
{
    lemma_filter_none(cs, schema, rows);
    assert forall|i: int| 0 <= i < rows.len() implies (#[trigger] all_hold(cs, rows[i], schema)
        is None <==> exists|k: int| #[trigger] stuck_at(ps, schema, rows[i], k)) by {
        lemma_all_hold_means(ps, cs, schema, rows[i]);
    }
    if exists|i: int, k: int|
        0 <= i < rows.len() && #[trigger] stuck_at(ps, schema, rows[i], k) {
        let (i, k) = choose|i: int, k: int|
            0 <= i < rows.len() && #[trigger] stuck_at(ps, schema, rows[i], k);
        assert(all_hold(cs, rows[i], schema) is None);
    }
    if filter_rows(cs, schema, rows) is None {
        let i = choose|i: int|
            0 <= i < rows.len() && all_hold(cs, #[trigger] rows[i], schema) is None;
        assert(all_hold(cs, rows[i], schema) is None);
        let k = choose|k: int| #[trigger] stuck_at(ps, schema, rows[i], k);
        assert(stuck_at(ps, schema, rows[i], k));
        Seq::empty()
    } else {
        lemma_filter_keeps(cs, schema, rows);
        let places = kept_places(cs, schema, rows);
        assert forall|i: int| 0 <= i < rows.len() implies (#[trigger] places.contains(i)
            <==> all_true(ps, schema, rows[i])) by {
            lemma_all_hold_means(ps, cs, schema, rows[i]);
            assert(all_hold(cs, rows[i], schema) is Some);
            if all_true(ps, schema, rows[i]) {
                assert forall|k: int| 0 <= k < ps.len() implies defined(
                    #[trigger] ps[k],
                    schema,
                ) by {
                    if !defined(ps[k], schema) {
                        assert(stuck_at(ps, schema, rows[i], k));
                    }
                }
            }
        }
        places
    }
}

/// Below the filters there is no cross product.
pub open spec fn one_source(op: QueryOp) -> bool
    decreases op,
{
    match op {
        QueryOp::Filter(data) => one_source(*data.underlying),
        QueryOp::Cross(_) => false,
        _ => true,
    }
}

proof fn lemma_one_source(op: QueryOp, ctx: DbContext, facts: Facts)
    requires
        one_source(op),
        plan_of(op, ctx, facts) is Ok,
    ensures
        leaves_of(op, ctx, facts) matches Ok(leaves) && leaves.len() == 1,
    decreases op,
{
    if let QueryOp::Filter(data) = op {
        lemma_source_leaves(*data.underlying, ctx, facts);
    }
}

proof fn lemma_source_leaves(op: QueryOp, ctx: DbContext, facts: Facts)
    requires
        one_source(op),
    ensures
        leaves_of(op, ctx, facts) matches Ok(leaves) ==> leaves.len() == 1,
    decreases op,
{
    if let QueryOp::Filter(data) = op {
        lemma_source_leaves(*data.underlying, ctx, facts);
    }
}

/// A query that filters one source gives the rows of the source of which all its predicates
/// are true, in their order, with their columns.
pub proof fn lemma_filter_query(op: QueryOp, ctx: DbContext, facts: Facts, d: DiskModel) -> (places:
    Seq<int>)
    requires
        op is Filter,
        one_source(op),
        plan_of(*op->Filter_0.underlying, ctx, facts) is Ok,
    ensures
        ({
            let child = plan_of(*op->Filter_0.underlying, ctx, facts)->Ok_0;
            let ps = op->Filter_0.predicates@;
            &&& plan_of(op, ctx, facts) matches Ok(plan) && {
                &&& plan.columns() == child.columns()
                &&& child.rows(d) is None ==> plan.rows(d) is None
                &&& child.rows(d) matches Some(rows) ==> match plan.rows(d) {
                    Some(out) => keeps(out, rows, places, ps, child.columns()),
                    None => exists|i: int, k: int|
                        0 <= i < rows.len() && #[trigger] stuck_at(
                            ps,
                            child.columns(),
                            rows[i],
                            k,
                        ),
                }
            }
        }),
{
    let data = op->Filter_0;
    lemma_one_source(*data.underlying, ctx, facts);
    let child = plan_of(*data.underlying, ctx, facts)->Ok_0;
    let cs = data.predicates.deep_view();
    let ps = data.predicates@;
    assert(said_by(cs, ps));
    match child.rows(d) {
        Some(rows) => lemma_filter_answers(cs, ps, child.columns(), rows),
        None => Seq::empty(),
    }
}

// ── Projections ──────────────────────────────────────────────────────────────

proof fn lemma_picked(map: Seq<(Seq<char>, Seq<char>)>, schema: SchemaModel)
    ensures
        picked(map, schema) is Some <==> missing(map, schema) is None,
        match picked(map, schema) {
            Some(places) => {
                &&& places.len() == map.len()
                &&& forall|k: int|
                    0 <= k < map.len() ==> column_of(schema, (#[trigger] map[k]).0) == Some(
                        places[k],
                    )
            },
            None => exists|k: int| {
                &&& 0 <= k < map.len()
                &&& column_of(schema, (#[trigger] map[k]).0) is None
                &&& missing(map, schema) == Some(map[k].0)
                &&& forall|j: int|
                    0 <= j < k ==> column_of(schema, (#[trigger] map[j]).0) is Some
            },
        },
    decreases map.len(),
{
    if map.len() > 0 {
        let front = map.drop_last();
        lemma_picked(front, schema);
        match picked(front, schema) {
            Some(places) => {
                let k = map.len() - 1;
                assert forall|j: int| 0 <= j < k implies column_of(
                    schema,
                    (#[trigger] map[j]).0,
                ) == Some(places[j]) by {
                    assert(front[j] == map[j]);
                }
                if column_of(schema, map.last().0) is None {
                    assert(column_of(schema, map[k].0) is None);
                } else {
                    let all = picked(map, schema)->0;
                    assert forall|j: int| 0 <= j < map.len() implies column_of(
                        schema,
                        (#[trigger] map[j]).0,
                    ) == Some(all[j]) by {
                        if j < k {
                            assert(all[j] == places[j]);
                        }
                    }
                }
            },
            None => {
                let k = choose|k: int| {
                    &&& 0 <= k < front.len()
                    &&& column_of(schema, (#[trigger] front[k]).0) is None
                    &&& missing(front, schema) == Some(front[k].0)
                    &&& forall|j: int|
                        0 <= j < k ==> column_of(schema, (#[trigger] front[j]).0) is Some
                };
                assert(front[k] == map[k]);
                assert forall|j: int| 0 <= j < k implies column_of(
                    schema,
                    (#[trigger] map[j]).0,
                ) is Some by {
                    assert(front[j] == map[j]);
                }
                assert(column_of(schema, map[k].0) is None);
            },
        }
    }
}

/// A query that picks columns gives a row for each row below it. Its columns are as many as
/// the pairs of the map: each has the new name, the type of the first column below that has
/// the old name, and the values of that column.
pub proof fn lemma_project_query(op: QueryOp, ctx: DbContext, facts: Facts, d: DiskModel)
    requires
        op is Project,
        plan_of(*op->Project_0.underlying, ctx, facts) is Ok,
    ensures
        ({
            let child = plan_of(*op->Project_0.underlying, ctx, facts)->Ok_0;
            let map = op->Project_0.column_name_map@;
            match plan_of(op, ctx, facts) {
                Ok(plan) => {
                    &&& plan.columns().len() == map.len()
                    &&& forall|k: int|
                        0 <= k < map.len() ==> has_column(child.columns(), (#[trigger] map[k]).0@)
                    &&& forall|k: int, c: int|
                        0 <= k < map.len() && #[trigger] names(child.columns(), map[k].0@, c)
                            ==> plan.columns()[k] == (map[k].1@, child.columns()[c].1)
                    &&& plan.rows(d) is Some <==> child.rows(d) is Some
                    &&& child.rows(d) matches Some(rows) ==> {
                        let out = plan.rows(d)->0;
                        &&& out.len() == rows.len()
                        &&& forall|i: int|
                            0 <= i < rows.len() ==> (#[trigger] out[i]).len() == map.len()
                        &&& forall|i: int, k: int, c: int|
                            0 <= i < rows.len() && 0 <= k < map.len() && #[trigger] names(
                                child.columns(),
                                map[k].0@,
                                c,
                            ) ==> (#[trigger] out[i])[k] == rows[i][c]
                    }
                },
                Err(e) => exists|k: int| {
                    &&& 0 <= k < map.len()
                    &&& !has_column(child.columns(), (#[trigger] map[k]).0@)
                    &&& e == Fault::UnknownColumn(map[k].0@)
                    &&& forall|j: int|
                        0 <= j < k ==> has_column(child.columns(), (#[trigger] map[j]).0@)
                },
            }
        }),
{
    let data = op->Project_0;
    let child = plan_of(*data.underlying, ctx, facts)->Ok_0;
    let schema = child.columns();
    let raw = data.column_name_map@;
    let map = data.column_name_map.deep_view();
    lemma_picked(map, schema);
    assert forall|k: int| 0 <= k < raw.len() implies #[trigger] map[k] == (
        raw[k].0@,
        raw[k].1@,
    ) by {}
    assert forall|k: int| 0 <= k < raw.len() implies (has_column(schema, (#[trigger] raw[k]).0@)
        <==> column_of(schema, map[k].0) is Some) by {
        lemma_column_found(schema, raw[k].0@);
    }
    match plan_of(op, ctx, facts) {
        Ok(plan) => {
            let places = picked(map, schema)->0;
            assert forall|k: int, c: int|
                0 <= k < raw.len() && #[trigger] names(schema, raw[k].0@, c) implies places[k]
                == c by {
                lemma_column_found(schema, raw[k].0@);
                assert(column_of(schema, map[k].0) == Some(places[k]));
            }
            assert forall|k: int| 0 <= k < raw.len() implies has_column(
                schema,
                (#[trigger] raw[k]).0@,
            ) by {
                assert(column_of(schema, map[k].0) == Some(places[k]));
            }
        },
        Err(e) => {
            let k = choose|k: int| {
                &&& 0 <= k < map.len()
                &&& column_of(schema, (#[trigger] map[k]).0) is None
                &&& missing(map, schema) == Some(map[k].0)
                &&& forall|j: int|
                    0 <= j < k ==> column_of(schema, (#[trigger] map[j]).0) is Some
            };
            assert(!has_column(schema, raw[k].0@));
            assert forall|j: int| 0 <= j < k implies has_column(
                schema,
                (#[trigger] raw[j]).0@,
            ) by {
                assert(column_of(schema, map[j].0) is Some);
            }
        },
    }
}

// ── Cross products ───────────────────────────────────────────────────────────

/// The place of a pair among all pairs of some rows with `n` others.
pub open spec fn pair_place(i: int, j: int, n: nat) -> int {
    i * n + j
}

/// A cross product has a row for each pair: the left row, and the right row behind it.
/// The pairs come in the order of the left rows, and for each in that of the right rows.
pub proof fn lemma_product_means(left: Seq<RowModel>, right: Seq<RowModel>)
    ensures
        product(left, right).len() == left.len() * right.len(),
        forall|i: int, j: int|
            0 <= i < left.len() && 0 <= j < right.len() ==> {
                let at = #[trigger] pair_place(i, j, right.len());
                &&& 0 <= at < left.len() * right.len()
                &&& product(left, right)[at] == left[i] + right[j]
            },
    decreases left.len(),
{
    let n = right.len() as int;
    if left.len() > 0 {
        let rest = left.drop_first();
        lemma_product_means(rest, right);
        let all = product(left, right);
        assert(left.len() * n == n + rest.len() * n) by (nonlinear_arith)
            requires
                left.len() == rest.len() + 1,
        ;
        assert forall|i: int, j: int| 0 <= i < left.len() && 0 <= j < n implies {
            let at = #[trigger] pair_place(i, j, right.len());
            &&& 0 <= at < left.len() * right.len()
            &&& all[at] == left[i] + right[j]
        } by {
            assert(0 <= i * n && i * n + n <= left.len() * n) by (nonlinear_arith)
                requires
                    0 <= i,
                    i + 1 <= left.len(),
                    0 <= n,
            ;
            if i == 0 {
                assert(i * n == 0);
                assert(all[j] == beside(left[0], right)[j]);
            } else {
                assert((i - 1) * n + n == i * n) by (nonlinear_arith);
                let before = pair_place(i - 1, j, right.len());
                assert(product(rest, right)[before] == rest[i - 1] + right[j]);
                assert(all[before + n] == product(rest, right)[before]);
            }
        }
    }
}

/// A query for a cross product gives each pair of a left and a right row, with the columns of
/// both.
pub proof fn lemma_cross_query(op: QueryOp, ctx: DbContext, facts: Facts, d: DiskModel)
    requires
        op is Cross,
        plan_of(*op->Cross_0.left, ctx, facts) is Ok,
        plan_of(*op->Cross_0.right, ctx, facts) is Ok,
    ensures
        ({
            let left = plan_of(*op->Cross_0.left, ctx, facts)->Ok_0;
            let right = plan_of(*op->Cross_0.right, ctx, facts)->Ok_0;
            &&& plan_of(op, ctx, facts) matches Ok(plan) && {
                &&& plan.columns() == left.columns() + right.columns()
                &&& plan.rows(d) is Some <==> left.rows(d) is Some && (right.rows(d) matches Some(r)
                    && d.block_size >= 2 && all_fit(r, d.block_size))
                &&& plan.rows(d) matches Some(out) ==> {
                    let (l, r) = (left.rows(d)->0, right.rows(d)->0);
                    &&& out.len() == l.len() * r.len()
                    &&& forall|i: int, j: int|
                        0 <= i < l.len() && 0 <= j < r.len() ==> out[#[trigger] pair_place(
                            i,
                            j,
                            r.len(),
                        )] == l[i] + r[j]
                }
            }
        }),
{
    let left = plan_of(*op->Cross_0.left, ctx, facts)->Ok_0;
    let right = plan_of(*op->Cross_0.right, ctx, facts)->Ok_0;
    if let (Some(l), Some(r)) = (left.rows(d), right.rows(d)) {
        lemma_product_means(l, r);
    }
}

// ── Hash joins ───────────────────────────────────────────────────────────────

/// The two rows have the same values in all key columns.
pub open spec fn keys_agree(keys: Seq<(usize, usize)>, l: RowModel, r: RowModel) -> bool {
    forall|k: int|
        0 <= k < keys.len() ==> l[(#[trigger] keys[k]).0 as int] == r[keys[k].1 as int]
}

/// `out` is the pairs of rows that agree in their keys, each once, the left row and the right
/// row behind it.
pub open spec fn pairs_up(
    out: Seq<RowModel>,
    pairs: Seq<(int, int)>,
    left: Seq<RowModel>,
    right: Seq<RowModel>,
    keys: Seq<(usize, usize)>,
) -> bool {
    &&& out.len() == pairs.len()
    &&& pairs.no_duplicates()
    &&& forall|k: int|
        0 <= k < pairs.len() ==> {
            let (i, j) = #[trigger] pairs[k];
            &&& 0 <= i < left.len()
            &&& 0 <= j < right.len()
            &&& keys_agree(keys, left[i], right[j])
            &&& out[k] == left[i] + right[j]
        }
    &&& forall|i: int, j: int|
        0 <= i < left.len() && 0 <= j < right.len() && #[trigger] keys_agree(
            keys,
            left[i],
            right[j],
        ) ==> pairs.contains((i, j))
}

/// The pairs come in the order of the left rows, and for each in that of the right rows.
pub open spec fn pairs_in_order(pairs: Seq<(int, int)>) -> bool {
    forall|k: int, m: int|
        0 <= k < m < pairs.len() ==> {
            ||| (#[trigger] pairs[k]).0 < (#[trigger] pairs[m]).0
            ||| pairs[k].0 == pairs[m].0 && pairs[k].1 < pairs[m].1
        }
}

proof fn lemma_keys_agree(keys: Seq<(usize, usize)>, l: RowModel, r: RowModel)
    ensures
        key_of(left_keys(keys), l) == key_of(right_keys(keys), r) <==> keys_agree(keys, l, r),
{
    let (li, ri) = (left_keys(keys), right_keys(keys));
    lemma_key_means(li, l);
    lemma_key_means(ri, r);
    let (a, b) = (key_of(li, l), key_of(ri, r));
    if a == b {
        assert forall|k: int| 0 <= k < keys.len() implies l[(#[trigger] keys[k]).0 as int]
            == r[keys[k].1 as int] by {
            assert(a[k] == l[li[k] as int]);
            assert(b[k] == r[ri[k] as int]);
        }
    }
    if keys_agree(keys, l, r) {
        assert forall|k: int| 0 <= k < keys.len() implies a[k] == b[k] by {
            assert(a[k] == l[li[k] as int]);
            assert(b[k] == r[ri[k] as int]);
            assert(l[keys[k].0 as int] == r[keys[k].1 as int]);
        }
        assert(a =~= b);
    }
}

/// The rows that have a key, and where they are.
proof fn lemma_matching(indices: Seq<usize>, rows: Seq<RowModel>, key: Seq<Value>) -> (places: Seq<
    int,
>)
    ensures
        matching(indices, rows, key).len() == places.len(),
        forall|k: int|
            0 <= k < places.len() ==> {
                &&& 0 <= #[trigger] places[k] < rows.len()
                &&& matching(indices, rows, key)[k] == rows[places[k]]
                &&& key_of(indices, rows[places[k]]) == key
            },
        forall|k: int, m: int| 0 <= k < m < places.len() ==> places[k] < places[m],
        forall|j: int|
            0 <= j < rows.len() && #[trigger] key_of(indices, rows[j]) == key
                ==> places.contains(j),
    decreases rows.len(),
{
    if rows.len() == 0 {
        Seq::empty()
    } else {
        let front = rows.drop_last();
        let before = lemma_matching(indices, front, key);
        let last = rows.len() - 1;
        let places = if key_of(indices, rows.last()) == key {
            before.push(last)
        } else {
            before
        };
        let out = matching(indices, rows, key);
        assert forall|k: int| 0 <= k < places.len() implies {
            &&& 0 <= #[trigger] places[k] < rows.len()
            &&& out[k] == rows[places[k]]
            &&& key_of(indices, rows[places[k]]) == key
        } by {
            if k < before.len() {
                assert(places[k] == before[k]);
                assert(front[before[k]] == rows[before[k]]);
            }
        }
        assert forall|j: int|
            0 <= j < rows.len() && #[trigger] key_of(
                indices,
                rows[j],
            ) == key implies places.contains(j) by {
            if j < last {
                assert(front[j] == rows[j]);
                assert(key_of(indices, front[j]) == key);
                let k = choose|k: int| 0 <= k < before.len() && before[k] == j;
                assert(places[k] == j);
            } else {
                assert(places[before.len() as int] == j);
            }
        }
        places
    }
}

proof fn lemma_hash_joined(
    keys: Seq<(usize, usize)>,
    left: Seq<RowModel>,
    right: Seq<RowModel>,
) -> (pairs: Seq<(int, int)>)
    ensures
        pairs_up(
            hash_joined(left_keys(keys), right_keys(keys), left, right),
            pairs,
            left,
            right,
            keys,
        ),
        pairs_in_order(pairs),
    decreases left.len(),
{
    let (li, ri) = (left_keys(keys), right_keys(keys));
    if left.len() == 0 {
        Seq::empty()
    } else {
        let rest = left.drop_first();
        let later = lemma_hash_joined(keys, rest, right);
        let key = key_of(li, left[0]);
        let js = lemma_matching(ri, right, key);
        let first = Seq::new(js.len(), |k: int| (0int, js[k]));
        let moved = Seq::new(later.len(), |k: int| (later[k].0 + 1, later[k].1));
        let pairs = first + moved;
        let head = beside(left[0], matching(ri, right, key));
        let tail = hash_joined(li, ri, rest, right);
        let out = hash_joined(li, ri, left, right);
        assert(out == head + tail);
        assert forall|k: int| 0 <= k < pairs.len() implies {
            let (i, j) = #[trigger] pairs[k];
            &&& 0 <= i < left.len()
            &&& 0 <= j < right.len()
            &&& keys_agree(keys, left[i], right[j])
            &&& out[k] == left[i] + right[j]
        } by {
            if k < first.len() {
                assert(pairs[k] == first[k]);
                assert(0 <= js[k] < right.len());
                lemma_keys_agree(keys, left[0], right[js[k]]);
                assert(out[k] == head[k]);
            } else {
                let m = k - first.len();
                assert(pairs[k] == moved[m]);
                let (i, j) = later[m];
                assert(rest[i] == left[i + 1]);
                assert(out[k] == tail[m]);
            }
        }
        assert(pairs_in_order(pairs)) by {
            assert forall|k: int, m: int| 0 <= k < m < pairs.len() implies {
                ||| (#[trigger] pairs[k]).0 < (#[trigger] pairs[m]).0
                ||| pairs[k].0 == pairs[m].0 && pairs[k].1 < pairs[m].1
            } by {
                if m < first.len() {
                    assert(pairs[k] == first[k] && pairs[m] == first[m]);
                    assert(js[k] < js[m]);
                } else if k < first.len() {
                    assert(pairs[k] == first[k]);
                    let n = m - first.len();
                    assert(pairs[m] == moved[n]);
                    assert(0 <= later[n].0);
                } else {
                    let (a, b) = (k - first.len(), m - first.len());
                    assert(pairs[k] == moved[a] && pairs[m] == moved[b]);
                    assert(later[a].0 < later[b].0 || later[a].0 == later[b].0 && later[a].1
                        < later[b].1);
                }
            }
        }
        assert(pairs.no_duplicates());
        assert forall|i: int, j: int|
            0 <= i < left.len() && 0 <= j < right.len() && #[trigger] keys_agree(
                keys,
                left[i],
                right[j],
            ) implies pairs.contains((i, j)) by {
            if i == 0 {
                lemma_keys_agree(keys, left[0], right[j]);
                assert(key_of(ri, right[j]) == key);
                let k = choose|k: int| 0 <= k < js.len() && js[k] == j;
                assert(pairs[k] == (i, j));
            } else {
                assert(rest[i - 1] == left[i]);
                assert(keys_agree(keys, rest[i - 1], right[j]));
                assert(later.contains((i - 1, j)));
                let k = choose|k: int| 0 <= k < later.len() && later[k] == (i - 1, j);
                assert(pairs[first.len() + k] == moved[k]);
                assert(pairs[first.len() + k] == (i, j));
            }
        }
        pairs
    }
}

/// A hash join gives each pair of a left and a right row that agree in all key columns, once,
/// with the columns of both. Where the right rows stay in memory, the pairs come in the order
/// of the left rows, and for each in that of the right rows.
pub proof fn lemma_hash_join_answers(
    keys: Seq<(usize, usize)>,
    left: Plan,
    right: Plan,
    d: DiskModel,
) -> (pairs: Seq<(int, int)>)
    ensures
        ({
            let plan = Plan::HashJoin { keys, left: Box::new(left), right: Box::new(right) };
            &&& plan.columns() == left.columns() + right.columns()
            &&& plan.rows(d) is Some <==> (left.rows(d) matches Some(l) && (right.rows(
                d,
            ) matches Some(r) && (rows_weight(r) < INMEM_BUILD_BUDGET || (all_fit(l, d.block_size)
                && all_fit(r, d.block_size)))))
            &&& plan.rows(d) matches Some(out) ==> {
                let (l, r) = (left.rows(d)->0, right.rows(d)->0);
                &&& pairs_up(out, pairs, l, r, keys)
                &&& rows_weight(r) < INMEM_BUILD_BUDGET ==> pairs_in_order(pairs)
            }
        }),
{
    let plan = Plan::HashJoin { keys, left: Box::new(left), right: Box::new(right) };
    match plan.rows(d) {
        Some(out) => {
            let (l, r) = (left.rows(d)->0, right.rows(d)->0);
            let (li, ri) = (left_keys(keys), right_keys(keys));
            if rows_weight(r) < INMEM_BUILD_BUDGET {
                lemma_hash_joined(keys, l, r)
            } else {
                lemma_parts_join(li, ri, l, r);
                let pairs = choose|pairs: Seq<(int, int)>|
                    joins(out, pairs, l, r, same_keys(li, ri, l, r));
                let good = same_keys(li, ri, l, r);
                assert forall|i: int, j: int| #[trigger] good(i, j) <==> keys_agree(
                    keys,
                    l[i],
                    r[j],
                ) by {
                    lemma_keys_agree(keys, l[i], r[j]);
                }
                assert forall|i: int, j: int|
                    0 <= i < l.len() && 0 <= j < r.len() && #[trigger] keys_agree(
                        keys,
                        l[i],
                        r[j],
                    ) implies pairs.contains((i, j)) by {
                    assert(good(i, j));
                }
                assert forall|k: int| 0 <= k < pairs.len() implies {
                    let (i, j) = #[trigger] pairs[k];
                    &&& 0 <= i < l.len()
                    &&& 0 <= j < r.len()
                    &&& keys_agree(keys, l[i], r[j])
                    &&& out[k] == l[i] + r[j]
                } by {
                    let (i, j) = pairs[k];
                    assert(good(i, j));
                }
                pairs
            }
        },
        None => Seq::empty(),
    }
}

} // verus!
