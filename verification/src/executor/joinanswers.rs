//! What queries over several tables give, and in which order tables are joined.

use vstd::prelude::*;

use crate::catalog::{ColumnSpec, ColumnStat, DbContext};
use crate::disk::DiskModel;
use crate::executor::answerlaws::{keeps, lemma_filter_answers, lemma_product_means, pair_place,
    said_by};
use crate::executor::flatten::{plain_columns, plain_rows};
use crate::executor::plan::{applicable, applies, at_least, columns_cardinality, conditions_of,
    equi_keys, filter_if_any, join_columns, join_plan, join_rest, join_two, joined_on, last_max,
    leaves_of, lemma_last_max, op_blocks, overlap, plan_of, pushed_down, residual, scores,
    share_name, sizes, stats_cardinality, table_blocks, Facts, Fault, LeafPlan, Plan};
use crate::executor::planlaws::{columns_in, schemas_of, value_named};
use crate::facts::known;
use crate::query::{ComparisionValue, Condition, Predicate, QueryOp};
use crate::querylaws::{defined, lemma_column_found, lemma_table_found, names, names_table,
    stuck_at};
use crate::row::{column_of, RowModel, SchemaModel};

verus! {

// ── Filters above cross products ─────────────────────────────────────────────

/// The value of a row under a name is that of the first column that has the name.
pub proof fn lemma_value_named_means(schema: SchemaModel, row: RowModel, name: Seq<char>)
    ensures
        forall|i: int| #[trigger]
            names(schema, name, i) ==> value_named(schema, row, name) == Some(row[i]),
        value_named(schema, row, name) is Some <==> exists|i: int| #[trigger]
            names(schema, name, i),
{
    lemma_column_found(schema, name);
}

/// Filters and cross products as they stand: a filter keeps the rows of which all its
/// predicates are true, and a cross product makes all pairs.
pub proof fn lemma_plain_rows_mean(
    op: QueryOp,
    ctx: DbContext,
    facts: Facts,
    d: DiskModel,
) -> (places: Seq<int>)
    ensures
        op matches QueryOp::Filter(data) ==> {
            let under = *data.underlying;
            let schema = plain_columns(under, ctx, facts);
            &&& plain_columns(op, ctx, facts) == schema
            &&& plain_rows(under, ctx, facts, d) matches Some(rows) ==> match plain_rows(
                op,
                ctx,
                facts,
                d,
            ) {
                Some(out) => keeps(out, rows, places, data.predicates@, schema),
                None => exists|i: int, k: int|
                    0 <= i < rows.len() && #[trigger] stuck_at(
                        data.predicates@,
                        schema,
                        rows[i],
                        k,
                    ),
            }
        },
        op matches QueryOp::Cross(data) ==> {
            &&& plain_columns(op, ctx, facts) == plain_columns(*data.left, ctx, facts)
                + plain_columns(*data.right, ctx, facts)
            &&& plain_rows(*data.left, ctx, facts, d) matches Some(l) ==> (plain_rows(
                *data.right,
                ctx,
                facts,
                d,
            ) matches Some(r) ==> (plain_rows(op, ctx, facts, d) matches Some(out) && {
                &&& out.len() == l.len() * r.len()
                &&& forall|i: int, j: int|
                    0 <= i < l.len() && 0 <= j < r.len() ==> out[#[trigger] pair_place(
                        i,
                        j,
                        r.len(),
                    )] == l[i] + r[j]
            }))
        },
        op is Scan || op is Project || op is Sort ==> {
            &&& plain_columns(op, ctx, facts) == plan_of(op, ctx, facts)->Ok_0.columns()
            &&& plain_rows(op, ctx, facts, d) == plan_of(op, ctx, facts)->Ok_0.rows(d)
        },
{
    match op {
        QueryOp::Filter(data) => {
            let cs = data.predicates.deep_view();
            assert(said_by(cs, data.predicates@));
            match plain_rows(*data.underlying, ctx, facts, d) {
                Some(rows) => lemma_filter_answers(
                    cs,
                    data.predicates@,
                    plain_columns(*data.underlying, ctx, facts),
                    rows,
                ),
                None => Seq::empty(),
            }
        },
        QueryOp::Cross(data) => {
            if let (Some(l), Some(r)) = (
                plain_rows(*data.left, ctx, facts, d),
                plain_rows(*data.right, ctx, facts, d),
            ) {
                lemma_product_means(l, r);
            }
            Seq::empty()
        },
        _ => Seq::empty(),
    }
}

/// Two of the sides have a column of the same name.
pub open spec fn name_twice(leaves: Seq<LeafPlan>, i: int, j: int, x: int, y: int) -> bool {
    &&& 0 <= i < j < leaves.len()
    &&& 0 <= x < leaves[i].plan.columns().len()
    &&& 0 <= y < leaves[j].plan.columns().len()
    &&& leaves[i].plan.columns()[x].0 == leaves[j].plan.columns()[y].0
}

/// A filter above sides of which two have a column of the same name is not taken apart: it
/// keeps the rows of what is below of which all its predicates are true.
pub proof fn lemma_common_names_query(
    op: QueryOp,
    ctx: DbContext,
    facts: Facts,
    d: DiskModel,
    i: int,
    j: int,
    x: int,
    y: int,
) -> (places: Seq<int>)
    requires
        op is Filter,
        plan_of(*op->Filter_0.underlying, ctx, facts) is Ok,
        leaves_of(*op->Filter_0.underlying, ctx, facts) is Ok,
        name_twice(leaves_of(*op->Filter_0.underlying, ctx, facts)->Ok_0, i, j, x, y),
    ensures
        ({
            let child = plan_of(*op->Filter_0.underlying, ctx, facts)->Ok_0;
            let ps = op->Filter_0.predicates@;
            &&& plan_of(op, ctx, facts) matches Ok(plan) && {
                &&& plan.columns() == child.columns()
                &&& child.rows(d) is None ==> plan.rows(d) is None
                &&& child.rows(d) matches Some(rows) ==> match plan.rows(d) {
                    Some(out) => keeps(out, rows, places, ps, child.columns()),
                    None => exists|n: int, k: int|
                        0 <= n < rows.len() && #[trigger] stuck_at(
                            ps,
                            child.columns(),
                            rows[n],
                            k,
                        ),
                }
            }
        }),
{
    let data = op->Filter_0;
    let leaves = leaves_of(*data.underlying, ctx, facts)->Ok_0;
    let (a, b) = (leaves[i].plan.columns(), leaves[j].plan.columns());
    assert(a[x].0 == b[y].0);
    assert(share_name(a, b));
    assert(overlap(leaves));
    let child = plan_of(*data.underlying, ctx, facts)->Ok_0;
    let cs = data.predicates.deep_view();
    assert(said_by(cs, data.predicates@));
    match child.rows(d) {
        Some(rows) => lemma_filter_answers(cs, data.predicates@, child.columns(), rows),
        None => Seq::empty(),
    }
}

/// A file whose blocks cannot be numbered cannot be read.
pub proof fn lemma_large_file_refused(op: QueryOp, ctx: DbContext, facts: Facts, t: int)
    requires
        op is Scan,
        names_table(ctx, op->Scan_0.table_id@, t),
        known(facts.starts, ctx.table_specs@[t].file_id@) is Some,
        known(facts.sizes, ctx.table_specs@[t].file_id@) is Some,
        known(facts.starts, ctx.table_specs@[t].file_id@)->0 + known(
            facts.sizes,
            ctx.table_specs@[t].file_id@,
        )->0 > u64::MAX,
    ensures
        plan_of(op, ctx, facts) == Err::<Plan, Fault>(
            Fault::FileTooLarge(ctx.table_specs@[t].file_id@),
        ),
{
    lemma_table_found(ctx, op->Scan_0.table_id@);
}

// ── How large a table is taken to be ─────────────────────────────────────────

/// Among what is known of the columns is that one has `n` distinct values.
pub open spec fn counted(columns: Seq<ColumnSpec>, i: int, j: int, n: u64) -> bool {
    &&& 0 <= i < columns.len()
    &&& columns[i].stats matches Some(stats) && 0 <= j < stats@.len() && (
    stats@[j] matches ColumnStat::CardinalityStat(data) && data.0 == n)
}

proof fn lemma_stats_cardinality(stats: Seq<ColumnStat>) -> (j: int)
    ensures
        forall|k: int|
            0 <= k < stats.len() ==> (#[trigger] stats[k] matches ColumnStat::CardinalityStat(data)
                ==> data.0 <= stats_cardinality(stats)),
        stats_cardinality(stats) > 0 ==> 0 <= j < stats.len() && stats[j]
            == ColumnStat::CardinalityStat(
            crate::catalog::CardinalityData(stats_cardinality(stats)),
        ),
    decreases stats.len(),
{
    if stats.len() == 0 {
        0
    } else {
        let front = stats.drop_last();
        let j = lemma_stats_cardinality(front);
        assert forall|k: int| 0 <= k < front.len() implies #[trigger] stats[k] == front[k] by {}
        if stats_cardinality(stats) == stats_cardinality(front) && stats_cardinality(front) > 0 {
            j
        } else {
            stats.len() - 1
        }
    }
}

/// The cardinality of a table is the largest number of distinct values that is known of any of
/// its columns, and zero where none is known.
pub proof fn lemma_cardinality_means(columns: Seq<ColumnSpec>) -> (at: (int, int))
    ensures
        forall|i: int, j: int, n: u64| #[trigger]
            counted(columns, i, j, n) ==> n <= columns_cardinality(columns),
        columns_cardinality(columns) > 0 ==> counted(
            columns,
            at.0,
            at.1,
            columns_cardinality(columns),
        ),
    decreases columns.len(),
{
    if columns.len() == 0 {
        (0, 0)
    } else {
        let front = columns.drop_last();
        let before = lemma_cardinality_means(front);
        let last = columns.len() - 1;
        let stats = columns[last].known();
        let j = lemma_stats_cardinality(stats);
        let all = columns_cardinality(columns);
        assert forall|i: int, k: int, n: u64| #[trigger] counted(columns, i, k, n) implies n
            <= all by {
            if i < last {
                assert(front[i] == columns[i]);
                assert(counted(front, i, k, n));
            } else {
                assert(stats[k] == ColumnStat::CardinalityStat(
                    crate::catalog::CardinalityData(n),
                ));
            }
        }
        if stats_cardinality(stats) > columns_cardinality(front) {
            (last, j)
        } else {
            if all > 0 {
                assert(front[before.0] == columns[before.0]);
            }
            before
        }
    }
}

/// The size of a table in blocks: where a cardinality is known, as many blocks of 4096 bytes
/// as that many rows of 128 bytes need, and else as many as its file has. A filter or a
/// projection is as large as what is below, and anything else counts as nothing.
pub proof fn lemma_sizes_mean(op: QueryOp, ctx: DbContext, facts: Facts)
    ensures
        match op {
            QueryOp::Scan(data) => {
                &&& forall|t: int| #[trigger]
                    names_table(ctx, data.table_id@, t) ==> {
                        let table = ctx.table_specs@[t];
                        let rows = columns_cardinality(table.column_specs@);
                        let n = op_blocks(op, ctx, facts);
                        if rows > 0 {
                            128 * rows <= 4096 * n < 128 * rows + 4096
                        } else {
                            known(facts.sizes, table.file_id@) matches Some(size) ==> n == size
                        }
                    }
                &&& (forall|t: int| !(#[trigger] names_table(ctx, data.table_id@, t)))
                    ==> op_blocks(op, ctx, facts) == 0
            },
            QueryOp::Filter(data) => op_blocks(op, ctx, facts) == op_blocks(
                *data.underlying,
                ctx,
                facts,
            ),
            QueryOp::Project(data) => op_blocks(op, ctx, facts) == op_blocks(
                *data.underlying,
                ctx,
                facts,
            ),
            _ => op_blocks(op, ctx, facts) == 0,
        },
{
    if let QueryOp::Scan(data) = op {
        lemma_table_found(ctx, data.table_id@);
        assert forall|t: int| #[trigger] names_table(ctx, data.table_id@, t) implies {
            let table = ctx.table_specs@[t];
            let rows = columns_cardinality(table.column_specs@);
            let n = op_blocks(op, ctx, facts);
            if rows > 0 {
                128 * rows <= 4096 * n < 128 * rows + 4096
            } else {
                known(facts.sizes, table.file_id@) matches Some(size) ==> n == size
            }
        } by {
            let table = ctx.table_specs@[t];
            assert(op_blocks(op, ctx, facts) == table_blocks(table, facts));
        }
    }
}

// ── Keys of joins ────────────────────────────────────────────────────────────

/// The predicate asks for a column of the left side and one of the right to be equal, and
/// these are their places.
pub open spec fn equates(
    p: Predicate,
    left: SchemaModel,
    right: SchemaModel,
    l: int,
    r: int,
) -> bool {
    &&& p.operator is EQ
    &&& p.value matches ComparisionValue::Column(other) && {
        ||| names(left, p.column_name@, l) && names(right, other@, r)
        ||| {
            &&& names(left, other@, l)
            &&& names(right, p.column_name@, r)
            &&& !(exists|x: int, y: int|
                #![trigger names(left, p.column_name@, x), names(right, other@, y)]
                names(left, p.column_name@, x) && names(right, other@, y))
        }
    }
}

/// A predicate is a key of a join exactly where it asks for a column of one side and one of
/// the other to be equal.
pub proof fn lemma_join_columns_mean(p: Predicate, left: SchemaModel, right: SchemaModel)
    ensures
        match join_columns(p.deep_view(), left, right) {
            Some((l, r)) => exists|x: int, y: int| #[trigger]
                equates(p, left, right, x, y) && l == x as usize && r == y as usize,
            None => forall|x: int, y: int| !(#[trigger] equates(p, left, right, x, y)),
        },
{
    let name = p.column_name@;
    lemma_column_found(left, name);
    lemma_column_found(right, name);
    if let ComparisionValue::Column(other) = p.value {
        lemma_column_found(left, other@);
        lemma_column_found(right, other@);
        if p.operator is EQ {
            match (column_of(left, name), column_of(right, other@)) {
                (Some(x), Some(y)) => {
                    assert(names(left, name, x) && names(right, other@, y));
                    assert(equates(p, left, right, x, y));
                },
                _ => match (column_of(left, other@), column_of(right, name)) {
                    (Some(x), Some(y)) => {
                        assert(names(left, other@, x) && names(right, name, y));
                        assert(equates(p, left, right, x, y));
                    },
                    _ => {},
                },
            }
        }
    }
}

/// The keys of a join are those of its conditions that are keys, in their order.
pub proof fn lemma_equi_keys_mean(cs: Seq<Condition>, left: SchemaModel, right: SchemaModel)
    ensures
        equi_keys(cs, left, right) == cs.filter_map(|c: Condition| join_columns(c, left, right)),
    decreases cs.len(),
{
    let f = |c: Condition| join_columns(c, left, right);
    if cs.len() > 0 {
        lemma_equi_keys_mean(cs.drop_last(), left, right);
        assert(equi_keys(cs, left, right) =~= cs.filter_map(f));
    } else {
        assert(equi_keys(cs, left, right) =~= cs.filter_map(f));
    }
}

// ── The order of joins ───────────────────────────────────────────────────────

/// The side at `i` is no worse a choice than that at `j` to be joined next to what has the
/// given columns: it has more keys in common, or as many and more blocks, or as many of both
/// and comes later.
pub open spec fn no_worse(
    cs: Seq<Condition>,
    columns: SchemaModel,
    leaves: Seq<LeafPlan>,
    i: int,
    j: int,
) -> bool {
    let (m, n) = (
        equi_keys(cs, columns, leaves[i].plan.columns()).len(),
        equi_keys(cs, columns, leaves[j].plan.columns()).len(),
    );
    ||| m > n
    ||| m == n && leaves[i].blocks > leaves[j].blocks
    ||| m == n && leaves[i].blocks == leaves[j].blocks && i >= j
}

/// Each side is joined once, and each time the one that is the best choice.
pub open spec fn best_first(
    cs: Seq<Condition>,
    leaves: Seq<LeafPlan>,
    order: Seq<int>,
    from: int,
) -> bool {
    &&& order.len() == leaves.len()
    &&& order.no_duplicates()
    &&& forall|k: int| 0 <= k < order.len() ==> 0 <= #[trigger] order[k] < leaves.len()
    &&& forall|k: int, m: int|
        from <= k < m < order.len() ==> no_worse(
            cs,
            columns_in(schemas_of(leaves), order.take(k)),
            leaves,
            #[trigger] order[k],
            #[trigger] order[m],
        )
}

proof fn lemma_columns_of_two(cs: Seq<Condition>, current: Plan, leaf: LeafPlan, block_size: nat)
    ensures
        join_two(cs, current, pushed_down(cs, leaf), block_size).columns() == current.columns()
            + leaf.plan.columns(),
        pushed_down(cs, leaf).columns() == leaf.plan.columns(),
{
    let right = pushed_down(cs, leaf);
    assert(right.columns() == leaf.plan.columns());
    let keys = equi_keys(cs, current.columns(), right.columns());
    let both = if keys.len() == 0 {
        Plan::Cross { left: Box::new(current), right: Box::new(right), block_size }
    } else {
        Plan::HashJoin { keys, left: Box::new(current), right: Box::new(right) }
    };
    assert(both.columns() == current.columns() + right.columns());
    let checks = residual(cs, keys, current.columns(), right.columns());
    assert(filter_if_any(checks, both).columns() == both.columns());
}

/// The sides joined one after the other in the given order.
pub open spec fn joined_in(
    cs: Seq<Condition>,
    leaves: Seq<LeafPlan>,
    order: Seq<int>,
    block_size: nat,
) -> Plan
    decreases order.len(),
{
    if order.len() <= 1 {
        pushed_down(cs, leaves[order[0]])
    } else {
        join_two(
            cs,
            joined_in(cs, leaves, order.drop_last(), block_size),
            pushed_down(cs, leaves[order.last()]),
            block_size,
        )
    }
}

/// A side that is a bare scan is filtered by the conditions that can be checked on it alone,
/// if any, and any other side is left as it is.
pub proof fn lemma_pushed_down_means(cs: Seq<Condition>, leaf: LeafPlan)
    ensures
        ({
            let own = cs.filter(|c: Condition| applies(c, leaf.plan.columns()));
            pushed_down(cs, leaf) == if leaf.is_scan && own.len() > 0 {
                Plan::Filter { conditions: own, child: Box::new(leaf.plan) }
            } else {
                leaf.plan
            }
        }),
{
    lemma_applicable_means(cs, leaf.plan.columns());
}

proof fn lemma_rest_order(
    cs: Seq<Condition>,
    leaves: Seq<LeafPlan>,
    current: Plan,
    done: Seq<int>,
    rest: Seq<LeafPlan>,
    places: Seq<int>,
    block_size: nat,
) -> (order: Seq<int>)
    requires
        rest.len() == places.len(),
        done.len() + places.len() == leaves.len(),
        forall|k: int|
            0 <= k < places.len() ==> 0 <= #[trigger] places[k] < leaves.len() && rest[k]
                == leaves[places[k]],
        forall|k: int, m: int| 0 <= k < m < places.len() ==> places[k] < places[m],
        forall|k: int| 0 <= k < done.len() ==> 0 <= #[trigger] done[k] < leaves.len(),
        done.no_duplicates(),
        forall|k: int, m: int|
            0 <= k < done.len() && 0 <= m < places.len() ==> #[trigger] done[k]
                != #[trigger] places[m],
        current.columns() == columns_in(schemas_of(leaves), done),
        done.len() > 0,
        current == joined_in(cs, leaves, done, block_size),
    ensures
        join_rest(cs, current, rest, block_size) == joined_in(cs, leaves, order, block_size),
        join_rest(cs, current, rest, block_size).columns() == columns_in(
            schemas_of(leaves),
            order,
        ),
        order.len() == leaves.len(),
        order.take(done.len() as int) == done,
        best_first(cs, leaves, order, done.len() as int),
        forall|m: int|
            done.len() <= m < order.len() ==> places.contains(#[trigger] order[m]),
    decreases rest.len(),
{
    let columns = current.columns();
    let list = scores(cs, columns, rest);
    let pos = last_max(list);
    if rest.len() == 0 {
        assert(done.take(done.len() as int) =~= done);
        done
    } else {
        lemma_last_max(list);
        let leaf = rest[pos];
        let next = join_two(cs, current, pushed_down(cs, leaf), block_size);
        lemma_columns_of_two(cs, current, leaf, block_size);
        let n = places[pos];
        let more = done.push(n);
        assert(more.drop_last() =~= done);
        assert(next == joined_in(cs, leaves, more, block_size));
        assert(next.columns() == columns_in(schemas_of(leaves), more));
        let (rest2, places2) = (rest.remove(pos), places.remove(pos));
        assert forall|k: int| 0 <= k < places2.len() implies 0 <= #[trigger] places2[k]
            < leaves.len() && rest2[k] == leaves[places2[k]] && places2[k] != n by {
            if k < pos {
                assert(places2[k] == places[k] && rest2[k] == rest[k]);
            } else {
                assert(places2[k] == places[k + 1] && rest2[k] == rest[k + 1]);
            }
        }
        assert forall|k: int, m: int| 0 <= k < m < places2.len() implies places2[k]
            < places2[m] by {
            let (a, b) = (
                if k < pos {
                    k
                } else {
                    k + 1
                },
                if m < pos {
                    m
                } else {
                    m + 1
                },
            );
            assert(places2[k] == places[a] && places2[m] == places[b]);
        }
        assert forall|k: int, m: int|
            0 <= k < more.len() && 0 <= m < places2.len() implies #[trigger] more[k]
            != #[trigger] places2[m] by {
            if k < done.len() {
                let b = if m < pos {
                    m
                } else {
                    m + 1
                };
                assert(places2[m] == places[b]);
                assert(done[k] != places[b]);
            }
        }
        assert(more.no_duplicates()) by {
            assert forall|k: int, m: int|
                0 <= k < more.len() && 0 <= m < more.len() && k != m implies more[k]
                != more[m] by {
                if k < done.len() && m < done.len() {
                    assert(done[k] != done[m]);
                } else if k < done.len() {
                    assert(done[k] != places[pos]);
                } else {
                    assert(done[m] != places[pos]);
                }
            }
        }
        let order = lemma_rest_order(cs, leaves, next, more, rest2, places2, block_size);
        let start = done.len() as int;
        assert(order.take(start) =~= done) by {
            assert forall|k: int| 0 <= k < start implies order[k] == done[k] by {
                assert(order.take(start + 1)[k] == more[k]);
            }
        }
        assert(order[start] == n) by {
            assert(order.take(start + 1)[start] == more[start]);
        }
        assert forall|m: int| start <= m < order.len() implies places.contains(
            #[trigger] order[m],
        ) by {
            if m > start {
                assert(places2.contains(order[m]));
                let k = choose|k: int| 0 <= k < places2.len() && places2[k] == order[m];
                let b = if k < pos {
                    k
                } else {
                    k + 1
                };
                assert(places[b] == order[m]);
            } else {
                assert(places[pos] == n);
            }
        }
        assert forall|k: int, m: int| start <= k < m < order.len() implies no_worse(
            cs,
            columns_in(schemas_of(leaves), order.take(k)),
            leaves,
            #[trigger] order[k],
            #[trigger] order[m],
        ) by {
            if k == start {
                assert(places.contains(order[m]));
                let b = choose|b: int| 0 <= b < places.len() && places[b] == order[m];
                assert(at_least(list[pos], list[b]));
                if b > pos {
                    assert(!at_least(list[b], list[pos]));
                } else if b < pos {
                    assert(places[b] < places[pos]);
                }
            }
        }
        order
    }
}

/// A join of several sides starts with the largest, and each time goes on with the side that
/// has the most keys in common with what has been joined; of several such the largest, and
/// of several such the last. The columns come in that order.
pub proof fn lemma_join_order(cs: Seq<Condition>, leaves: Seq<LeafPlan>, block_size: nat) -> (order:
    Seq<int>)
    requires
        leaves.len() > 0,
    ensures
        join_plan(cs, leaves, block_size) == joined_in(cs, leaves, order, block_size),
        join_plan(cs, leaves, block_size).columns() == columns_in(schemas_of(leaves), order),
        best_first(cs, leaves, order, 1),
        forall|j: int|
            0 <= j < leaves.len() ==> {
                ||| leaves[order[0]].blocks > (#[trigger] leaves[j]).blocks
                ||| leaves[order[0]].blocks == leaves[j].blocks && order[0] >= j
            },
{
    let list = sizes(leaves);
    lemma_last_max(list);
    let start = last_max(list);
    let places = Seq::new(
        (leaves.len() - 1) as nat,
        |k: int|
            if k < start {
                k
            } else {
                k + 1
            },
    );
    let rest = leaves.remove(start);
    let done = seq![start];
    let first = pushed_down(cs, leaves[start]);
    lemma_columns_of_two(cs, first, leaves[start], block_size);
    assert(done.drop_last() =~= Seq::<int>::empty());
    assert(columns_in(schemas_of(leaves), done.drop_last()) =~= Seq::empty());
    assert(columns_in(schemas_of(leaves), done) =~= leaves[start].plan.columns());
    let order = lemma_rest_order(cs, leaves, first, done, rest, places, block_size);
    assert(order[0] == start) by {
        assert(order.take(1)[0] == done[0]);
    }
    assert forall|j: int| 0 <= j < leaves.len() implies {
        ||| leaves[order[0]].blocks > (#[trigger] leaves[j]).blocks
        ||| leaves[order[0]].blocks == leaves[j].blocks && order[0] >= j
    } by {
        assert(at_least(list[start], list[j]));
        if j > start {
            assert(!at_least(list[j], list[start]));
        }
    }
    order
}

// ── Which plan a join gets ───────────────────────────────────────────────────

/// The sides of a join: a filter has those of what is below, a cross product those of its
/// left part and then those of its right part, and anything else is a side itself.
pub proof fn lemma_leaves_mean(op: QueryOp, ctx: DbContext, facts: Facts)
    ensures
        match op {
            QueryOp::Filter(data) => leaves_of(op, ctx, facts) == leaves_of(
                *data.underlying,
                ctx,
                facts,
            ),
            QueryOp::Cross(data) => match (
                leaves_of(*data.left, ctx, facts),
                leaves_of(*data.right, ctx, facts),
            ) {
                (Ok(left), Ok(right)) => leaves_of(op, ctx, facts) matches Ok(all) && {
                    &&& all.len() == left.len() + right.len()
                    &&& forall|i: int| 0 <= i < left.len() ==> #[trigger] all[i] == left[i]
                    &&& forall|i: int|
                        0 <= i < right.len() ==> all[left.len() + i] == #[trigger] right[i]
                },
                (Err(e), _) => leaves_of(op, ctx, facts) == Err::<Seq<LeafPlan>, Fault>(e),
                (_, Err(e)) => leaves_of(op, ctx, facts) == Err::<Seq<LeafPlan>, Fault>(e),
            },
            _ => match plan_of(op, ctx, facts) {
                Ok(plan) => leaves_of(op, ctx, facts) matches Ok(all) && {
                    &&& all.len() == 1
                    &&& all[0].plan == plan
                    &&& all[0].blocks == op_blocks(op, ctx, facts)
                    &&& all[0].is_scan <==> op is Scan
                },
                Err(e) => leaves_of(op, ctx, facts) == Err::<Seq<LeafPlan>, Fault>(e),
            },
        },
{
}

/// The conditions of a join: those of each filter, the upper ones first, and of a cross
/// product those of its left part and then those of its right part.
pub proof fn lemma_conditions_mean(op: QueryOp)
    ensures
        match op {
            QueryOp::Filter(data) => {
                let (n, all) = (data.predicates@.len(), conditions_of(op));
                &&& all.len() == n + conditions_of(*data.underlying).len()
                &&& forall|k: int|
                    0 <= k < n ==> #[trigger] all[k] == data.predicates@[k].deep_view()
                &&& all.skip(n as int) == conditions_of(*data.underlying)
            },
            QueryOp::Cross(data) => conditions_of(op) == conditions_of(*data.left)
                + conditions_of(*data.right),
            _ => conditions_of(op).len() == 0,
        },
{
    if let QueryOp::Filter(data) = op {
        let below = conditions_of(*data.underlying);
        assert(conditions_of(op).skip(data.predicates@.len() as int) =~= below);
    }
}

/// A filter above several sides that share no column name becomes a join of the sides: it
/// starts with the largest and goes on with the best choice each time, and its columns come
/// in that order.
pub proof fn lemma_join_query(op: QueryOp, ctx: DbContext, facts: Facts) -> (order: Seq<int>)
    requires
        op is Filter,
        leaves_of(op, ctx, facts) is Ok,
        leaves_of(op, ctx, facts)->Ok_0.len() > 1,
        forall|i: int, j: int, x: int, y: int|
            !(#[trigger] name_twice(leaves_of(op, ctx, facts)->Ok_0, i, j, x, y)),
    ensures
        ({
            let leaves = leaves_of(op, ctx, facts)->Ok_0;
            plan_of(op, ctx, facts) matches Ok(plan) && {
                &&& plan == joined_in(conditions_of(op), leaves, order, facts.block_size)
                &&& plan.columns() == columns_in(schemas_of(leaves), order)
                &&& best_first(conditions_of(op), leaves, order, 1)
                &&& forall|j: int|
                    0 <= j < leaves.len() ==> {
                        ||| leaves[order[0]].blocks > (#[trigger] leaves[j]).blocks
                        ||| leaves[order[0]].blocks == leaves[j].blocks && order[0] >= j
                    }
            }
        }),
{
    let leaves = leaves_of(op, ctx, facts)->Ok_0;
    if overlap(leaves) {
        let (i, j) = choose|i: int, j: int|
            0 <= i < j < leaves.len() && #[trigger] share_name(
                leaves[i].plan.columns(),
                leaves[j].plan.columns(),
            );
        let (a, b) = (leaves[i].plan.columns(), leaves[j].plan.columns());
        let (x, y) = choose|x: int, y: int|
            0 <= x < a.len() && 0 <= y < b.len() && #[trigger] a[x].0 == #[trigger] b[y].0;
        assert(name_twice(leaves, i, j, x, y));
    }
    lemma_join_order(conditions_of(op), leaves, facts.block_size)
}

/// A condition can be checked exactly where the columns that its predicate names are there.
pub proof fn lemma_applies_means(p: Predicate, schema: SchemaModel)
    ensures
        applies(p.deep_view(), schema) <==> defined(p, schema),
{
    lemma_column_found(schema, p.column_name@);
    if let ComparisionValue::Column(other) = p.value {
        lemma_column_found(schema, other@);
    }
}

/// The conditions that are checked on one side are those that can be, in their order.
pub proof fn lemma_applicable_means(cs: Seq<Condition>, schema: SchemaModel)
    ensures
        applicable(cs, schema) == cs.filter(|c: Condition| applies(c, schema)),
    decreases cs.len(),
{
    reveal(Seq::filter);
    if cs.len() > 0 {
        lemma_applicable_means(cs.drop_last(), schema);
    }
    assert(applicable(cs, schema) =~= cs.filter(|c: Condition| applies(c, schema)));
}

/// The conditions that are checked behind a join are those that can be and that the keys do
/// not see to, in their order.
pub proof fn lemma_residual_means(
    cs: Seq<Condition>,
    keys: Seq<(usize, usize)>,
    left: SchemaModel,
    right: SchemaModel,
)
    ensures
        residual(cs, keys, left, right) == cs.filter(
            |c: Condition| applies(c, left + right) && !joined_on(c, keys, left, right),
        ),
    decreases cs.len(),
{
    reveal(Seq::filter);
    if cs.len() > 0 {
        lemma_residual_means(cs.drop_last(), keys, left, right);
    }
    assert(residual(cs, keys, left, right) =~= cs.filter(
        |c: Condition| applies(c, left + right) && !joined_on(c, keys, left, right),
    ));
}

/// A predicate is seen to by the keys exactly where it asks for two columns to be equal that
/// are a key.
pub proof fn lemma_joined_on_means(
    p: Predicate,
    keys: Seq<(usize, usize)>,
    left: SchemaModel,
    right: SchemaModel,
)
    ensures
        joined_on(p.deep_view(), keys, left, right) <==> {
            &&& p.operator is EQ
            &&& p.value matches ComparisionValue::Column(other) && exists|k: int|
                0 <= k < keys.len() && {
                    let (l, r) = (
                        left[(#[trigger] keys[k]).0 as int].0,
                        right[keys[k].1 as int].0,
                    );
                    ||| l == p.column_name@ && r == other@
                    ||| l == other@ && r == p.column_name@
                }
        },
{
    if let ComparisionValue::Column(other) = p.value {
        if p.operator is EQ {
            if joined_on(p.deep_view(), keys, left, right) {
                let k = choose|k: int|
                    0 <= k < keys.len() && {
                        let (l, r) = #[trigger] keys[k];
                        ||| left[l as int].0 == p.column_name@ && right[r as int].0 == other@
                        ||| left[l as int].0 == other@ && right[r as int].0 == p.column_name@
                    };
                assert(keys[k] == keys[k]);
            }
        }
    }
}

/// Two sides that some predicate joins become a hash join on all such predicates, and other
/// sides a cross product. Above it the conditions are checked that are left, if any.
pub proof fn lemma_two_sides(
    ps: Seq<Predicate>,
    cs: Seq<Condition>,
    left: Plan,
    right: Plan,
    block_size: nat,
)
    requires
        said_by(cs, ps),
    ensures
        ({
            let plan = join_two(cs, left, right, block_size);
            let (a, b) = (left.columns(), right.columns());
            let joined = exists|k: int, x: int, y: int|
                0 <= k < ps.len() && #[trigger] equates(ps[k], a, b, x, y);
            let hash = Plan::HashJoin {
                keys: cs.filter_map(|c: Condition| join_columns(c, a, b)),
                left: Box::new(left),
                right: Box::new(right),
            };
            let cross = Plan::Cross { left: Box::new(left), right: Box::new(right), block_size };
            let both = if joined {
                hash
            } else {
                cross
            };
            let keys = cs.filter_map(|c: Condition| join_columns(c, a, b));
            let left_over = cs.filter(
                |c: Condition| applies(c, a + b) && !joined_on(c, keys, a, b),
            );
            plan == if left_over.len() == 0 {
                both
            } else {
                Plan::Filter { conditions: left_over, child: Box::new(both) }
            }
        }),
{
    let (a, b) = (left.columns(), right.columns());
    lemma_equi_keys_mean(cs, a, b);
    lemma_some_key(ps, cs, a, b);
    lemma_residual_means(cs, equi_keys(cs, a, b), a, b);
}

proof fn lemma_some_key(ps: Seq<Predicate>, cs: Seq<Condition>, a: SchemaModel, b: SchemaModel)
    requires
        said_by(cs, ps),
    ensures
        equi_keys(cs, a, b).len() > 0 <==> exists|k: int, x: int, y: int|
            0 <= k < ps.len() && #[trigger] equates(ps[k], a, b, x, y),
    decreases cs.len(),
{
    if cs.len() > 0 {
        let (qs, ds) = (ps.drop_last(), cs.drop_last());
        let last = ps.len() - 1;
        assert(said_by(ds, qs)) by {
            assert forall|k: int| 0 <= k < qs.len() implies #[trigger] ds[k]
                == qs[k].deep_view() by {
                assert(cs[k] == ps[k].deep_view());
            }
        }
        lemma_some_key(qs, ds, a, b);
        assert(cs[last] == ps[last].deep_view());
        lemma_join_columns_mean(ps[last], a, b);
        if exists|k: int, x: int, y: int|
            0 <= k < ps.len() && #[trigger] equates(ps[k], a, b, x, y) {
            let (k, x, y) = choose|k: int, x: int, y: int|
                0 <= k < ps.len() && #[trigger] equates(ps[k], a, b, x, y);
            if k < last {
                assert(equates(qs[k], a, b, x, y));
            }
        }
        if exists|k: int, x: int, y: int|
            0 <= k < qs.len() && #[trigger] equates(qs[k], a, b, x, y) {
            let (k, x, y) = choose|k: int, x: int, y: int|
                0 <= k < qs.len() && #[trigger] equates(qs[k], a, b, x, y);
            assert(equates(ps[k], a, b, x, y));
        }
        if join_columns(cs.last(), a, b) is Some {
            let (x, y) = choose|x: int, y: int| #[trigger] equates(ps[last], a, b, x, y);
            assert(equates(ps[last], a, b, x, y));
        }
    }
}

/// A query has no plan where a part of it has none, and for the same reason; of two parts the
/// left comes first.
pub proof fn lemma_faults_pass(op: QueryOp, ctx: DbContext, facts: Facts)
    ensures
        match op {
            QueryOp::Project(data) => plan_of(*data.underlying, ctx, facts) matches Err(e)
                ==> plan_of(op, ctx, facts) == Err::<Plan, Fault>(e),
            QueryOp::Sort(data) => match plan_of(*data.underlying, ctx, facts) {
                Err(e) => plan_of(op, ctx, facts) == Err::<Plan, Fault>(e),
                Ok(_) => plan_of(op, ctx, facts) is Ok,
            },
            QueryOp::Cross(data) => match (
                plan_of(*data.left, ctx, facts),
                plan_of(*data.right, ctx, facts),
            ) {
                (Err(e), _) => plan_of(op, ctx, facts) == Err::<Plan, Fault>(e),
                (_, Err(e)) => plan_of(op, ctx, facts) == Err::<Plan, Fault>(e),
                _ => plan_of(op, ctx, facts) is Ok,
            },
            QueryOp::Filter(data) => leaves_of(*data.underlying, ctx, facts) matches Err(e)
                ==> plan_of(op, ctx, facts) == Err::<Plan, Fault>(e),
            _ => true,
        },
{
}

} // verus!
