//! Plans: which operators a query becomes, and what they give.

use vstd::prelude::*;

use crate::catalog::{table_of, ColumnSpec, ColumnStat, DbContext, TableSpec};
use crate::disk::{DiskManager, DiskModel, Request};
use crate::executor::cross::crossed;
use crate::executor::cursor::{read_plan, region_rows};
use crate::executor::filter::filtered;
use crate::executor::hashjoin::{left_keys, right_keys};
use crate::executor::joincore::{joined, INMEM_BUILD_BUDGET};
use crate::executor::partition::rows_weight;
use crate::executor::parttraffic::join_requests;
use crate::executor::project::{missing, picked, projected, renamed};
use crate::executor::runtraffic::sort_requests;
use crate::executor::scan::BLOCKS_PER_READ;
use crate::executor::sorter::{sort_result, stays_in_memory};
use crate::executor::traffic::cross_requests;
use crate::facts::{known, FileFacts};
use crate::query::{ComparisionOperator, Condition, Operand, QueryOp, SortColumn};
use crate::row::{column_of, RowModel, SchemaModel};

verus! {

// ── Plans ────────────────────────────────────────────────────────────────────

/// A tree of operators.
pub enum Plan {
    Scan { columns: SchemaModel, start: u64, blocks: u64 },
    Filter { conditions: Seq<Condition>, child: Box<Plan> },
    Project { map: Seq<(Seq<char>, Seq<char>)>, child: Box<Plan> },
    Sort { by: Seq<SortColumn>, child: Box<Plan> },
    Cross { left: Box<Plan>, right: Box<Plan>, block_size: nat },
    HashJoin { keys: Seq<(usize, usize)>, left: Box<Plan>, right: Box<Plan> },
}

impl Plan {
    /// The columns of the rows.
    pub open spec fn columns(self) -> SchemaModel
        decreases self,
    {
        match self {
            Plan::Scan { columns, start, blocks } => columns,
            Plan::Filter { conditions, child } => child.columns(),
            Plan::Project { map, child } => renamed(
                map,
                picked(map, child.columns())->0,
                child.columns(),
            ),
            Plan::Sort { by, child } => child.columns(),
            Plan::Cross { left, right, block_size } => left.columns() + right.columns(),
            Plan::HashJoin { keys, left, right } => left.columns() + right.columns(),
        }
    }

    /// What the plan reads lies in used blocks of the disk.
    pub open spec fn placed(self, d: DiskModel) -> bool
        decreases self,
    {
        match self {
            Plan::Scan { columns, start, blocks } => start + blocks <= d.next,
            Plan::Filter { conditions, child } => child.placed(d),
            Plan::Project { map, child } => child.placed(d),
            Plan::Sort { by, child } => child.placed(d),
            Plan::Cross { left, right, block_size } => {
                &&& left.placed(d)
                &&& right.placed(d)
                &&& d.block_size == block_size
            },
            Plan::HashJoin { keys, left, right } => {
                &&& left.placed(d)
                &&& right.placed(d)
                &&& 0 <= d.next
            },
        }
    }

    /// The rows that come of a disk that holds what `d` says.
    pub open spec fn rows(self, d: DiskModel) -> Option<Seq<RowModel>>
        decreases self,
    {
        match self {
            Plan::Scan { columns, start, blocks } => region_rows(
                d.blocks,
                columns,
                start as int,
                blocks as nat,
            ),
            Plan::Filter { conditions, child } => filtered(
                conditions,
                child.columns(),
                child.rows(d),
            ),
            Plan::Project { map, child } => projected(
                picked(map, child.columns())->0,
                child.rows(d),
            ),
            Plan::Sort { by, child } => match child.rows(d) {
                Some(rows) => sort_result(by, child.columns(), d.block_size, rows),
                None => None,
            },
            Plan::Cross { left, right, block_size } => crossed(
                left.rows(d),
                right.rows(d),
                d.block_size,
            ),
            Plan::HashJoin { keys, left, right } => joined(
                left_keys(keys),
                right_keys(keys),
                left.rows(d),
                right.rows(d),
                d.block_size,
            ),
        }
    }
}

impl Plan {
    /// The plan works in memory alone and writes nothing to a disk that holds what `d` says:
    /// it makes no cross product, no sort fills a run, and the right rows of every join stay
    /// below the budget for them.
    pub open spec fn writes_nothing(self, d: DiskModel) -> bool
        decreases self,
    {
        match self {
            Plan::Scan { columns, start, blocks } => true,
            Plan::Filter { conditions, child } => child.writes_nothing(d),
            Plan::Project { map, child } => child.writes_nothing(d),
            Plan::Sort { by, child } => {
                &&& child.writes_nothing(d)
                &&& child.rows(d) matches Some(rows) && stays_in_memory(rows)
            },
            Plan::Cross { left, right, block_size } => false,
            Plan::HashJoin { keys, left, right } => {
                &&& left.writes_nothing(d)
                &&& right.writes_nothing(d)
                &&& right.rows(d) matches Some(rows) && rows_weight(rows) < INMEM_BUILD_BUDGET
            },
        }
    }
}

impl Plan {
    /// How many requests the plan makes of a disk that holds what `d` says, from its first
    /// row to its end.
    pub open spec fn requests(self, d: DiskModel) -> nat
        decreases self,
    {
        match self {
            Plan::Scan { columns, start, blocks } => read_plan(
                start as nat,
                blocks as nat,
                0,
                BLOCKS_PER_READ as nat,
            ).len(),
            Plan::Filter { conditions, child } => child.requests(d),
            Plan::Project { map, child } => child.requests(d),
            Plan::Sort { by, child } => child.requests(d) + sort_requests(
                by,
                child.columns(),
                d.block_size,
                Seq::empty(),
                Seq::empty(),
                child.rows(d)->0,
                0,
            ).len(),
            Plan::Cross { left, right, block_size } => left.requests(d) + right.requests(d)
                + cross_requests(
                right.rows(d)->0,
                left.rows(d)->0.len(),
                0,
                d.block_size,
            ).len(),
            Plan::HashJoin { keys, left, right } => left.requests(d) + right.requests(d)
                + join_requests(
                Seq::empty(),
                0,
                left_keys(keys),
                right_keys(keys),
                left.rows(d)->0,
                right.rows(d)->0,
                d.block_size,
            ).len(),
        }
    }
}

/// Why a query has no plan.
pub enum Fault {
    UnknownTable(Seq<char>),
    UnknownColumn(Seq<char>),
    FileTooLarge(Seq<char>),
}

/// What a plan needs to know of the disk.
pub struct Facts {
    pub block_size: nat,
    pub starts: Seq<(Seq<char>, u64)>,
    pub sizes: Seq<(Seq<char>, u64)>,
}

/// What is known of the disk.
pub open spec fn facts_of(facts: &FileFacts, disk: &DiskManager) -> Facts {
    Facts {
        block_size: disk.block_size as nat,
        starts: facts.starts.deep_view(),
        sizes: facts.sizes.deep_view(),
    }
}

// ── Conditions ───────────────────────────────────────────────────────────────

/// All columns that a condition names are there.
pub open spec fn applies(c: Condition, schema: SchemaModel) -> bool {
    &&& column_of(schema, c.column) is Some
    &&& match c.operand {
        Operand::Column(name) => column_of(schema, name) is Some,
        Operand::Constant(_) => true,
    }
}

/// The conditions whose columns are there, in their order.
pub open spec fn applicable(cs: Seq<Condition>, schema: SchemaModel) -> Seq<Condition>
    decreases cs.len(),
{
    if cs.len() == 0 {
        Seq::empty()
    } else {
        let front = applicable(cs.drop_last(), schema);
        if applies(cs.last(), schema) {
            front.push(cs.last())
        } else {
            front
        }
    }
}

/// The columns that a condition joins two sides on: it is an equality of a column of one
/// side and one of the other.
pub open spec fn join_columns(c: Condition, left: SchemaModel, right: SchemaModel) -> Option<
    (usize, usize),
> {
    match (c.operator, c.operand) {
        (ComparisionOperator::EQ, Operand::Column(name)) => match (
            column_of(left, c.column),
            column_of(right, name),
        ) {
            (Some(l), Some(r)) => Some((l as usize, r as usize)),
            _ => match (column_of(left, name), column_of(right, c.column)) {
                (Some(l), Some(r)) => Some((l as usize, r as usize)),
                _ => None,
            },
        },
        _ => None,
    }
}

/// The key columns of a join of two sides.
pub open spec fn equi_keys(cs: Seq<Condition>, left: SchemaModel, right: SchemaModel) -> Seq<
    (usize, usize),
>
    decreases cs.len(),
{
    if cs.len() == 0 {
        Seq::empty()
    } else {
        let front = equi_keys(cs.drop_last(), left, right);
        match join_columns(cs.last(), left, right) {
            Some(key) => front.push(key),
            None => front,
        }
    }
}

/// One of the key columns of the join is what the condition demands.
pub open spec fn joined_on(
    c: Condition,
    keys: Seq<(usize, usize)>,
    left: SchemaModel,
    right: SchemaModel,
) -> bool {
    match (c.operator, c.operand) {
        (ComparisionOperator::EQ, Operand::Column(name)) => exists|k: int|
            0 <= k < keys.len() && {
                let (l, r) = #[trigger] keys[k];
                ||| left[l as int].0 == c.column && right[r as int].0 == name
                ||| left[l as int].0 == name && right[r as int].0 == c.column
            },
        _ => false,
    }
}

/// The conditions to be checked behind a join: those whose columns are there and that are
/// not among its keys.
pub open spec fn residual(
    cs: Seq<Condition>,
    keys: Seq<(usize, usize)>,
    left: SchemaModel,
    right: SchemaModel,
) -> Seq<Condition>
    decreases cs.len(),
{
    if cs.len() == 0 {
        Seq::empty()
    } else {
        let front = residual(cs.drop_last(), keys, left, right);
        let c = cs.last();
        if applies(c, left + right) && !joined_on(c, keys, left, right) {
            front.push(c)
        } else {
            front
        }
    }
}

/// A filter, unless there is nothing to check.
pub open spec fn filter_if_any(conditions: Seq<Condition>, child: Plan) -> Plan {
    if conditions.len() == 0 {
        child
    } else {
        Plan::Filter { conditions, child: Box::new(child) }
    }
}

// ── Joins ────────────────────────────────────────────────────────────────────

/// A side of a join of several.
pub struct LeafPlan {
    pub plan: Plan,
    /// A measure of its size.
    pub blocks: u64,
    /// It is a bare scan, to which conditions may be pushed down.
    pub is_scan: bool,
}

/// A side with the conditions that can be checked on it alone.
pub open spec fn pushed_down(cs: Seq<Condition>, leaf: LeafPlan) -> Plan {
    if leaf.is_scan {
        filter_if_any(applicable(cs, leaf.plan.columns()), leaf.plan)
    } else {
        leaf.plan
    }
}

/// Two sides joined: on their keys if there are any, and then all conditions checked
/// whose columns are there.
pub open spec fn join_two(cs: Seq<Condition>, left: Plan, right: Plan, block_size: nat) -> Plan {
    let keys = equi_keys(cs, left.columns(), right.columns());
    let both = if keys.len() == 0 {
        Plan::Cross { left: Box::new(left), right: Box::new(right), block_size }
    } else {
        Plan::HashJoin { keys, left: Box::new(left), right: Box::new(right) }
    };
    filter_if_any(residual(cs, keys, left.columns(), right.columns()), both)
}

/// How good a choice each side is as the next to be joined: by the number of keys, and
/// then by size.
pub open spec fn scores(cs: Seq<Condition>, columns: SchemaModel, leaves: Seq<LeafPlan>) -> Seq<
    (nat, nat),
> {
    Seq::new(
        leaves.len(),
        |i: int|
            (equi_keys(cs, columns, leaves[i].plan.columns()).len(), leaves[i].blocks as nat),
    )
}

/// How good a choice each side is as the first: by size alone.
pub open spec fn sizes(leaves: Seq<LeafPlan>) -> Seq<(nat, nat)> {
    Seq::new(leaves.len(), |i: int| (0, leaves[i].blocks as nat))
}

pub open spec fn at_least(a: (nat, nat), b: (nat, nat)) -> bool {
    a.0 > b.0 || (a.0 == b.0 && a.1 >= b.1)
}

/// The place of the greatest, the last of several.
pub open spec fn last_max(scores: Seq<(nat, nat)>) -> int
    decreases scores.len(),
{
    if scores.len() <= 1 {
        0
    } else {
        let front = last_max(scores.drop_last());
        if at_least(scores.last(), scores[front]) {
            scores.len() - 1
        } else {
            front
        }
    }
}

/// The remaining sides joined to what has been joined, the best choice first.
pub open spec fn join_rest(
    cs: Seq<Condition>,
    current: Plan,
    rest: Seq<LeafPlan>,
    block_size: nat,
) -> Plan
    decreases rest.len(),
{
    let pos = last_max(scores(cs, current.columns(), rest));
    if 0 <= pos < rest.len() {
        join_rest(
            cs,
            join_two(cs, current, pushed_down(cs, rest[pos]), block_size),
            rest.remove(pos),
            block_size,
        )
    } else {
        current
    }
}

/// The plan for a join of several sides: it starts with the largest.
pub open spec fn join_plan(cs: Seq<Condition>, leaves: Seq<LeafPlan>, block_size: nat) -> Plan {
    let start = last_max(sizes(leaves));
    join_rest(cs, pushed_down(cs, leaves[start]), leaves.remove(start), block_size)
}

/// Two sides have a column name in common.
pub open spec fn share_name(a: SchemaModel, b: SchemaModel) -> bool {
    exists|i: int, j: int|
        0 <= i < a.len() && 0 <= j < b.len() && #[trigger] a[i].0 == #[trigger] b[j].0
}

/// Some two sides have a column name in common.
pub open spec fn overlap(leaves: Seq<LeafPlan>) -> bool {
    exists|i: int, j: int|
        0 <= i < j < leaves.len() && #[trigger] share_name(
            leaves[i].plan.columns(),
            leaves[j].plan.columns(),
        )
}

// ── What is known of tables ──────────────────────────────────────────────────

/// The largest number of distinct values among what is known of a column.
pub open spec fn stats_cardinality(stats: Seq<ColumnStat>) -> u64
    decreases stats.len(),
{
    if stats.len() == 0 {
        0
    } else {
        let front = stats_cardinality(stats.drop_last());
        match stats.last() {
            ColumnStat::CardinalityStat(data) => if data.0 > front {
                data.0
            } else {
                front
            },
            _ => front,
        }
    }
}

/// The largest number of distinct values of some columns.
pub open spec fn columns_cardinality(columns: Seq<ColumnSpec>) -> u64
    decreases columns.len(),
{
    if columns.len() == 0 {
        0
    } else {
        let front = columns_cardinality(columns.drop_last());
        let last = stats_cardinality(columns.last().known());
        if last > front {
            last
        } else {
            front
        }
    }
}

/// The size of a table in blocks: the number of blocks of 4096 bytes for as many rows as
/// a column has distinct values, at 128 bytes for a row, or else the size of the file.
pub open spec fn table_blocks(table: TableSpec, facts: Facts) -> u64 {
    let rows = columns_cardinality(table.column_specs@);
    if rows > 0 {
        ((rows * 128 + 4095) / 4096) as u64
    } else {
        known(facts.sizes, table.file_id@)->0
    }
}

/// The size of the table below an operation, in blocks.
pub open spec fn op_blocks(op: QueryOp, ctx: DbContext, facts: Facts) -> u64
    decreases op,
{
    match op {
        QueryOp::Scan(data) => match table_of(ctx.table_specs@, data.table_id@) {
            Some(table) => table_blocks(table, facts),
            None => 0,
        },
        QueryOp::Filter(data) => op_blocks(*data.underlying, ctx, facts),
        QueryOp::Project(data) => op_blocks(*data.underlying, ctx, facts),
        _ => 0,
    }
}

/// The table stores its rows in the order of the column.
pub open spec fn table_ordered(table: TableSpec, column: Seq<char>) -> bool {
    exists|i: int|
        0 <= i < table.column_specs@.len() && {
            let c = #[trigger] table.column_specs@[i];
            c.column_name@ == column && c.is_ordered()
        }
}

/// The name below a projection of the column that has the name above it: that of the first
/// pair which gives the name, and the same name where none does.
pub open spec fn name_below(map: Seq<(Seq<char>, Seq<char>)>, name: Seq<char>) -> Seq<char>
    decreases map.len(),
{
    if map.len() == 0 {
        name
    } else if map[0].1 == name {
        map[0].0
    } else {
        name_below(map.drop_first(), name)
    }
}

/// The sort columns under their names below a projection.
pub open spec fn by_below(map: Seq<(Seq<char>, Seq<char>)>, by: Seq<SortColumn>) -> Seq<
    SortColumn,
> {
    Seq::new(
        by.len(),
        |k: int|
            SortColumn { column: name_below(map, by[k].column), ascending: by[k].ascending },
    )
}

/// What is below is a single table that is stored in the order of all sort columns, each
/// followed through the projections to the column that it comes from.
pub open spec fn source_ordered(op: QueryOp, by: Seq<SortColumn>, ctx: DbContext) -> bool
    decreases op,
{
    match op {
        QueryOp::Scan(data) => match table_of(ctx.table_specs@, data.table_id@) {
            Some(table) => forall|k: int|
                0 <= k < by.len() ==> table_ordered(table, (#[trigger] by[k]).column),
            None => false,
        },
        QueryOp::Filter(data) => source_ordered(*data.underlying, by, ctx),
        QueryOp::Project(data) => source_ordered(
            *data.underlying,
            by_below(data.column_name_map.deep_view(), by),
            ctx,
        ),
        _ => false,
    }
}

/// The rows come in the required order anyhow.
pub open spec fn sort_satisfied(op: QueryOp, by: Seq<SortColumn>, ctx: DbContext) -> bool {
    &&& forall|k: int| 0 <= k < by.len() ==> (#[trigger] by[k]).ascending
    &&& source_ordered(op, by, ctx)
}

// ── The plan of a query ──────────────────────────────────────────────────────

/// The plan of a scan.
pub open spec fn scan_plan(table_id: Seq<char>, ctx: DbContext, facts: Facts) -> Result<
    Plan,
    Fault,
> {
    match table_of(ctx.table_specs@, table_id) {
        Some(table) => {
            let start = known(facts.starts, table.file_id@)->0;
            let blocks = known(facts.sizes, table.file_id@)->0;
            if start + blocks <= u64::MAX {
                Ok(Plan::Scan { columns: table.columns(), start, blocks })
            } else {
                Err(Fault::FileTooLarge(table.file_id@))
            }
        },
        None => Err(Fault::UnknownTable(table_id)),
    }
}

/// The conditions of the filters above the sides of a join.
pub open spec fn conditions_of(op: QueryOp) -> Seq<Condition>
    decreases op,
{
    match op {
        QueryOp::Filter(data) => data.predicates.deep_view() + conditions_of(*data.underlying),
        QueryOp::Cross(data) => conditions_of(*data.left) + conditions_of(*data.right),
        _ => Seq::empty(),
    }
}

/// The sides of a join: what is below all filters and cross products.
pub open spec fn leaves_of(op: QueryOp, ctx: DbContext, facts: Facts) -> Result<
    Seq<LeafPlan>,
    Fault,
>
    decreases op, 1int,
{
    match op {
        QueryOp::Filter(data) => leaves_of(*data.underlying, ctx, facts),
        QueryOp::Cross(data) => match leaves_of(*data.left, ctx, facts) {
            Ok(left) => match leaves_of(*data.right, ctx, facts) {
                Ok(right) => Ok(left + right),
                Err(e) => Err(e),
            },
            Err(e) => Err(e),
        },
        _ => match plan_of(op, ctx, facts) {
            Ok(plan) => Ok(
                seq![LeafPlan { plan, blocks: op_blocks(op, ctx, facts), is_scan: op is Scan }],
            ),
            Err(e) => Err(e),
        },
    }
}

/// The plan of a query. A filter above a join of several sides is taken apart: the sides
/// are joined in a better order, and conditions are checked as early as they can be.
/// A sort is left out where the rows come in order anyhow.
pub open spec fn plan_of(op: QueryOp, ctx: DbContext, facts: Facts) -> Result<Plan, Fault>
    decreases op, 0int,
{
    match op {
        QueryOp::Scan(data) => scan_plan(data.table_id@, ctx, facts),
        QueryOp::Filter(data) => match leaves_of(*data.underlying, ctx, facts) {
            Ok(leaves) => if leaves.len() > 1 && !overlap(leaves) {
                Ok(join_plan(conditions_of(op), leaves, facts.block_size))
            } else {
                match plan_of(*data.underlying, ctx, facts) {
                    Ok(child) => Ok(
                        Plan::Filter {
                            conditions: data.predicates.deep_view(),
                            child: Box::new(child),
                        },
                    ),
                    Err(e) => Err(e),
                }
            },
            Err(e) => Err(e),
        },
        QueryOp::Project(data) => match plan_of(*data.underlying, ctx, facts) {
            Ok(child) => match missing(data.column_name_map.deep_view(), child.columns()) {
                Some(name) => Err(Fault::UnknownColumn(name)),
                None => Ok(
                    Plan::Project {
                        map: data.column_name_map.deep_view(),
                        child: Box::new(child),
                    },
                ),
            },
            Err(e) => Err(e),
        },
        QueryOp::Sort(data) => match plan_of(*data.underlying, ctx, facts) {
            Ok(child) => if sort_satisfied(
                *data.underlying,
                data.sort_specs.deep_view(),
                ctx,
            ) {
                Ok(child)
            } else {
                Ok(Plan::Sort { by: data.sort_specs.deep_view(), child: Box::new(child) })
            },
            Err(e) => Err(e),
        },
        QueryOp::Cross(data) => match plan_of(*data.left, ctx, facts) {
            Ok(left) => match plan_of(*data.right, ctx, facts) {
                Ok(right) => Ok(
                    Plan::Cross {
                        left: Box::new(left),
                        right: Box::new(right),
                        block_size: facts.block_size,
                    },
                ),
                Err(e) => Err(e),
            },
            Err(e) => Err(e),
        },
    }
}

// ── What the plan of a query has to know first ───────────────────────────────

/// What is to be asked next for a scan: where the file of the table starts, and then how
/// long it is, as far as that is not known. On a table that there is not, nothing is asked.
pub open spec fn scan_question(table_id: Seq<char>, ctx: DbContext, facts: Facts) -> Option<
    Request,
> {
    match table_of(ctx.table_specs@, table_id) {
        Some(table) => if known(facts.starts, table.file_id@) is None {
            Some(Request::FileStart(table.file_id@))
        } else if known(facts.sizes, table.file_id@) is None {
            Some(Request::FileSize(table.file_id@))
        } else {
            None
        },
        None => None,
    }
}

/// What is to be asked for the size of the table below an operation: the length of its
/// file, if it is not known and no column says how many rows there are.
pub open spec fn blocks_question(op: QueryOp, ctx: DbContext, facts: Facts) -> Option<Request>
    decreases op,
{
    match op {
        QueryOp::Scan(data) => match table_of(ctx.table_specs@, data.table_id@) {
            Some(table) => if columns_cardinality(table.column_specs@) == 0 && known(
                facts.sizes,
                table.file_id@,
            ) is None {
                Some(Request::FileSize(table.file_id@))
            } else {
                None
            },
            None => None,
        },
        QueryOp::Filter(data) => blocks_question(*data.underlying, ctx, facts),
        QueryOp::Project(data) => blocks_question(*data.underlying, ctx, facts),
        _ => None,
    }
}

/// What is to be asked next for the sides of a join, the first side first.
pub open spec fn leaves_question(op: QueryOp, ctx: DbContext, facts: Facts) -> Option<Request>
    decreases op, 1int,
{
    match op {
        QueryOp::Filter(data) => leaves_question(*data.underlying, ctx, facts),
        QueryOp::Cross(data) => match leaves_question(*data.left, ctx, facts) {
            Some(question) => Some(question),
            None => if leaves_of(*data.left, ctx, facts) is Ok {
                leaves_question(*data.right, ctx, facts)
            } else {
                None
            },
        },
        _ => match plan_question(op, ctx, facts) {
            Some(question) => Some(question),
            None => if plan_of(op, ctx, facts) is Ok {
                blocks_question(op, ctx, facts)
            } else {
                None
            },
        },
    }
}

/// What is to be asked next for the plan of a query. Behind a part that has no plan
/// nothing is asked.
pub open spec fn plan_question(op: QueryOp, ctx: DbContext, facts: Facts) -> Option<Request>
    decreases op, 0int,
{
    match op {
        QueryOp::Scan(data) => scan_question(data.table_id@, ctx, facts),
        QueryOp::Filter(data) => match leaves_question(*data.underlying, ctx, facts) {
            Some(question) => Some(question),
            None => match leaves_of(*data.underlying, ctx, facts) {
                Ok(leaves) => if leaves.len() > 1 && !overlap(leaves) {
                    None
                } else {
                    plan_question(*data.underlying, ctx, facts)
                },
                Err(_) => None,
            },
        },
        QueryOp::Project(data) => plan_question(*data.underlying, ctx, facts),
        QueryOp::Sort(data) => plan_question(*data.underlying, ctx, facts),
        QueryOp::Cross(data) => match plan_question(*data.left, ctx, facts) {
            Some(question) => Some(question),
            None => if plan_of(*data.left, ctx, facts) is Ok {
                plan_question(*data.right, ctx, facts)
            } else {
                None
            },
        },
    }
}

/// The query reads the table.
pub open spec fn reads_table(op: QueryOp, table_id: Seq<char>) -> bool
    decreases op,
{
    match op {
        QueryOp::Scan(data) => data.table_id@ == table_id,
        QueryOp::Filter(data) => reads_table(*data.underlying, table_id),
        QueryOp::Project(data) => reads_table(*data.underlying, table_id),
        QueryOp::Sort(data) => reads_table(*data.underlying, table_id),
        QueryOp::Cross(data) => {
            ||| reads_table(*data.left, table_id)
            ||| reads_table(*data.right, table_id)
        },
    }
}

/// The question is on the file of a table that the query reads, and its answer is not
/// known.
pub open spec fn open_question(
    op: QueryOp,
    ctx: DbContext,
    facts: Facts,
    question: Request,
) -> bool {
    exists|table_id: Seq<char>|
        {
            &&& reads_table(op, table_id)
            &&& (#[trigger] table_of(ctx.table_specs@, table_id)) matches Some(table) && {
                ||| {
                    &&& question == Request::FileStart(table.file_id@)
                    &&& known(facts.starts, table.file_id@) is None
                }
                ||| {
                    &&& question == Request::FileSize(table.file_id@)
                    &&& known(facts.sizes, table.file_id@) is None
                }
            }
        }
}

/// The disk is asked only on the files of the tables that the query reads, and nothing
/// that is known: nothing is asked twice, and on other tables nothing is asked.
pub proof fn lemma_asks_on_own_tables(op: QueryOp, ctx: DbContext, facts: Facts)
    ensures
        plan_question(op, ctx, facts) matches Some(question) ==> open_question(
            op,
            ctx,
            facts,
            question,
        ),
    decreases op, 0int,
{
    match op {
        QueryOp::Scan(data) => {
            assert(reads_table(op, data.table_id@));
        },
        QueryOp::Filter(data) => {
            lemma_leaves_ask_on_own_tables(*data.underlying, ctx, facts);
            lemma_asks_on_own_tables(*data.underlying, ctx, facts);
            lemma_asked_below(op, *data.underlying, ctx, facts);
        },
        QueryOp::Project(data) => {
            lemma_asks_on_own_tables(*data.underlying, ctx, facts);
            lemma_asked_below(op, *data.underlying, ctx, facts);
        },
        QueryOp::Sort(data) => {
            lemma_asks_on_own_tables(*data.underlying, ctx, facts);
            lemma_asked_below(op, *data.underlying, ctx, facts);
        },
        QueryOp::Cross(data) => {
            lemma_asks_on_own_tables(*data.left, ctx, facts);
            lemma_asks_on_own_tables(*data.right, ctx, facts);
            lemma_asked_below(op, *data.left, ctx, facts);
            lemma_asked_below(op, *data.right, ctx, facts);
        },
    }
}

proof fn lemma_leaves_ask_on_own_tables(op: QueryOp, ctx: DbContext, facts: Facts)
    ensures
        leaves_question(op, ctx, facts) matches Some(question) ==> open_question(
            op,
            ctx,
            facts,
            question,
        ),
    decreases op, 1int,
{
    match op {
        QueryOp::Filter(data) => {
            lemma_leaves_ask_on_own_tables(*data.underlying, ctx, facts);
            lemma_asked_below(op, *data.underlying, ctx, facts);
        },
        QueryOp::Cross(data) => {
            lemma_leaves_ask_on_own_tables(*data.left, ctx, facts);
            lemma_leaves_ask_on_own_tables(*data.right, ctx, facts);
            lemma_asked_below(op, *data.left, ctx, facts);
            lemma_asked_below(op, *data.right, ctx, facts);
        },
        _ => {
            lemma_asks_on_own_tables(op, ctx, facts);
            lemma_blocks_asked(op, ctx, facts);
        },
    }
}

proof fn lemma_blocks_asked(op: QueryOp, ctx: DbContext, facts: Facts)
    ensures
        blocks_question(op, ctx, facts) matches Some(question) ==> open_question(
            op,
            ctx,
            facts,
            question,
        ),
    decreases op,
{
    match op {
        QueryOp::Scan(data) => {
            assert(reads_table(op, data.table_id@));
        },
        QueryOp::Filter(data) => {
            lemma_blocks_asked(*data.underlying, ctx, facts);
            lemma_asked_below(op, *data.underlying, ctx, facts);
        },
        QueryOp::Project(data) => {
            lemma_blocks_asked(*data.underlying, ctx, facts);
            lemma_asked_below(op, *data.underlying, ctx, facts);
        },
        _ => {},
    }
}

/// A question on a table of a part is one on a table of the whole.
proof fn lemma_asked_below(op: QueryOp, part: QueryOp, ctx: DbContext, facts: Facts)
    requires
        forall|table_id: Seq<char>|
            reads_table(part, table_id) ==> #[trigger] reads_table(op, table_id),
    ensures
        forall|question: Request|
            open_question(part, ctx, facts, question) ==> #[trigger] open_question(
                op,
                ctx,
                facts,
                question,
            ),
{
}

/// There is a last greatest.
pub proof fn lemma_last_max(scores: Seq<(nat, nat)>)
    requires
        scores.len() > 0,
    ensures
        0 <= last_max(scores) < scores.len(),
        forall|i: int|
            0 <= i < scores.len() ==> at_least(scores[last_max(scores)], #[trigger] scores[i]),
        forall|i: int|
            last_max(scores) < i < scores.len() ==> !at_least(
                #[trigger] scores[i],
                scores[last_max(scores)],
            ),
    decreases scores.len(),
{
    if scores.len() > 1 {
        let front = scores.drop_last();
        lemma_last_max(front);
        assert forall|i: int| 0 <= i < front.len() implies #[trigger] scores[i] == front[i] by {}
    }
}

/// A join of several sides starts with one of the largest.
pub proof fn lemma_largest_first(leaves: Seq<LeafPlan>)
    requires
        leaves.len() > 0,
    ensures
        0 <= last_max(sizes(leaves)) < leaves.len(),
        forall|i: int|
            0 <= i < leaves.len() ==> (#[trigger] leaves[i]).blocks <= leaves[last_max(
                sizes(leaves),
            )].blocks,
{
    lemma_last_max(sizes(leaves));
    assert forall|i: int| 0 <= i < leaves.len() implies (#[trigger] leaves[i]).blocks
        <= leaves[last_max(sizes(leaves))].blocks by {
        assert(at_least(sizes(leaves)[last_max(sizes(leaves))], sizes(leaves)[i]));
    }
}

/// A cross product is made only where none of the remaining sides has a key in common with
/// what has been joined: the side that is joined next has as many keys as any.
pub proof fn lemma_no_needless_cross(
    cs: Seq<Condition>,
    columns: SchemaModel,
    rest: Seq<LeafPlan>,
    i: int,
)
    requires
        0 <= i < rest.len(),
    ensures
        ({
            let pos = last_max(scores(cs, columns, rest));
            &&& 0 <= pos < rest.len()
            &&& equi_keys(cs, columns, rest[i].plan.columns()).len() <= equi_keys(
                cs,
                columns,
                rest[pos].plan.columns(),
            ).len()
        }),
{
    let list = scores(cs, columns, rest);
    lemma_last_max(list);
    assert(at_least(list[last_max(list)], list[i]));
}

} // verus!
