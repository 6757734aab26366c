//! Building the operators of a plan.

use vstd::prelude::*;

use crate::catalog::{table_of, ColumnSpec, ColumnStat, DbContext, TableSpec};
use crate::disk::{DiskManager, DiskModel, Request};
use crate::executor::cross::CrossOperator;
use crate::executor::cursor::{read_plan, region_rows};
use crate::executor::filter::{push_all, FilterOperator};
use crate::executor::hashjoin::{left_keys, right_keys, HashJoinOperator};
use crate::executor::jointable::indices_ok;
use crate::executor::node::PlanNode;
use crate::executor::plan::{applicable, applies, blocks_question, by_below, columns_cardinality,
    conditions_of, equi_keys, facts_of, filter_if_any, join_columns, join_plan, join_rest, join_two,
    joined_on, last_max, leaves_of, leaves_question, lemma_last_max, name_below, op_blocks, overlap,
    plan_of, plan_question, pushed_down, residual, scores, share_name, sizes, sort_satisfied,
    source_ordered, stats_cardinality, table_ordered, Fault, LeafPlan, Plan};
use crate::executor::project::{missing, ProjectOperator};
use crate::executor::scan::{ScanOperator, BLOCKS_PER_READ};
use crate::executor::sort::SortOperator;
use crate::executor::Operator;
use crate::facts::{asks, freed, FileFacts};
use crate::query::{ComparisionOperator, ComparisionValue, Condition, Predicate, QueryOp, SortSpec};
use crate::querylaws::{lemma_ordered_means, said_ordered};
use crate::row::{clone_schema, find_column, Schema};

verus! {

/// Why a query has no plan.
#[derive(Debug)]
pub enum PlanError {
    /// There is no table of that name.
    UnknownTable(String),
    /// A projection picks a column that is not there.
    UnknownColumn(String),
    /// The blocks of the file cannot be numbered.
    FileTooLarge(String),
}

impl DeepView for PlanError {
    type V = Fault;

    open spec fn deep_view(&self) -> Fault {
        match self {
            PlanError::UnknownTable(name) => Fault::UnknownTable(name@),
            PlanError::UnknownColumn(name) => Fault::UnknownColumn(name@),
            PlanError::FileTooLarge(name) => Fault::FileTooLarge(name@),
        }
    }
}

/// What has come of building an operator.
pub enum Build<T> {
    Ready(T),
    /// The disk has been asked something that has to be known first.
    Pending,
    Failed(PlanError),
}

/// What building does to the disk: nothing, but that it asks what has to be known first.
pub open spec fn polled<T>(
    b: Build<T>,
    question: Option<Request>,
    before: &DiskManager,
    after: &DiskManager,
) -> bool {
    &&& after.wf()
    &&& after@ == before@
    &&& after.follows(before)
    &&& match question {
        Some(question) => b is Pending && asks(before, after, question),
        None => !(b is Pending) && *after == *before,
    }
}

/// The operator does what the plan says, and has not started.
pub open spec fn denotes(node: PlanNode, plan: Plan) -> bool {
    &&& node.wf()
    &&& node.quiet()
    &&& node.columns() == plan.columns()
    &&& forall|d: DiskModel| #[trigger] node.placed(d) == plan.placed(d)
    &&& forall|d: DiskModel| #[trigger] node.rows(d) == plan.rows(d)
    &&& forall|d: DiskModel| #[trigger] node.writes_nothing(d) == plan.writes_nothing(d)
    &&& forall|d: DiskModel| #[trigger] node.requests_ahead(d, true) == plan.requests(d)
}

// ── Conditions ───────────────────────────────────────────────────────────────

/// Whether all columns of a predicate are there.
fn check_applies(p: &Predicate, schema: &Schema) -> (r: bool)
    ensures
        r == applies(p.deep_view(), schema.deep_view()),
{
    if find_column(schema, &p.column_name).is_none() {
        return false;
    }
    match &p.value {
        ComparisionValue::Column(name) => find_column(schema, name).is_some(),
        _ => true,
    }
}

/// The predicates whose columns are there.
fn pick_applicable<'q>(predicates: &Vec<&'q Predicate>, schema: &Schema) -> (r: Vec<&'q Predicate>)
    ensures
        r.deep_view() == applicable(predicates.deep_view(), schema.deep_view()),
{
    let ghost cs = predicates.deep_view();
    let mut out: Vec<&'q Predicate> = Vec::new();
    let mut i: usize = 0;
    proof {
        assert(cs.take(0) =~= Seq::<Condition>::empty());
        assert(out.deep_view() =~= Seq::<Condition>::empty());
    }
    while i < predicates.len()
        invariant
            i <= predicates.len(),
            cs == predicates.deep_view(),
            out.deep_view() == applicable(cs.take(i as int), schema.deep_view()),
        decreases predicates.len() - i,
    {
        let p: &'q Predicate = predicates[i];
        proof {
            assert(cs[i as int] == p.deep_view());
            assert(cs.take(i + 1).drop_last() =~= cs.take(i as int));
            assert(cs.take(i + 1).last() == cs[i as int]);
        }
        if check_applies(p, schema) {
            let ghost before = out.deep_view();
            out.push(p);
            assert(out.deep_view() =~= before.push(p.deep_view()));
        }
        i += 1;
    }
    proof {
        assert(cs.take(i as int) =~= cs);
    }
    out
}

/// The columns that a predicate joins two sides on.
fn find_join_columns(p: &Predicate, left: &Schema, right: &Schema) -> (r: Option<(usize, usize)>)
    ensures
        r == join_columns(p.deep_view(), left.deep_view(), right.deep_view()),
        r matches Some((l, k)) ==> l < left@.len() && k < right@.len(),
{
    match p.operator {
        ComparisionOperator::EQ => {},
        _ => return None,
    }
    match &p.value {
        ComparisionValue::Column(name) => {
            match (find_column(left, &p.column_name), find_column(right, name)) {
                (Some(l), Some(r)) => return Some((l, r)),
                _ => {},
            }
            match (find_column(left, name), find_column(right, &p.column_name)) {
                (Some(l), Some(r)) => Some((l, r)),
                _ => None,
            }
        },
        _ => None,
    }
}

/// The key columns of a join of two sides.
fn equi_join_keys(predicates: &Vec<&Predicate>, left: &Schema, right: &Schema) -> (r: Vec<
    (usize, usize),
>)
    ensures
        r@ == equi_keys(predicates.deep_view(), left.deep_view(), right.deep_view()),
        indices_ok(left_keys(r@), left@.len()),
        indices_ok(right_keys(r@), right@.len()),
{
    let ghost cs = predicates.deep_view();
    let mut keys: Vec<(usize, usize)> = Vec::new();
    let mut i: usize = 0;
    proof {
        assert(cs.take(0) =~= Seq::<Condition>::empty());
    }
    while i < predicates.len()
        invariant
            i <= predicates.len(),
            cs == predicates.deep_view(),
            keys@ == equi_keys(cs.take(i as int), left.deep_view(), right.deep_view()),
            forall|k: int|
                0 <= k < keys@.len() ==> {
                    let (l, r) = #[trigger] keys@[k];
                    l < left@.len() && r < right@.len()
                },
        decreases predicates.len() - i,
    {
        let p = predicates[i];
        proof {
            assert(cs[i as int] == p.deep_view());
            assert(cs.take(i + 1).drop_last() =~= cs.take(i as int));
            assert(cs.take(i + 1).last() == cs[i as int]);
        }
        match find_join_columns(p, left, right) {
            Some(key) => keys.push(key),
            None => {},
        }
        i += 1;
    }
    proof {
        assert(cs.take(i as int) =~= cs);
        assert forall|k: int| 0 <= k < keys@.len() implies (
        #[trigger] left_keys(keys@)[k] as int) < left@.len() by {
            let key = keys@[k];
        }
        assert forall|k: int| 0 <= k < keys@.len() implies (
        #[trigger] right_keys(keys@)[k] as int) < right@.len() by {
            let key = keys@[k];
        }
    }
    keys
}

/// Whether a predicate is among the keys of a join.
fn check_joined_on(p: &Predicate, keys: &Vec<(usize, usize)>, left: &Schema, right: &Schema) -> (r:
    bool)
    requires
        indices_ok(left_keys(keys@), left@.len()),
        indices_ok(right_keys(keys@), right@.len()),
    ensures
        r == joined_on(p.deep_view(), keys@, left.deep_view(), right.deep_view()),
{
    match p.operator {
        ComparisionOperator::EQ => {},
        _ => return false,
    }
    let name = match &p.value {
        ComparisionValue::Column(name) => name,
        _ => return false,
    };
    let mut k: usize = 0;
    while k < keys.len()
        invariant
            k <= keys.len(),
            p.operator is EQ,
            p.value matches ComparisionValue::Column(other) && other@ == name@,
            indices_ok(left_keys(keys@), left@.len()),
            indices_ok(right_keys(keys@), right@.len()),
            forall|m: int|
                0 <= m < k ==> {
                    let (l, r) = #[trigger] keys@[m];
                    &&& !(left.deep_view()[l as int].0 == p.column_name@
                        && right.deep_view()[r as int].0 == name@)
                    &&& !(left.deep_view()[l as int].0 == name@ && right.deep_view()[r as int].0
                        == p.column_name@)
                },
        decreases keys.len() - k,
    {
        let l: usize = keys[k].0;
        let r: usize = keys[k].1;
        assert(left_keys(keys@)[k as int] == l);
        assert(right_keys(keys@)[k as int] == r);
        assert(left.deep_view()[l as int].0 == left@[l as int].0@);
        assert(right.deep_view()[r as int].0 == right@[r as int].0@);
        if (left[l].0 == p.column_name && right[r].0 == *name) || (left[l].0 == *name && right[r].0
            == p.column_name) {
            assert(keys@[k as int] == (l, r));
            return true;
        }
        k += 1;
    }
    false
}

/// The predicates to be checked behind a join.
fn pick_residual<'q>(
    predicates: &Vec<&'q Predicate>,
    keys: &Vec<(usize, usize)>,
    left: &Schema,
    right: &Schema,
    both: &Schema,
) -> (r: Vec<&'q Predicate>)
    requires
        indices_ok(left_keys(keys@), left@.len()),
        indices_ok(right_keys(keys@), right@.len()),
        both.deep_view() == left.deep_view() + right.deep_view(),
    ensures
        r.deep_view() == residual(
            predicates.deep_view(),
            keys@,
            left.deep_view(),
            right.deep_view(),
        ),
{
    let ghost cs = predicates.deep_view();
    let mut out: Vec<&'q Predicate> = Vec::new();
    let mut i: usize = 0;
    proof {
        assert(cs.take(0) =~= Seq::<Condition>::empty());
        assert(out.deep_view() =~= Seq::<Condition>::empty());
    }
    while i < predicates.len()
        invariant
            i <= predicates.len(),
            cs == predicates.deep_view(),
            indices_ok(left_keys(keys@), left@.len()),
            indices_ok(right_keys(keys@), right@.len()),
            both.deep_view() == left.deep_view() + right.deep_view(),
            out.deep_view() == residual(
                cs.take(i as int),
                keys@,
                left.deep_view(),
                right.deep_view(),
            ),
        decreases predicates.len() - i,
    {
        let p: &'q Predicate = predicates[i];
        proof {
            assert(cs[i as int] == p.deep_view());
            assert(cs.take(i + 1).drop_last() =~= cs.take(i as int));
            assert(cs.take(i + 1).last() == cs[i as int]);
        }
        if check_applies(p, both) && !check_joined_on(p, keys, left, right) {
            let ghost before = out.deep_view();
            out.push(p);
            assert(out.deep_view() =~= before.push(p.deep_view()));
        }
        i += 1;
    }
    proof {
        assert(cs.take(i as int) =~= cs);
    }
    out
}

// ── Joins ────────────────────────────────────────────────────────────────────

/// A side of a join of several.
pub struct Leaf<'q> {
    pub node: PlanNode<'q>,
    pub blocks: u64,
    pub is_scan: bool,
}

pub open spec fn leaf_denotes(leaf: Leaf, plan: LeafPlan) -> bool {
    &&& denotes(leaf.node, plan.plan)
    &&& leaf.blocks == plan.blocks
    &&& leaf.is_scan == plan.is_scan
}

pub open spec fn leaves_denote(leaves: Seq<Leaf>, plans: Seq<LeafPlan>) -> bool {
    &&& leaves.len() == plans.len()
    &&& forall|i: int| 0 <= i < leaves.len() ==> leaf_denotes(#[trigger] leaves[i], plans[i])
}

/// A filter, unless there is nothing to check.
fn make_filter<'q>(
    predicates: Vec<&'q Predicate>,
    child: PlanNode<'q>,
    Ghost(plan): Ghost<Plan>,
) -> (r: PlanNode<'q>)
    requires
        denotes(child, plan),
    ensures
        denotes(r, filter_if_any(predicates.deep_view(), plan)),
{
    if predicates.len() == 0 {
        assert(predicates.deep_view().len() == 0);
        return child;
    }
    assert(predicates.deep_view().len() > 0);
    let ghost conditions = predicates.deep_view();
    let op = FilterOperator::with_list(predicates, child);
    let node = PlanNode::Filter(op);
    proof {
        let whole = filter_if_any(conditions, plan);
        assert(*op.child == child);
        assert(node.wf() == op.wf() && op.wf() == op.child.wf());
        assert(node.quiet() == op.quiet() && op.quiet() == op.child.quiet());
        assert(node.columns() == op.columns() && op.columns() == op.child.columns());
        assert forall|d: DiskModel| #[trigger] node.placed(d) == whole.placed(d) by {
            assert(node.placed(d) == op.placed(d) && op.placed(d) == op.child.placed(d));
            assert(child.placed(d) == plan.placed(d));
        }
        assert forall|d: DiskModel| #[trigger] node.rows(d) == whole.rows(d) by {
            assert(node.rows(d) == op.rows(d));
            assert(child.rows(d) == plan.rows(d));
        }
        assert forall|d: DiskModel| #[trigger]
            node.writes_nothing(d) == whole.writes_nothing(d) by {
            assert(node.writes_nothing(d) == op.writes_nothing(d));
            assert(op.writes_nothing(d) == op.child.writes_nothing(d));
            assert(child.writes_nothing(d) == plan.writes_nothing(d));
            assert(child.rows(d) == plan.rows(d));
        }
        assert forall|d: DiskModel| #[trigger]
            node.requests_ahead(d, true) == whole.requests(d) by {
            assert(node.requests_ahead(d, true) == op.requests_ahead(d, true));
            assert(op.requests_ahead(d, true) == op.child.requests_ahead(d, true));
            assert(child.requests_ahead(d, true) == plan.requests(d));
            assert(child.rows(d) == plan.rows(d));
        }
    }
    node
}

/// A side with the conditions that can be checked on it alone.
fn build_leaf<'q>(leaf: Leaf<'q>, predicates: &Vec<&'q Predicate>, Ghost(plan): Ghost<LeafPlan>)
    -> (r: PlanNode<'q>)
    requires
        leaf_denotes(leaf, plan),
    ensures
        denotes(r, pushed_down(predicates.deep_view(), plan)),
{
    if leaf.is_scan {
        let pushdown = pick_applicable(predicates, leaf.node.schema());
        make_filter(pushdown, leaf.node, Ghost(plan.plan))
    } else {
        leaf.node
    }
}

/// Two sides joined.
fn build_join<'q>(
    left: PlanNode<'q>,
    right: PlanNode<'q>,
    predicates: &Vec<&'q Predicate>,
    block_size: usize,
    Ghost(left_plan): Ghost<Plan>,
    Ghost(right_plan): Ghost<Plan>,
) -> (r: PlanNode<'q>)
    requires
        denotes(left, left_plan),
        denotes(right, right_plan),
    ensures
        denotes(
            r,
            join_two(predicates.deep_view(), left_plan, right_plan, block_size as nat),
        ),
{
    let left_schema = clone_schema(left.schema());
    let right_schema = clone_schema(right.schema());
    let join_keys = equi_join_keys(predicates, &left_schema, &right_schema);
    proof {
        assert(left_schema.deep_view().len() == left_schema@.len());
        assert(right_schema.deep_view().len() == right_schema@.len());
    }
    let ghost both = if join_keys@.len() == 0 {
        Plan::Cross {
            left: Box::new(left_plan),
            right: Box::new(right_plan),
            block_size: block_size as nat,
        }
    } else {
        Plan::HashJoin {
            keys: join_keys@,
            left: Box::new(left_plan),
            right: Box::new(right_plan),
        }
    };
    let node = if join_keys.len() == 0 {
        make_cross(left, right, block_size, Ghost(left_plan), Ghost(right_plan))
    } else {
        make_join(left, right, &join_keys, Ghost(left_plan), Ghost(right_plan))
    };
    let combined = clone_schema(node.schema());
    let rest = pick_residual(predicates, &join_keys, &left_schema, &right_schema, &combined);
    make_filter(rest, node, Ghost(both))
}

fn make_cross<'q>(
    left: PlanNode<'q>,
    right: PlanNode<'q>,
    block_size: usize,
    Ghost(left_plan): Ghost<Plan>,
    Ghost(right_plan): Ghost<Plan>,
) -> (r: PlanNode<'q>)
    requires
        denotes(left, left_plan),
        denotes(right, right_plan),
    ensures
        denotes(
            r,
            (Plan::Cross {
                left: Box::new(left_plan),
                right: Box::new(right_plan),
                block_size: block_size as nat,
            }),
        ),
{
    let op = CrossOperator::new(left, right, block_size);
    let node = PlanNode::Cross(op);
    proof {
        let whole = Plan::Cross {
            left: Box::new(left_plan),
            right: Box::new(right_plan),
            block_size: block_size as nat,
        };
        assert(node.wf() == op.wf());
        assert(node.quiet() == op.quiet());
        assert(node.columns() == op.columns());
        assert forall|d: DiskModel| #[trigger] node.placed(d) == whole.placed(d) by {
            assert(node.placed(d) == op.placed(d));
            assert(left.placed(d) == left_plan.placed(d));
            assert(right.placed(d) == right_plan.placed(d));
        }
        assert forall|d: DiskModel| #[trigger] node.rows(d) == whole.rows(d) by {
            assert(node.rows(d) == op.rows(d));
            assert(left.rows(d) == left_plan.rows(d));
            assert(right.rows(d) == right_plan.rows(d));
        }
        assert forall|d: DiskModel| #[trigger]
            node.writes_nothing(d) == whole.writes_nothing(d) by {
            assert(node.writes_nothing(d) == op.writes_nothing(d));
        }
        assert forall|d: DiskModel| #[trigger]
            node.requests_ahead(d, true) == whole.requests(d) by {
            assert(node.requests_ahead(d, true) == op.requests_ahead(d, true));
            assert(left.requests_ahead(d, true) == left_plan.requests(d));
            assert(left.rows(d) == left_plan.rows(d));
            assert(right.requests_ahead(d, true) == right_plan.requests(d));
            assert(right.rows(d) == right_plan.rows(d));
        }
    }
    node
}

fn make_join<'q>(
    left: PlanNode<'q>,
    right: PlanNode<'q>,
    join_keys: &Vec<(usize, usize)>,
    Ghost(left_plan): Ghost<Plan>,
    Ghost(right_plan): Ghost<Plan>,
) -> (r: PlanNode<'q>)
    requires
        denotes(left, left_plan),
        denotes(right, right_plan),
        indices_ok(left_keys(join_keys@), left.columns().len()),
        indices_ok(right_keys(join_keys@), right.columns().len()),
    ensures
        denotes(
            r,
            (Plan::HashJoin {
                keys: join_keys@,
                left: Box::new(left_plan),
                right: Box::new(right_plan),
            }),
        ),
{
    let op = HashJoinOperator::new(left, right, join_keys);
    let node = PlanNode::HashJoin(op);
    proof {
        let whole = Plan::HashJoin {
            keys: join_keys@,
            left: Box::new(left_plan),
            right: Box::new(right_plan),
        };
        assert(node.wf() == op.wf());
        assert(node.quiet() == op.quiet());
        assert(node.columns() == op.columns());
        assert forall|d: DiskModel| #[trigger] node.placed(d) == whole.placed(d) by {
            assert(node.placed(d) == op.placed(d));
            assert(left.placed(d) == left_plan.placed(d));
            assert(right.placed(d) == right_plan.placed(d));
        }
        assert forall|d: DiskModel| #[trigger] node.rows(d) == whole.rows(d) by {
            assert(node.rows(d) == op.rows(d));
            assert(left.rows(d) == left_plan.rows(d));
            assert(right.rows(d) == right_plan.rows(d));
        }
        assert forall|d: DiskModel| #[trigger]
            node.writes_nothing(d) == whole.writes_nothing(d) by {
            assert(node.writes_nothing(d) == op.writes_nothing(d));
            assert(left.rows(d) == left_plan.rows(d));
            assert(left.writes_nothing(d) == left_plan.writes_nothing(d));
            assert(right.rows(d) == right_plan.rows(d));
            assert(right.writes_nothing(d) == right_plan.writes_nothing(d));
        }
        assert forall|d: DiskModel| #[trigger]
            node.requests_ahead(d, true) == whole.requests(d) by {
            assert(node.requests_ahead(d, true) == op.requests_ahead(d, true));
            assert(left.requests_ahead(d, true) == left_plan.requests(d));
            assert(left.rows(d) == left_plan.rows(d));
            assert(right.requests_ahead(d, true) == right_plan.requests(d));
            assert(right.rows(d) == right_plan.rows(d));
        }
    }
    node
}

/// The place of the greatest score, the last of several.
fn find_last_max(list: &Vec<(usize, u64)>) -> (r: usize)
    requires
        list@.len() > 0,
    ensures
        r == last_max(
            Seq::new(list@.len(), |i: int| (list@[i].0 as nat, list@[i].1 as nat)),
        ),
        r < list@.len(),
{
    let ghost all = Seq::new(list@.len(), |i: int| (list@[i].0 as nat, list@[i].1 as nat));
    let mut best: usize = 0;
    let mut i: usize = 1;
    while i < list.len()
        invariant
            1 <= i <= list.len(),
            best < i,
            all == Seq::new(list@.len(), |i: int| (list@[i].0 as nat, list@[i].1 as nat)),
            best == last_max(all.take(i as int)),
        decreases list.len() - i,
    {
        proof {
            assert(all.take(i + 1).drop_last() =~= all.take(i as int));
            assert(all.take(i + 1).last() == all[i as int]);
            assert(all.take(i + 1)[best as int] == all[best as int]);
        }
        let a = list[i];
        let b = list[best];
        if a.0 > b.0 || (a.0 == b.0 && a.1 >= b.1) {
            best = i;
        }
        i += 1;
    }
    proof {
        assert(all.take(i as int) =~= all);
    }
    best
}

/// How good a choice each side is as the next to be joined.
fn score_leaves(
    leaves: &Vec<Leaf>,
    predicates: &Vec<&Predicate>,
    columns: &Schema,
    Ghost(plans): Ghost<Seq<LeafPlan>>,
) -> (r: Vec<(usize, u64)>)
    requires
        leaves_denote(leaves@, plans),
    ensures
        r@.len() == leaves@.len(),
        Seq::new(r@.len(), |i: int| (r@[i].0 as nat, r@[i].1 as nat)) == scores(
            predicates.deep_view(),
            columns.deep_view(),
            plans,
        ),
{
    let ghost all = scores(predicates.deep_view(), columns.deep_view(), plans);
    let mut out: Vec<(usize, u64)> = Vec::new();
    let mut i: usize = 0;
    while i < leaves.len()
        invariant
            i <= leaves.len(),
            leaves_denote(leaves@, plans),
            all == scores(predicates.deep_view(), columns.deep_view(), plans),
            out@.len() == i,
            forall|k: int|
                0 <= k < i ==> {
                    let s = #[trigger] out@[k];
                    (s.0 as nat, s.1 as nat) == all[k]
                },
        decreases leaves.len() - i,
    {
        assert(leaf_denotes(leaves@[i as int], plans[i as int]));
        let keys = equi_join_keys(predicates, columns, leaves[i].node.schema());
        out.push((keys.len(), leaves[i].blocks));
        i += 1;
    }
    proof {
        assert(Seq::new(out@.len(), |i: int| (out@[i].0 as nat, out@[i].1 as nat)) =~= all);
    }
    out
}

proof fn lemma_remove_denotes(leaves: Seq<Leaf>, plans: Seq<LeafPlan>, pos: int)
    requires
        leaves_denote(leaves, plans),
        0 <= pos < leaves.len(),
    ensures
        leaves_denote(leaves.remove(pos), plans.remove(pos)),
{
    let (a, b) = (leaves.remove(pos), plans.remove(pos));
    assert forall|i: int| 0 <= i < a.len() implies leaf_denotes(#[trigger] a[i], b[i]) by {
        if i < pos {
            assert(leaf_denotes(leaves[i], plans[i]));
        } else {
            assert(leaf_denotes(leaves[i + 1], plans[i + 1]));
        }
    }
}

/// Several sides joined.
fn build_join_tree<'q>(
    leaves: Vec<Leaf<'q>>,
    predicates: &Vec<&'q Predicate>,
    block_size: usize,
    Ghost(plans): Ghost<Seq<LeafPlan>>,
) -> (r: PlanNode<'q>)
    requires
        leaves_denote(leaves@, plans),
        leaves@.len() > 0,
    ensures
        denotes(r, join_plan(predicates.deep_view(), plans, block_size as nat)),
{
    let ghost cs = predicates.deep_view();
    let ghost whole = join_plan(cs, plans, block_size as nat);
    let mut leaves = leaves;
    let mut list: Vec<(usize, u64)> = Vec::new();
    let mut i: usize = 0;
    while i < leaves.len()
        invariant
            i <= leaves.len(),
            leaves_denote(leaves@, plans),
            list@.len() == i,
            forall|k: int|
                0 <= k < i ==> {
                    let s = #[trigger] list@[k];
                    (s.0 as nat, s.1 as nat) == sizes(plans)[k]
                },
        decreases leaves.len() - i,
    {
        assert(leaf_denotes(leaves@[i as int], plans[i as int]));
        list.push((0, leaves[i].blocks));
        i += 1;
    }
    proof {
        assert(Seq::new(list@.len(), |i: int| (list@[i].0 as nat, list@[i].1 as nat)) =~= sizes(
            plans,
        ));
    }
    let start = find_last_max(&list);
    proof {
        assert(leaf_denotes(leaves@[start as int], plans[start as int]));
        lemma_remove_denotes(leaves@, plans, start as int);
    }
    let first = leaves.remove(start);
    let ghost mut rest = plans.remove(start as int);
    let mut current = build_leaf(first, predicates, Ghost(plans[start as int]));
    let ghost mut plan = pushed_down(cs, plans[start as int]);
    while leaves.len() > 0
        invariant
            cs == predicates.deep_view(),
            denotes(current, plan),
            leaves_denote(leaves@, rest),
            whole == join_rest(cs, plan, rest, block_size as nat),
        decreases leaves.len(),
    {
        let list = score_leaves(&leaves, predicates, current.schema(), Ghost(rest));
        let pos = find_last_max(&list);
        proof {
            assert(leaf_denotes(leaves@[pos as int], rest[pos as int]));
            lemma_remove_denotes(leaves@, rest, pos as int);
        }
        let next = leaves.remove(pos);
        let ghost leaf = rest[pos as int];
        let right = build_leaf(next, predicates, Ghost(leaf));
        current =
        build_join(
            current,
            right,
            predicates,
            block_size,
            Ghost(plan),
            Ghost(pushed_down(cs, leaf)),
        );
        proof {
            plan = join_two(cs, plan, pushed_down(cs, leaf), block_size as nat);
            rest = rest.remove(pos as int);
        }
    }
    current
}

/// What the sides read lies in used blocks of the disk.
pub open spec fn leaves_placed(plans: Seq<LeafPlan>, d: DiskModel) -> bool {
    forall|i: int| 0 <= i < plans.len() ==> (#[trigger] plans[i]).plan.placed(d)
}

proof fn lemma_join_rest_placed(
    cs: Seq<Condition>,
    current: Plan,
    rest: Seq<LeafPlan>,
    block_size: nat,
    d: DiskModel,
)
    requires
        current.placed(d),
        leaves_placed(rest, d),
        d.block_size == block_size,
        0 <= d.next,
    ensures
        join_rest(cs, current, rest, block_size).placed(d),
    decreases rest.len(),
{
    let pos = last_max(scores(cs, current.columns(), rest));
    if 0 <= pos < rest.len() {
        let right = pushed_down(cs, rest[pos]);
        assert(rest[pos].plan.placed(d));
        assert(right.placed(d));
        let more = rest.remove(pos);
        assert forall|i: int| 0 <= i < more.len() implies (#[trigger] more[i]).plan.placed(d) by {
            if i < pos {
                assert(more[i] == rest[i]);
            } else {
                assert(more[i] == rest[i + 1]);
            }
        }
        let keys = equi_keys(cs, current.columns(), right.columns());
        let both = if keys.len() == 0 {
            Plan::Cross { left: Box::new(current), right: Box::new(right), block_size }
        } else {
            Plan::HashJoin { keys, left: Box::new(current), right: Box::new(right) }
        };
        assert(both.placed(d));
        lemma_join_rest_placed(cs, join_two(cs, current, right, block_size), more, block_size, d);
    }
}

/// A join reads what its sides read.
proof fn lemma_join_placed(
    cs: Seq<Condition>,
    plans: Seq<LeafPlan>,
    block_size: nat,
    d: DiskModel,
)
    requires
        plans.len() > 0,
        leaves_placed(plans, d),
        d.block_size == block_size,
        0 <= d.next,
    ensures
        join_plan(cs, plans, block_size).placed(d),
{
    let start = last_max(sizes(plans));
    lemma_last_max(sizes(plans));
    assert(plans[start].plan.placed(d));
    let rest = plans.remove(start);
    assert forall|i: int| 0 <= i < rest.len() implies (#[trigger] rest[i]).plan.placed(d) by {
        if i < start {
            assert(rest[i] == plans[i]);
        } else {
            assert(rest[i] == plans[i + 1]);
        }
    }
    lemma_join_rest_placed(cs, pushed_down(cs, plans[start]), rest, block_size, d);
}

/// Whether two sides have a column name in common.
fn check_share_name(a: &Schema, b: &Schema) -> (r: bool)
    ensures
        r == share_name(a.deep_view(), b.deep_view()),
{
    let mut i: usize = 0;
    while i < a.len()
        invariant
            i <= a.len(),
            forall|k: int, m: int|
                0 <= k < i && 0 <= m < b@.len() ==> #[trigger] a.deep_view()[k].0
                    != #[trigger] b.deep_view()[m].0,
        decreases a.len() - i,
    {
        let mut j: usize = 0;
        while j < b.len()
            invariant
                i < a.len(),
                j <= b.len(),
                forall|m: int|
                    0 <= m < j ==> a.deep_view()[i as int].0 != #[trigger] b.deep_view()[m].0,
            decreases b.len() - j,
        {
            assert(a.deep_view()[i as int].0 == a@[i as int].0@);
            assert(b.deep_view()[j as int].0 == b@[j as int].0@);
            if a[i].0 == b[j].0 {
                return true;
            }
            j += 1;
        }
        i += 1;
    }
    false
}

/// Whether some two sides have a column name in common.
fn check_overlap(leaves: &Vec<Leaf>, Ghost(plans): Ghost<Seq<LeafPlan>>) -> (r: bool)
    requires
        leaves_denote(leaves@, plans),
    ensures
        r == overlap(plans),
{
    let mut i: usize = 0;
    while i < leaves.len()
        invariant
            i <= leaves.len(),
            leaves_denote(leaves@, plans),
            forall|k: int, m: int|
                0 <= k < i && k < m < plans.len() ==> !(#[trigger] share_name(
                    plans[k].plan.columns(),
                    plans[m].plan.columns(),
                )),
        decreases leaves.len() - i,
    {
        let mut j: usize = i + 1;
        while j < leaves.len()
            invariant
                i < j <= leaves.len(),
                leaves_denote(leaves@, plans),
                forall|m: int|
                    i < m < j ==> !(#[trigger] share_name(
                        plans[i as int].plan.columns(),
                        plans[m].plan.columns(),
                    )),
            decreases leaves.len() - j,
        {
            assert(leaf_denotes(leaves@[i as int], plans[i as int]));
            assert(leaf_denotes(leaves@[j as int], plans[j as int]));
            if check_share_name(leaves[i].node.schema(), leaves[j].node.schema()) {
                return true;
            }
            j += 1;
        }
        i += 1;
    }
    false
}

// ── What is known of tables ──────────────────────────────────────────────────

/// The largest number of distinct values of a column, as far as it is known.
fn column_cardinality(column: &ColumnSpec) -> (r: u64)
    ensures
        r == stats_cardinality(column.known()),
{
    let stats = match &column.stats {
        Some(stats) => stats,
        None => return 0,
    };
    let mut max_card: u64 = 0;
    let mut i: usize = 0;
    proof {
        assert(stats@.take(0) =~= Seq::<ColumnStat>::empty());
    }
    while i < stats.len()
        invariant
            i <= stats.len(),
            max_card == stats_cardinality(stats@.take(i as int)),
        decreases stats.len() - i,
    {
        proof {
            assert(stats@.take(i + 1).drop_last() =~= stats@.take(i as int));
            assert(stats@.take(i + 1).last() == stats@[i as int]);
        }
        match stats[i] {
            ColumnStat::CardinalityStat(data) => {
                if data.0 > max_card {
                    max_card = data.0;
                }
            },
            ColumnStat::IsPhysicallyOrdered => {},
        }
        i += 1;
    }
    proof {
        assert(stats@.take(i as int) =~= stats@);
    }
    max_card
}

/// The largest number of distinct values of the columns of a table.
fn table_cardinality(table: &TableSpec) -> (r: u64)
    ensures
        r == columns_cardinality(table.column_specs@),
{
    let columns = &table.column_specs;
    let mut max_card: u64 = 0;
    let mut i: usize = 0;
    proof {
        assert(columns@.take(0) =~= Seq::<ColumnSpec>::empty());
    }
    while i < columns.len()
        invariant
            i <= columns.len(),
            max_card == columns_cardinality(columns@.take(i as int)),
        decreases columns.len() - i,
    {
        proof {
            assert(columns@.take(i + 1).drop_last() =~= columns@.take(i as int));
            assert(columns@.take(i + 1).last() == columns@[i as int]);
        }
        let n = column_cardinality(&columns[i]);
        if n > max_card {
            max_card = n;
        }
        i += 1;
    }
    proof {
        assert(columns@.take(i as int) =~= columns@);
    }
    max_card
}

/// The size of the table below an operation, in blocks.
fn scan_op_blocks(
    op: &QueryOp,
    ctx: &DbContext,
    facts: &FileFacts,
    disk: &mut DiskManager,
) -> (r: Build<u64>)
    requires
        old(disk).wf(),
        old(disk).idle(),
        facts.hold(old(disk)@),
    ensures
        polled(
            r,
            blocks_question(*op, *ctx, facts_of(facts, old(disk))),
            old(disk),
            final(disk),
        ),
        !(r is Failed),
        r matches Build::Ready(n) ==> n == op_blocks(*op, *ctx, facts_of(facts, old(disk))),
    decreases op,
{
    match op {
        QueryOp::Scan(data) => match ctx.find_table(&data.table_id) {
            Some(table) => {
                let rows = table_cardinality(table);
                if rows > 0 {
                    let blocks: u64 = rows / 32 + (if rows % 32 > 0 {
                        1u64
                    } else {
                        0u64
                    });
                    assert(blocks == (rows * 128 + 4095) / 4096);
                    return Build::Ready(blocks);
                }
                match facts.size_of(&table.file_id, disk) {
                    Some(n) => Build::Ready(n),
                    None => Build::Pending,
                }
            },
            None => Build::Ready(0),
        },
        QueryOp::Filter(data) => scan_op_blocks(&data.underlying, ctx, facts, disk),
        QueryOp::Project(data) => scan_op_blocks(&data.underlying, ctx, facts, disk),
        _ => Build::Ready(0),
    }
}

/// Whether the table stores its rows in the order of the column.
fn check_table_ordered(table: &TableSpec, column: &String) -> (r: bool)
    ensures
        r == table_ordered(*table, column@),
{
    let mut i: usize = 0;
    while i < table.column_specs.len()
        invariant
            i <= table.column_specs.len(),
            forall|k: int|
                0 <= k < i ==> {
                    let c = #[trigger] table.column_specs@[k];
                    !(c.column_name@ == column@ && c.is_ordered())
                },
        decreases table.column_specs.len() - i,
    {
        let c = &table.column_specs[i];
        if c.column_name == *column && check_ordered(c) {
            assert(table.column_specs@[i as int].is_ordered());
            return true;
        }
        i += 1;
    }
    false
}

/// Whether the table stores its rows in the order of this column.
fn check_ordered(column: &ColumnSpec) -> (r: bool)
    ensures
        r == column.is_ordered(),
        r == said_ordered(*column),
{
    proof {
        lemma_ordered_means(*column);
    }
    let stats = match &column.stats {
        Some(stats) => stats,
        None => return false,
    };
    let mut i: usize = 0;
    while i < stats.len()
        invariant
            i <= stats.len(),
            column.known() == stats@,
            forall|k: int| 0 <= k < i ==> #[trigger] stats@[k] != ColumnStat::IsPhysicallyOrdered,
        decreases stats.len() - i,
    {
        if matches!(stats[i], ColumnStat::IsPhysicallyOrdered) {
            assert(stats@[i as int] == ColumnStat::IsPhysicallyOrdered);
            return true;
        }
        i += 1;
    }
    false
}

/// The name below a projection of the column that has the name above it.
fn find_name_below(map: &Vec<(String, String)>, name: &String) -> (r: String)
    ensures
        r@ == name_below(map.deep_view(), name@),
{
    let ghost all = map.deep_view();
    let mut i: usize = 0;
    proof {
        assert(all.skip(0) =~= all);
    }
    while i < map.len()
        invariant
            i <= map.len(),
            all == map.deep_view(),
            name_below(all, name@) == name_below(all.skip(i as int), name@),
        decreases map.len() - i,
    {
        proof {
            assert(all.skip(i as int)[0] == (map@[i as int].0@, map@[i as int].1@));
            assert(all.skip(i as int).drop_first() =~= all.skip(i + 1));
        }
        if map[i].1 == *name {
            return map[i].0.clone();
        }
        i += 1;
    }
    name.clone()
}

/// The sort columns under their names below a projection.
fn specs_below(map: &Vec<(String, String)>, specs: &Vec<SortSpec>) -> (r: Vec<SortSpec>)
    ensures
        r.deep_view() == by_below(map.deep_view(), specs.deep_view()),
{
    let ghost whole = by_below(map.deep_view(), specs.deep_view());
    let mut out: Vec<SortSpec> = Vec::new();
    let mut k: usize = 0;
    while k < specs.len()
        invariant
            k <= specs.len(),
            whole == by_below(map.deep_view(), specs.deep_view()),
            out.deep_view() == whole.take(k as int),
        decreases specs.len() - k,
    {
        let ghost before = out.deep_view();
        let column_name = find_name_below(map, &specs[k].column_name);
        let spec = SortSpec { column_name, ascending: specs[k].ascending };
        out.push(spec);
        proof {
            assert(specs.deep_view()[k as int] == specs@[k as int].deep_view());
            assert(out.deep_view() =~= before.push(spec.deep_view()));
            assert(out.deep_view() =~= whole.take(k + 1));
        }
        k += 1;
    }
    proof {
        assert(whole.take(k as int) =~= whole);
    }
    out
}

/// Whether what is below is a single table that is stored in the order of all sort
/// columns, each followed to the column that it comes from.
fn check_source_ordered(op: &QueryOp, specs: &Vec<SortSpec>, ctx: &DbContext) -> (r: bool)
    ensures
        r == source_ordered(*op, specs.deep_view(), *ctx),
    decreases op,
{
    match op {
        QueryOp::Scan(data) => {
            let table = match ctx.find_table(&data.table_id) {
                Some(table) => table,
                None => return false,
            };
            let mut k: usize = 0;
            while k < specs.len()
                invariant
                    k <= specs.len(),
                    op matches QueryOp::Scan(d) && table_of(ctx.table_specs@, d.table_id@) == Some(
                        *table,
                    ),
                    forall|m: int|
                        0 <= m < k ==> table_ordered(
                            *table,
                            (#[trigger] specs.deep_view()[m]).column,
                        ),
                decreases specs.len() - k,
            {
                assert(specs.deep_view()[k as int].column == specs@[k as int].column_name@);
                if !check_table_ordered(table, &specs[k].column_name) {
                    return false;
                }
                k += 1;
            }
            true
        },
        QueryOp::Filter(data) => check_source_ordered(&data.underlying, specs, ctx),
        QueryOp::Project(data) => {
            let below = specs_below(&data.column_name_map, specs);
            check_source_ordered(&data.underlying, &below, ctx)
        },
        _ => false,
    }
}

/// Whether the rows come in the required order anyhow: every sort column is ascending, and
/// the source is a single table, no join, that is stored in the order of every one. A
/// projection in between may have renamed them.
fn sort_already_satisfied(underlying: &QueryOp, specs: &Vec<SortSpec>, ctx: &DbContext) -> (r: bool)
    ensures
        r == sort_satisfied(*underlying, specs.deep_view(), *ctx),
{
    let mut k: usize = 0;
    while k < specs.len()
        invariant
            k <= specs.len(),
            forall|m: int| 0 <= m < k ==> (#[trigger] specs.deep_view()[m]).ascending,
        decreases specs.len() - k,
    {
        assert(specs.deep_view()[k as int].ascending == specs@[k as int].ascending);
        if !specs[k].ascending {
            return false;
        }
        k += 1;
    }
    check_source_ordered(underlying, specs, ctx)
}

// ── Queries ──────────────────────────────────────────────────────────────────

/// What building an operator gives.
pub open spec fn built(
    b: Build<PlanNode>,
    op: QueryOp,
    ctx: DbContext,
    facts: &FileFacts,
    before: &DiskManager,
    after: &DiskManager,
) -> bool {
    &&& polled(b, plan_question(op, ctx, facts_of(facts, before)), before, after)
    &&& match b {
        Build::Ready(node) => {
            let plan = plan_of(op, ctx, facts_of(facts, before));
            &&& plan is Ok
            &&& denotes(node, plan->Ok_0)
            &&& before@.healthy ==> plan->Ok_0.placed(before@)
        },
        Build::Pending => true,
        Build::Failed(e) => plan_of(op, ctx, facts_of(facts, before)) == Err::<Plan, Fault>(
            e.deep_view(),
        ),
    }
}

/// Finds the sides of a join and the predicates above them.
#[verifier::rlimit(60)]
fn collect_join_parts<'q>(
    op: &'q QueryOp,
    ctx: &DbContext,
    facts: &FileFacts,
    disk: &mut DiskManager,
    leaves: &mut Vec<Leaf<'q>>,
    predicates: &mut Vec<&'q Predicate>,
    Ghost(plans): Ghost<Seq<LeafPlan>>,
) -> (r: Build<()>)
    requires
        old(disk).wf(),
        old(disk).idle(),
        facts.hold(old(disk)@),
        leaves_denote(old(leaves)@, plans),
    ensures
        polled(
            r,
            leaves_question(*op, *ctx, facts_of(facts, old(disk))),
            old(disk),
            final(disk),
        ),
        match r {
            Build::Ready(_) => {
                let more = leaves_of(*op, *ctx, facts_of(facts, old(disk)));
                &&& more is Ok
                &&& leaves_denote(final(leaves)@, plans + more->Ok_0)
                &&& final(predicates).deep_view() == old(predicates).deep_view() + conditions_of(
                    *op,
                )
                &&& old(disk)@.healthy ==> leaves_placed(more->Ok_0, old(disk)@)
            },
            Build::Pending => true,
            Build::Failed(e) => leaves_of(*op, *ctx, facts_of(facts, old(disk))) == Err::<
                Seq<LeafPlan>,
                Fault,
            >(e.deep_view()),
        },
    decreases op, 1int,
{
    match op {
        QueryOp::Filter(data) => {
            let ghost had = predicates.deep_view();
            push_all(&data.predicates, predicates);
            let r = collect_join_parts(
                &data.underlying,
                ctx,
                facts,
                disk,
                leaves,
                predicates,
                Ghost(plans),
            );
            proof {
                let below = conditions_of(*data.underlying);
                let own = data.predicates.deep_view();
                assert((had + own) + below =~= had + (own + below));
            }
            r
        },
        QueryOp::Cross(data) => {
            let ghost had = predicates.deep_view();
            let ghost known_facts = facts_of(facts, disk);
            match collect_join_parts(
                &data.left,
                ctx,
                facts,
                disk,
                leaves,
                predicates,
                Ghost(plans),
            ) {
                Build::Ready(_) => {},
                other => return other,
            }
            let ghost left = leaves_of(*data.left, *ctx, known_facts)->Ok_0;
            let r = collect_join_parts(
                &data.right,
                ctx,
                facts,
                disk,
                leaves,
                predicates,
                Ghost(plans + left),
            );
            proof {
                let a = conditions_of(*data.left);
                let b = conditions_of(*data.right);
                assert((had + a) + b =~= had + (a + b));
                if let Ok(right) = leaves_of(*data.right, *ctx, known_facts) {
                    assert((plans + left) + right =~= plans + (left + right));
                    let d = old(disk)@;
                    if leaves_placed(left, d) && leaves_placed(right, d) {
                        assert forall|i: int| 0 <= i < (left + right).len() implies (
                        #[trigger] (left + right)[i]).plan.placed(d) by {
                            if i < left.len() {
                                assert((left + right)[i] == left[i]);
                            } else {
                                assert((left + right)[i] == right[i - left.len()]);
                            }
                        }
                    }
                }
            }
            r
        },
        _ => {
            let ghost known_facts = facts_of(facts, disk);
            let node = match build_node(op, ctx, facts, disk) {
                Build::Ready(node) => node,
                Build::Pending => return Build::Pending,
                Build::Failed(e) => return Build::Failed(e),
            };
            let blocks = match scan_op_blocks(op, ctx, facts, disk) {
                Build::Ready(n) => n,
                Build::Pending => return Build::Pending,
                Build::Failed(e) => return Build::Failed(e),
            };
            let is_scan = matches!(op, QueryOp::Scan(_));
            let ghost had = leaves@;
            let leaf = Leaf { node, blocks, is_scan };
            leaves.push(leaf);
            proof {
                let plan = LeafPlan {
                    plan: plan_of(*op, *ctx, known_facts)->Ok_0,
                    blocks,
                    is_scan,
                };
                let more = seq![plan];
                assert(leaves_of(*op, *ctx, known_facts)->Ok_0 == more);
                assert forall|i: int| 0 <= i < leaves@.len() implies leaf_denotes(
                    #[trigger] leaves@[i],
                    (plans + more)[i],
                ) by {
                    if i < had.len() {
                        assert(leaf_denotes(had[i], plans[i]));
                        assert((plans + more)[i] == plans[i]);
                        assert(leaves@[i] == had[i]);
                    } else {
                        assert((plans + more)[i] == plan);
                    }
                }
                let had = old(predicates).deep_view();
                assert(had + Seq::<Condition>::empty() =~= had);
            }
            Build::Ready(())
        },
    }
}

/// Builds the operators of a query. Where something has to be known first, the disk is
/// asked; the answer is fetched by the next call, and kept in `facts`.
pub fn build_operator<'q>(
    op: &'q QueryOp,
    ctx: &DbContext,
    facts: &mut FileFacts,
    disk: &mut DiskManager,
) -> (b: Build<PlanNode<'q>>)
    requires
        old(disk).wf(),
        old(disk).idle() || old(disk).answered(),
        old(facts).hold(old(disk)@),
    ensures
        final(facts).extend(old(facts), old(disk)),
        final(facts).hold(final(disk)@),
        built(b, *op, *ctx, final(facts), &freed(*old(disk)), final(disk)),
{
    facts.learn(disk);
    build_node(op, ctx, facts, disk)
}

/// Builds the operators of a query from what is known of the disk, as far as that is
/// enough.
fn build_node<'q>(
    op: &'q QueryOp,
    ctx: &DbContext,
    facts: &FileFacts,
    disk: &mut DiskManager,
) -> (b: Build<PlanNode<'q>>)
    requires
        old(disk).wf(),
        old(disk).idle(),
        facts.hold(old(disk)@),
    ensures
        built(b, *op, *ctx, facts, old(disk), final(disk)),
    decreases op, 0int,
{
    let ghost known_facts = facts_of(facts, disk);
    match op {
        QueryOp::Scan(data) => match ScanOperator::new(&data.table_id, ctx, facts, disk) {
            Build::Ready(scan) => Build::Ready(make_scan(scan)),
            Build::Pending => Build::Pending,
            Build::Failed(e) => Build::Failed(e),
        },
        QueryOp::Filter(data) => {
            let mut leaves: Vec<Leaf<'q>> = Vec::new();
            let mut predicates: Vec<&'q Predicate> = Vec::new();
            let ghost none = Seq::<LeafPlan>::empty();
            push_all(&data.predicates, &mut predicates);
            proof {
                assert(Seq::<Condition>::empty() + data.predicates.deep_view()
                    =~= data.predicates.deep_view());
            }
            match collect_join_parts(
                &data.underlying,
                ctx,
                facts,
                disk,
                &mut leaves,
                &mut predicates,
                Ghost(none),
            ) {
                Build::Ready(_) => {},
                Build::Pending => return Build::Pending,
                Build::Failed(e) => return Build::Failed(e),
            }
            let ghost plans = leaves_of(*data.underlying, *ctx, known_facts)->Ok_0;
            proof {
                assert(none + plans =~= plans);
            }
            if leaves.len() > 1 && !check_overlap(&leaves, Ghost(plans)) {
                let block_size = disk.block_size();
                proof {
                    if disk@.healthy {
                        lemma_join_placed(
                            predicates.deep_view(),
                            plans,
                            block_size as nat,
                            disk@,
                        );
                    }
                }
                return Build::Ready(
                    build_join_tree(leaves, &predicates, block_size, Ghost(plans)),
                );
            }
            match build_node(&data.underlying, ctx, facts, disk) {
                Build::Ready(child) => {
                    let ghost plan = plan_of(*data.underlying, *ctx, known_facts)->Ok_0;
                    Build::Ready(make_query_filter(&data.predicates, child, Ghost(plan)))
                },
                Build::Pending => Build::Pending,
                Build::Failed(e) => Build::Failed(e),
            }
        },
        QueryOp::Project(data) => match build_node(&data.underlying, ctx, facts, disk) {
            Build::Ready(child) => {
                let ghost plan = plan_of(*data.underlying, *ctx, known_facts)->Ok_0;
                match make_project(&data.column_name_map, child, Ghost(plan)) {
                    Ok(node) => Build::Ready(node),
                    Err(name) => Build::Failed(PlanError::UnknownColumn(name)),
                }
            },
            Build::Pending => Build::Pending,
            Build::Failed(e) => Build::Failed(e),
        },
        QueryOp::Sort(data) => match build_node(&data.underlying, ctx, facts, disk) {
            Build::Ready(child) => {
                let ghost plan = plan_of(*data.underlying, *ctx, known_facts)->Ok_0;
                if sort_already_satisfied(&data.underlying, &data.sort_specs, ctx) {
                    Build::Ready(child)
                } else {
                    Build::Ready(make_sort(&data.sort_specs, child, Ghost(plan)))
                }
            },
            Build::Pending => Build::Pending,
            Build::Failed(e) => Build::Failed(e),
        },
        QueryOp::Cross(data) => {
            let left = match build_node(&data.left, ctx, facts, disk) {
                Build::Ready(left) => left,
                Build::Pending => return Build::Pending,
                Build::Failed(e) => return Build::Failed(e),
            };
            let right = match build_node(&data.right, ctx, facts, disk) {
                Build::Ready(right) => right,
                Build::Pending => return Build::Pending,
                Build::Failed(e) => return Build::Failed(e),
            };
            let ghost left_plan = plan_of(*data.left, *ctx, known_facts)->Ok_0;
            let ghost right_plan = plan_of(*data.right, *ctx, known_facts)->Ok_0;
            let block_size = disk.block_size();
            Build::Ready(
                make_cross(left, right, block_size, Ghost(left_plan), Ghost(right_plan)),
            )
        },
    }
}

fn make_scan<'q>(scan: ScanOperator) -> (r: PlanNode<'q>)
    requires
        scan.wf(),
        scan.cursor.reads_when(true) == read_plan(
            scan.cursor.start as nat,
            scan.cursor.total as nat,
            0,
            BLOCKS_PER_READ as nat,
        ),
        forall|d: DiskModel|
            #![trigger scan.rows(d)]
            scan.rows(d) == region_rows(
                d.blocks,
                scan.columns(),
                scan.cursor.start as int,
                scan.cursor.total as nat,
            ),
    ensures
        denotes(
            r,
            (Plan::Scan {
                columns: scan.columns(),
                start: scan.cursor.start,
                blocks: scan.cursor.total,
            }),
        ),
{
    let node = PlanNode::Scan(scan);
    proof {
        let whole = Plan::Scan {
            columns: scan.columns(),
            start: scan.cursor.start,
            blocks: scan.cursor.total,
        };
        assert(node.wf() == scan.wf());
        assert(node.quiet() == scan.quiet());
        assert(node.columns() == scan.columns());
        assert forall|d: DiskModel| #[trigger] node.placed(d) == whole.placed(d) by {
            assert(node.placed(d) == scan.placed(d));
        }
        assert forall|d: DiskModel| #[trigger] node.rows(d) == whole.rows(d) by {
            assert(node.rows(d) == scan.rows(d));
        }
        assert forall|d: DiskModel| #[trigger]
            node.writes_nothing(d) == whole.writes_nothing(d) by {
            assert(node.writes_nothing(d) == scan.writes_nothing(d));
        }
        assert forall|d: DiskModel| #[trigger]
            node.requests_ahead(d, true) == whole.requests(d) by {
            assert(node.requests_ahead(d, true) == scan.requests_ahead(d, true));
        }
    }
    node
}

fn make_query_filter<'q>(
    predicates: &'q Vec<Predicate>,
    child: PlanNode<'q>,
    Ghost(plan): Ghost<Plan>,
) -> (r: PlanNode<'q>)
    requires
        denotes(child, plan),
    ensures
        denotes(
            r,
            (Plan::Filter { conditions: predicates.deep_view(), child: Box::new(plan) }),
        ),
{
    let op = FilterOperator::new(predicates, child);
    let node = PlanNode::Filter(op);
    proof {
        let whole = Plan::Filter { conditions: predicates.deep_view(), child: Box::new(plan) };
        assert(*op.child == child);
        assert(node.wf() == op.wf() && op.wf() == op.child.wf());
        assert(node.quiet() == op.quiet() && op.quiet() == op.child.quiet());
        assert(node.columns() == op.columns() && op.columns() == op.child.columns());
        assert forall|d: DiskModel| #[trigger] node.placed(d) == whole.placed(d) by {
            assert(node.placed(d) == op.placed(d) && op.placed(d) == op.child.placed(d));
            assert(child.placed(d) == plan.placed(d));
        }
        assert forall|d: DiskModel| #[trigger] node.rows(d) == whole.rows(d) by {
            assert(node.rows(d) == op.rows(d));
            assert(child.rows(d) == plan.rows(d));
        }
        assert forall|d: DiskModel| #[trigger]
            node.writes_nothing(d) == whole.writes_nothing(d) by {
            assert(node.writes_nothing(d) == op.writes_nothing(d));
            assert(op.writes_nothing(d) == op.child.writes_nothing(d));
            assert(child.writes_nothing(d) == plan.writes_nothing(d));
            assert(child.rows(d) == plan.rows(d));
        }
        assert forall|d: DiskModel| #[trigger]
            node.requests_ahead(d, true) == whole.requests(d) by {
            assert(node.requests_ahead(d, true) == op.requests_ahead(d, true));
            assert(op.requests_ahead(d, true) == op.child.requests_ahead(d, true));
            assert(child.requests_ahead(d, true) == plan.requests(d));
            assert(child.rows(d) == plan.rows(d));
        }
    }
    node
}

fn make_project<'q>(
    map: &'q Vec<(String, String)>,
    child: PlanNode<'q>,
    Ghost(plan): Ghost<Plan>,
) -> (r: Result<PlanNode<'q>, String>)
    requires
        denotes(child, plan),
    ensures
        match r {
            Ok(node) => {
                &&& missing(map.deep_view(), plan.columns()) is None
                &&& denotes(
                    node,
                    (Plan::Project { map: map.deep_view(), child: Box::new(plan) }),
                )
            },
            Err(name) => missing(map.deep_view(), plan.columns()) == Some(name@),
        },
{
    let op = match ProjectOperator::new(map, child) {
        Ok(op) => op,
        Err(name) => return Err(name),
    };
    let node = PlanNode::Project(op);
    proof {
        let whole = Plan::Project { map: map.deep_view(), child: Box::new(plan) };
        assert(*op.child == child);
        assert(node.wf() == op.wf());
        assert(node.quiet() == op.quiet() && op.quiet() == op.child.quiet());
        assert(node.columns() == op.columns());
        assert forall|d: DiskModel| #[trigger] node.placed(d) == whole.placed(d) by {
            assert(node.placed(d) == op.placed(d) && op.placed(d) == op.child.placed(d));
            assert(child.placed(d) == plan.placed(d));
        }
        assert forall|d: DiskModel| #[trigger] node.rows(d) == whole.rows(d) by {
            assert(node.rows(d) == op.rows(d));
            assert(child.rows(d) == plan.rows(d));
        }
        assert forall|d: DiskModel| #[trigger]
            node.writes_nothing(d) == whole.writes_nothing(d) by {
            assert(node.writes_nothing(d) == op.writes_nothing(d));
            assert(op.writes_nothing(d) == op.child.writes_nothing(d));
            assert(child.writes_nothing(d) == plan.writes_nothing(d));
            assert(child.rows(d) == plan.rows(d));
        }
        assert forall|d: DiskModel| #[trigger]
            node.requests_ahead(d, true) == whole.requests(d) by {
            assert(node.requests_ahead(d, true) == op.requests_ahead(d, true));
            assert(op.requests_ahead(d, true) == op.child.requests_ahead(d, true));
            assert(child.requests_ahead(d, true) == plan.requests(d));
            assert(child.rows(d) == plan.rows(d));
        }
    }
    Ok(node)
}

fn make_sort<'q>(specs: &'q Vec<SortSpec>, child: PlanNode<'q>, Ghost(plan): Ghost<Plan>) -> (r:
    PlanNode<'q>)
    requires
        denotes(child, plan),
    ensures
        denotes(r, (Plan::Sort { by: specs.deep_view(), child: Box::new(plan) })),
{
    let op = SortOperator::new(specs, child);
    let node = PlanNode::Sort(op);
    proof {
        let whole = Plan::Sort { by: specs.deep_view(), child: Box::new(plan) };
        assert(node.wf() == op.wf());
        assert(node.quiet() == op.quiet());
        assert(op.quiet() == child.quiet());
        assert(node.columns() == op.columns());
        assert forall|d: DiskModel| #[trigger] node.placed(d) == whole.placed(d) by {
            assert(node.placed(d) == op.placed(d));
            assert(child.placed(d) == plan.placed(d));
        }
        assert forall|d: DiskModel| #[trigger] node.rows(d) == whole.rows(d) by {
            assert(node.rows(d) == op.rows(d));
            assert(child.rows(d) == plan.rows(d));
        }
        assert forall|d: DiskModel| #[trigger]
            node.writes_nothing(d) == whole.writes_nothing(d) by {
            assert(node.writes_nothing(d) == op.writes_nothing(d));
            assert(child.writes_nothing(d) == plan.writes_nothing(d));
            assert(child.rows(d) == plan.rows(d));
        }
        assert forall|d: DiskModel| #[trigger]
            node.requests_ahead(d, true) == whole.requests(d) by {
            assert(node.requests_ahead(d, true) == op.requests_ahead(d, true));
            assert(child.requests_ahead(d, true) == plan.requests(d));
            assert(child.rows(d) == plan.rows(d));
        }
    }
    node
}

} // verus!
