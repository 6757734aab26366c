//! What the parts of queries, tables and predicates mean.

use vstd::prelude::*;

use crate::catalog::{table_of, ColumnSpec, ColumnStat, DbContext, TableSpec};
use crate::data::{Data, DataType, Value};
use crate::disk::DiskModel;
use crate::executor::builder::PlanError;
use crate::executor::filter::{all_hold, compares, holds};
use crate::executor::plan::Fault;
use crate::facts::{known, FileFacts};
use crate::key::key_of;
use crate::query::{ComparisionOperator, ComparisionValue, Operand, Predicate, SortSpec};
use crate::row::{column_of, lemma_column_of, RowModel, SchemaModel};
use crate::rowlaws::of_type;
use crate::valuelaws::{below, comparable, lemma_order_means};

verus! {

// ── What stands for what ─────────────────────────────────────────────────────

/// A value stands for itself: no number or text is changed on the way.
pub proof fn lemma_data_stands(v: Data)
    ensures
        match v {
            Data::Int32(n) => v.deep_view() == Value::Int32(n),
            Data::Int64(n) => v.deep_view() == Value::Int64(n),
            Data::Float32(bits) => v.deep_view() == Value::Float32(bits),
            Data::Float64(bits) => v.deep_view() == Value::Float64(bits),
            Data::String(s) => v.deep_view() == Value::Text(s@),
        },
{
}

/// A predicate names its column, its operator, and its other side.
pub proof fn lemma_predicate_stands(p: Predicate)
    ensures
        p.deep_view().column == p.column_name@,
        p.deep_view().operator == p.operator,
        p.deep_view().operand == match p.value {
            ComparisionValue::Column(name) => Operand::Column(name@),
            ComparisionValue::I32(n) => Operand::Constant(Value::Int32(n)),
            ComparisionValue::I64(n) => Operand::Constant(Value::Int64(n)),
            ComparisionValue::F32(bits) => Operand::Constant(Value::Float32(bits)),
            ComparisionValue::F64(bits) => Operand::Constant(Value::Float64(bits)),
            ComparisionValue::String(s) => Operand::Constant(Value::Text(s@)),
        },
{
}

/// A sort column names its column and its direction.
pub proof fn lemma_sort_stands(c: SortSpec)
    ensures
        c.deep_view().column == c.column_name@,
        c.deep_view().ascending == c.ascending,
{
}

// ── Columns and tables ───────────────────────────────────────────────────────

/// The column at the place has the name, and none before it.
pub open spec fn names(schema: SchemaModel, name: Seq<char>, i: int) -> bool {
    &&& 0 <= i < schema.len()
    &&& schema[i].0 == name
    &&& forall|j: int| 0 <= j < i ==> (#[trigger] schema[j]).0 != name
}

/// Some column has the name.
pub open spec fn has_column(schema: SchemaModel, name: Seq<char>) -> bool {
    exists|i: int| #[trigger] names(schema, name, i)
}

/// A column is found by its name exactly where there is one, and then the first.
pub proof fn lemma_column_found(schema: SchemaModel, name: Seq<char>)
    ensures
        column_of(schema, name) is Some <==> has_column(schema, name),
        forall|i: int| #[trigger] names(schema, name, i) <==> column_of(schema, name) == Some(i),
{
    lemma_column_of(schema, name);
    if let Some(i) = column_of(schema, name) {
        assert(names(schema, name, i));
        assert forall|k: int| #[trigger] names(schema, name, k) implies k == i by {
            if k < i {
                assert(schema[k].0 != name);
            } else if i < k {
                assert(schema[i].0 != name);
            }
        }
    }
}

/// The table at the place has the name, and none before it.
pub open spec fn names_table(ctx: DbContext, name: Seq<char>, i: int) -> bool {
    &&& 0 <= i < ctx.table_specs@.len()
    &&& ctx.table_specs@[i].name@ == name
    &&& forall|j: int| 0 <= j < i ==> (#[trigger] ctx.table_specs@[j]).name@ != name
}

proof fn lemma_table_of(tables: Seq<TableSpec>, name: Seq<char>) -> (i: int)
    ensures
        match table_of(tables, name) {
            Some(t) => {
                &&& 0 <= i < tables.len()
                &&& t == tables[i]
                &&& tables[i].name@ == name
                &&& forall|j: int| 0 <= j < i ==> (#[trigger] tables[j]).name@ != name
            },
            None => forall|j: int| 0 <= j < tables.len() ==> (#[trigger] tables[j]).name@ != name,
        },
    decreases tables.len(),
{
    if tables.len() == 0 {
        0
    } else if tables[0].name@ == name {
        0
    } else {
        let rest = tables.drop_first();
        let i = lemma_table_of(rest, name);
        assert forall|j: int| 0 < j < tables.len() implies #[trigger] tables[j] == rest[j - 1] by {}
        i + 1
    }
}

/// A table is found by its name exactly where there is one, and then the first.
pub proof fn lemma_table_found(ctx: DbContext, name: Seq<char>)
    ensures
        table_of(ctx.table_specs@, name) is Some <==> exists|i: int| #[trigger]
            names_table(ctx, name, i),
        forall|i: int| #[trigger]
            names_table(ctx, name, i) ==> table_of(ctx.table_specs@, name) == Some(
                ctx.table_specs@[i],
            ),
{
    let tables = ctx.table_specs@;
    let k = lemma_table_of(tables, name);
    if table_of(tables, name) is Some {
        assert(names_table(ctx, name, k));
        assert forall|i: int| #[trigger] names_table(ctx, name, i) implies i == k by {
            if i < k {
                assert(tables[i].name@ != name);
            } else if k < i {
                assert(tables[k].name@ != name);
            }
        }
    }
}

/// The columns of a table are those that it lists, in their order.
pub proof fn lemma_table_columns(table: TableSpec)
    ensures
        table.columns().len() == table.column_specs@.len(),
        forall|i: int|
            0 <= i < table.column_specs@.len() ==> {
                let c = table.column_specs@[i];
                #[trigger] table.columns()[i] == (c.column_name@, c.data_type)
            },
{
}

/// The column is said to be stored in ascending order: that is among what is known of it.
pub open spec fn said_ordered(c: ColumnSpec) -> bool {
    match c.stats {
        Some(stats) => exists|j: int|
            0 <= j < stats@.len() && #[trigger] stats@[j] is IsPhysicallyOrdered,
        None => false,
    }
}

/// A column counts as stored in order only where that is said of it. That its values have
/// been counted says nothing of their order.
pub proof fn lemma_ordered_means(c: ColumnSpec)
    ensures
        c.is_ordered() <==> said_ordered(c),
{
    if let Some(stats) = c.stats {
        if c.is_ordered() {
            let j = choose|j: int|
                0 <= j < stats@.len() && stats@[j] == ColumnStat::IsPhysicallyOrdered;
            assert(stats@[j] is IsPhysicallyOrdered);
        }
        if said_ordered(c) {
            let j = choose|j: int|
                0 <= j < stats@.len() && #[trigger] stats@[j] is IsPhysicallyOrdered;
            assert(stats@[j] == ColumnStat::IsPhysicallyOrdered);
        }
    }
}

/// What is known of a file is the last answer on it.
pub proof fn lemma_known_means(list: Seq<(Seq<char>, u64)>, id: Seq<char>) -> (i: int)
    ensures
        match known(list, id) {
            Some(n) => {
                &&& 0 <= i < list.len()
                &&& list[i] == (id, n)
                &&& forall|j: int| i < j < list.len() ==> (#[trigger] list[j]).0 != id
            },
            None => forall|j: int| 0 <= j < list.len() ==> (#[trigger] list[j]).0 != id,
        },
    decreases list.len(),
{
    if list.len() == 0 {
        0
    } else if list.last().0 == id {
        list.len() - 1
    } else {
        let front = list.drop_last();
        let i = lemma_known_means(front, id);
        assert forall|j: int| 0 <= j < front.len() implies #[trigger] list[j] == front[j] by {}
        i
    }
}

/// The key of a row is its values at the given places.
pub proof fn lemma_key_means(indices: Seq<usize>, row: RowModel)
    ensures
        key_of(indices, row).len() == indices.len(),
        forall|k: int|
            0 <= k < indices.len() ==> #[trigger] key_of(indices, row)[k] == row[indices[k] as int],
{
}

// ── Predicates ───────────────────────────────────────────────────────────────

/// Two values stand to each other as the operator says. Where they cannot be compared, they
/// are unequal and nothing else.
pub open spec fn meets(op: ComparisionOperator, a: Value, b: Value) -> bool {
    match op {
        ComparisionOperator::EQ => comparable(a, b) && !below(a, b) && !below(b, a),
        ComparisionOperator::NE => !comparable(a, b) || below(a, b) || below(b, a),
        ComparisionOperator::LT => comparable(a, b) && below(a, b),
        ComparisionOperator::GT => comparable(a, b) && below(b, a),
        ComparisionOperator::LTE => comparable(a, b) && !below(b, a),
        ComparisionOperator::GTE => comparable(a, b) && !below(a, b),
    }
}

/// The operators compare values as numbers and texts are compared.
pub proof fn lemma_compares_means(op: ComparisionOperator, a: Value, b: Value)
    ensures
        compares(op, a, b) <==> meets(op, a, b),
{
    lemma_order_means(a, b);
}

/// How the operators stand to each other: of two values that can be compared exactly one of
/// less, equal and greater holds, greater is less the other way round, and the others are
/// what is left.
pub proof fn lemma_operators_agree(a: Value, b: Value)
    requires
        comparable(a, b),
    ensures
        compares(ComparisionOperator::GT, a, b) <==> compares(ComparisionOperator::LT, b, a),
        compares(ComparisionOperator::GTE, a, b) <==> !compares(ComparisionOperator::LT, a, b),
        compares(ComparisionOperator::LTE, a, b) <==> !compares(ComparisionOperator::GT, a, b),
        compares(ComparisionOperator::NE, a, b) <==> !compares(ComparisionOperator::EQ, a, b),
        compares(ComparisionOperator::LT, a, b) || compares(ComparisionOperator::EQ, a, b)
            || compares(ComparisionOperator::GT, a, b),
        !(compares(ComparisionOperator::LT, a, b) && compares(ComparisionOperator::EQ, a, b)),
        !(compares(ComparisionOperator::EQ, a, b) && compares(ComparisionOperator::GT, a, b)),
        !(compares(ComparisionOperator::LT, a, b) && compares(ComparisionOperator::GT, a, b)),
{
    lemma_order_means(a, b);
    lemma_order_means(b, a);
}

/// The columns that a predicate names are there.
pub open spec fn defined(p: Predicate, schema: SchemaModel) -> bool {
    &&& has_column(schema, p.column_name@)
    &&& p.value matches ComparisionValue::Column(name) ==> has_column(schema, name@)
}

/// The other side of a predicate has the value: it is that constant, or the value of the
/// column that it names.
pub open spec fn other_side(
    p: Predicate,
    schema: SchemaModel,
    row: RowModel,
    v: Value,
) -> bool {
    match p.value {
        ComparisionValue::Column(name) => exists|j: int| #[trigger]
            names(schema, name@, j) && v == row[j],
        ComparisionValue::I32(n) => v == Value::Int32(n),
        ComparisionValue::I64(n) => v == Value::Int64(n),
        ComparisionValue::F32(bits) => v == Value::Float32(bits),
        ComparisionValue::F64(bits) => v == Value::Float64(bits),
        ComparisionValue::String(s) => v == Value::Text(s@),
    }
}

/// A predicate is true of a row: the value of its column stands to the other side as its
/// operator says.
pub open spec fn true_of(p: Predicate, schema: SchemaModel, row: RowModel) -> bool {
    exists|i: int, v: Value|
        #![trigger names(schema, p.column_name@, i), other_side(p, schema, row, v)]
        {
            &&& names(schema, p.column_name@, i)
            &&& other_side(p, schema, row, v)
            &&& meets(p.operator, row[i], v)
        }
}

/// A predicate can be told of a row exactly where its columns are there, and it holds exactly
/// where it is true.
pub proof fn lemma_holds_means(p: Predicate, schema: SchemaModel, row: RowModel)
    ensures
        holds(p.deep_view(), row, schema) == if defined(p, schema) {
            Some(true_of(p, schema, row))
        } else {
            None
        },
{
    let name = p.column_name@;
    lemma_column_found(schema, name);
    if let ComparisionValue::Column(other) = p.value {
        lemma_column_found(schema, other@);
    }
    if defined(p, schema) {
        let i = column_of(schema, name)->0;
        assert(names(schema, name, i));
        let v = match p.value {
            ComparisionValue::Column(other) => row[column_of(schema, other@)->0],
            ComparisionValue::I32(n) => Value::Int32(n),
            ComparisionValue::I64(n) => Value::Int64(n),
            ComparisionValue::F32(bits) => Value::Float32(bits),
            ComparisionValue::F64(bits) => Value::Float64(bits),
            ComparisionValue::String(s) => Value::Text(s@),
        };
        if let ComparisionValue::Column(other) = p.value {
            assert(names(schema, other@, column_of(schema, other@)->0));
        }
        assert(other_side(p, schema, row, v));
        lemma_compares_means(p.operator, row[i], v);
        if true_of(p, schema, row) {
            let (k, w) = choose|k: int, w: Value|
                #![trigger names(schema, p.column_name@, k), other_side(p, schema, row, w)]
                {
                    &&& names(schema, p.column_name@, k)
                    &&& other_side(p, schema, row, w)
                    &&& meets(p.operator, row[k], w)
                };
            assert(k == i);
            assert(w == v);
        }
    }
}

/// All predicates are true of a row.
pub open spec fn all_true(ps: Seq<Predicate>, schema: SchemaModel, row: RowModel) -> bool {
    forall|k: int| 0 <= k < ps.len() ==> true_of(#[trigger] ps[k], schema, row)
}

/// A predicate names a column that is not there, and those before it are true, so that it is
/// asked.
pub open spec fn stuck_at(
    ps: Seq<Predicate>,
    schema: SchemaModel,
    row: RowModel,
    k: int,
) -> bool {
    &&& 0 <= k < ps.len()
    &&& !defined(ps[k], schema)
    &&& forall|j: int| 0 <= j < k ==> true_of(#[trigger] ps[j], schema, row)
}

/// All predicates hold exactly where all are true, and that cannot be told exactly where one
/// that is asked names a column that is not there.
pub proof fn lemma_all_hold_means(
    ps: Seq<Predicate>,
    cs: Seq<crate::query::Condition>,
    schema: SchemaModel,
    row: RowModel,
)
    requires
        cs.len() == ps.len(),
        forall|k: int| 0 <= k < ps.len() ==> #[trigger] cs[k] == ps[k].deep_view(),
    ensures
        all_hold(cs, row, schema) is None <==> exists|k: int| #[trigger]
            stuck_at(ps, schema, row, k),
        all_hold(cs, row, schema) == Some(true) <==> {
            &&& all_true(ps, schema, row)
            &&& forall|k: int| 0 <= k < ps.len() ==> defined(#[trigger] ps[k], schema)
        },
    decreases ps.len(),
{
    if ps.len() > 0 {
        let (qs, ds) = (ps.drop_first(), cs.drop_first());
        assert forall|k: int| 0 <= k < qs.len() implies #[trigger] ds[k] == qs[k].deep_view() by {
            assert(cs[k + 1] == ps[k + 1].deep_view());
        }
        assert(cs[0] == ps[0].deep_view());
        lemma_all_hold_means(qs, ds, schema, row);
        lemma_holds_means(ps[0], schema, row);
        if true_of(ps[0], schema, row) {
            lemma_true_is_defined(ps[0], schema, row);
        }
        if holds(cs[0], row, schema) == Some(true) {
            if exists|k: int| #[trigger] stuck_at(qs, schema, row, k) {
                let k = choose|k: int| #[trigger] stuck_at(qs, schema, row, k);
                assert(ps[k + 1] == qs[k]);
                assert forall|j: int| 0 <= j < k + 1 implies true_of(
                    #[trigger] ps[j],
                    schema,
                    row,
                ) by {
                    if j > 0 {
                        assert(qs[j - 1] == ps[j]);
                    }
                }
                assert(stuck_at(ps, schema, row, k + 1));
            }
            if exists|k: int| #[trigger] stuck_at(ps, schema, row, k) {
                let k = choose|k: int| #[trigger] stuck_at(ps, schema, row, k);
                assert(k > 0);
                assert(ps[k] == qs[k - 1]);
                assert forall|j: int| 0 <= j < k - 1 implies true_of(
                    #[trigger] qs[j],
                    schema,
                    row,
                ) by {
                    assert(qs[j] == ps[j + 1]);
                }
                assert(stuck_at(qs, schema, row, k - 1));
            }
            assert forall|k: int| 0 < k < ps.len() implies #[trigger] ps[k] == qs[k - 1] by {}
            if all_true(ps, schema, row) {
                assert forall|k: int| 0 <= k < qs.len() implies true_of(
                    #[trigger] qs[k],
                    schema,
                    row,
                ) by {
                    assert(qs[k] == ps[k + 1]);
                }
            }
            if all_hold(cs, row, schema) == Some(true) {
                assert forall|k: int| 0 <= k < ps.len() implies true_of(
                    #[trigger] ps[k],
                    schema,
                    row,
                ) && defined(ps[k], schema) by {
                    if k > 0 {
                        assert(qs[k - 1] == ps[k]);
                    }
                }
            } else if forall|k: int| 0 <= k < ps.len() ==> defined(#[trigger] ps[k], schema) {
                assert forall|k: int| 0 <= k < qs.len() implies defined(
                    #[trigger] qs[k],
                    schema,
                ) by {
                    assert(qs[k] == ps[k + 1]);
                }
            }
        } else {
            if holds(cs[0], row, schema) is None {
                assert(stuck_at(ps, schema, row, 0));
            } else if exists|k: int| #[trigger] stuck_at(ps, schema, row, k) {
                let k = choose|k: int| #[trigger] stuck_at(ps, schema, row, k);
                assert(k > 0 ==> true_of(ps[0], schema, row));
            }
            assert(!(all_true(ps, schema, row) && defined(ps[0], schema)));
        }
    }
}

proof fn lemma_true_is_defined(p: Predicate, schema: SchemaModel, row: RowModel)
    requires
        true_of(p, schema, row),
    ensures
        defined(p, schema),
{
    let (k, w) = choose|k: int, w: Value|
        #![trigger names(schema, p.column_name@, k), other_side(p, schema, row, w)]
        {
            &&& names(schema, p.column_name@, k)
            &&& other_side(p, schema, row, w)
            &&& meets(p.operator, row[k], w)
        };
    assert(names(schema, p.column_name@, k));
}

// ── Files and faults ─────────────────────────────────────────────────────────

/// What is known of a file on a healthy disk is where it lies.
pub proof fn lemma_facts_mean(facts: FileFacts, d: DiskModel, id: Seq<char>)
    requires
        facts.hold(d),
        d.healthy,
    ensures
        known(facts.starts.deep_view(), id) matches Some(n) ==> d.files.contains_key(id)
            && d.files[id].start == n,
        known(facts.sizes.deep_view(), id) matches Some(n) ==> d.files.contains_key(id)
            && d.files[id].blocks == n,
{
}

/// A fault names what was asked for and is not there.
pub proof fn lemma_fault_stands(e: PlanError)
    ensures
        match e {
            PlanError::UnknownTable(name) => e.deep_view() == Fault::UnknownTable(name@),
            PlanError::UnknownColumn(name) => e.deep_view() == Fault::UnknownColumn(name@),
            PlanError::FileTooLarge(name) => e.deep_view() == Fault::FileTooLarge(name@),
        },
{
}

/// The type of a value is that of the columns it belongs to.
pub proof fn lemma_kind_means(v: Value, kind: DataType)
    ensures
        v.kind() == kind <==> of_type(v, kind),
{
}

} // verus!
