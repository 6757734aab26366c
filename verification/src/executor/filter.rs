//! Filtering rows by predicates.

use vstd::prelude::*;

use crate::bytes::Order;
use crate::data::{value_equal, value_order, Data, Value};
use crate::disk::{DiskManager, DiskModel};
use crate::executor::node::PlanNode;
use crate::executor::{Operator, Step};
use crate::query::{ComparisionOperator, ComparisionValue, Condition, Operand, Predicate};
use crate::querylaws::{defined, lemma_holds_means, true_of};
use crate::row::{column_of, find_column, Row, RowModel, Schema, SchemaModel};

verus! {

/// Whether two values stand to each other as the comparison says.
pub open spec fn compares(op: ComparisionOperator, a: Value, b: Value) -> bool {
    match op {
        ComparisionOperator::EQ => value_equal(a, b),
        ComparisionOperator::NE => !value_equal(a, b),
        ComparisionOperator::GT => value_order(a, b) == Some(Order::Greater),
        ComparisionOperator::GTE => {
            ||| value_order(a, b) == Some(Order::Greater)
            ||| value_order(a, b) == Some(Order::Equal)
        },
        ComparisionOperator::LT => value_order(a, b) == Some(Order::Less),
        ComparisionOperator::LTE => {
            ||| value_order(a, b) == Some(Order::Less)
            ||| value_order(a, b) == Some(Order::Equal)
        },
    }
}

/// The value of the right side of a condition on a row; nothing where it names a column
/// that there is not.
pub open spec fn operand_value(o: Operand, row: RowModel, schema: SchemaModel) -> Option<Value> {
    match o {
        Operand::Column(name) => match column_of(schema, name) {
            Some(i) => Some(row[i]),
            None => None,
        },
        Operand::Constant(v) => Some(v),
    }
}

/// Whether a condition holds of a row; nothing where it names a column that there is not.
pub open spec fn holds(c: Condition, row: RowModel, schema: SchemaModel) -> Option<bool> {
    match (column_of(schema, c.column), operand_value(c.operand, row, schema)) {
        (Some(i), Some(v)) => Some(compares(c.operator, row[i], v)),
        _ => None,
    }
}

/// Whether all conditions hold of a row, asked in order and no further than the first
/// that does not; nothing where one that is asked names a column that there is not.
pub open spec fn all_hold(cs: Seq<Condition>, row: RowModel, schema: SchemaModel) -> Option<bool>
    decreases cs.len(),
{
    if cs.len() == 0 {
        Some(true)
    } else {
        match holds(cs[0], row, schema) {
            Some(true) => all_hold(cs.drop_first(), row, schema),
            other => other,
        }
    }
}

/// The rows of which all conditions hold, in their order; nothing where that cannot be
/// told of one.
pub open spec fn filter_rows(
    cs: Seq<Condition>,
    schema: SchemaModel,
    rows: Seq<RowModel>,
) -> Option<Seq<RowModel>>
    decreases rows.len(),
{
    if rows.len() == 0 {
        Some(Seq::empty())
    } else {
        match (all_hold(cs, rows[0], schema), filter_rows(cs, schema, rows.drop_first())) {
            (Some(true), Some(rest)) => Some(seq![rows[0]] + rest),
            (Some(false), Some(rest)) => Some(rest),
            _ => None,
        }
    }
}

/// What a filter gives of what its child gives.
pub open spec fn filtered(
    cs: Seq<Condition>,
    schema: SchemaModel,
    rows: Option<Seq<RowModel>>,
) -> Option<Seq<RowModel>> {
    match rows {
        Some(rs) => filter_rows(cs, schema, rs),
        None => None,
    }
}

/// Whether a predicate holds of a row, if its columns are there.
pub fn evaluate_predicate(row: &Row, schema: &Schema, pred: &Predicate) -> (r: Option<bool>)
    requires
        row@.len() == schema@.len(),
    ensures
        r == holds(pred.deep_view(), row.deep_view(), schema.deep_view()),
        r == if defined(*pred, schema.deep_view()) {
            Some(true_of(*pred, schema.deep_view(), row.deep_view()))
        } else {
            None
        },
{
    proof {
        lemma_holds_means(*pred, schema.deep_view(), row.deep_view());
    }
    let lhs_idx = match find_column(schema, &pred.column_name) {
        Some(i) => i,
        None => return None,
    };
    let rhs: Data = match &pred.value {
        ComparisionValue::Column(name) => match find_column(schema, name) {
            Some(j) => row[j].clone(),
            None => return None,
        },
        ComparisionValue::I32(v) => Data::Int32(*v),
        ComparisionValue::I64(v) => Data::Int64(*v),
        ComparisionValue::F32(v) => Data::Float32(*v),
        ComparisionValue::F64(v) => Data::Float64(*v),
        ComparisionValue::String(s) => Data::String(s.clone()),
    };
    let lhs = &row[lhs_idx];
    let order = lhs.compare(&rhs);
    assert(lhs.deep_view() == row.deep_view()[lhs_idx as int]);
    Some(
        match pred.operator {
            ComparisionOperator::EQ => lhs.equals(&rhs),
            ComparisionOperator::NE => !lhs.equals(&rhs),
            ComparisionOperator::GT => matches!(order, Some(Order::Greater)),
            ComparisionOperator::GTE => matches!(
                order,
                Some(Order::Greater) | Some(Order::Equal)
            ),
            ComparisionOperator::LT => matches!(order, Some(Order::Less)),
            ComparisionOperator::LTE => matches!(order, Some(Order::Less) | Some(Order::Equal)),
        },
    )
}

/// Appends references to some predicates.
pub fn push_all<'q>(more: &'q Vec<Predicate>, predicates: &mut Vec<&'q Predicate>)
    ensures
        final(predicates).deep_view() == old(predicates).deep_view() + more.deep_view(),
{
    let ghost had = predicates.deep_view();
    let mut i: usize = 0;
    proof {
        assert(had + more.deep_view().take(0) =~= had);
    }
    while i < more.len()
        invariant
            i <= more.len(),
            had == old(predicates).deep_view(),
            predicates.deep_view() == had + more.deep_view().take(i as int),
        decreases more.len() - i,
    {
        let ghost before = predicates.deep_view();
        predicates.push(&more[i]);
        i += 1;
        proof {
            assert(predicates.deep_view() =~= before.push(more@[i - 1].deep_view()));
            assert(predicates.deep_view() =~= had + more.deep_view().take(i as int));
        }
    }
    proof {
        assert(more.deep_view().take(i as int) =~= more.deep_view());
    }
}

/// Passes only rows from its child where all predicates evaluate to true.
pub struct FilterOperator<'q> {
    /// The list is the operator's own, what it lists is borrowed from the query.
    pub predicates: Vec<&'q Predicate>,
    pub child: Box<PlanNode<'q>>,
}

impl<'q> FilterOperator<'q> {
    /// A filter by the predicates of a query.
    pub fn new(predicates: &'q Vec<Predicate>, child: PlanNode<'q>) -> (r: FilterOperator<'q>)
        ensures
            r.predicates.deep_view() == predicates.deep_view(),
            *r.child == child,
            r.wf() == child.wf(),
            r.quiet() == child.quiet(),
            r.columns() == child.columns(),
            forall|d: DiskModel| #[trigger] r.placed(d) == child.placed(d),
            forall|d: DiskModel| #[trigger]
                r.rows(d) == filtered(predicates.deep_view(), child.columns(), child.rows(d)),
    {
        let mut list: Vec<&'q Predicate> = Vec::new();
        push_all(predicates, &mut list);
        proof {
            assert(Seq::<Condition>::empty() + predicates.deep_view() =~= predicates.deep_view());
        }
        FilterOperator::with_list(list, child)
    }

    /// A filter by some predicates, such as a join takes over from filters above it.
    pub fn with_list(predicates: Vec<&'q Predicate>, child: PlanNode<'q>) -> (r: FilterOperator<
        'q,
    >)
        ensures
            r.predicates == predicates,
            *r.child == child,
            r.wf() == child.wf(),
            r.quiet() == child.quiet(),
            r.columns() == child.columns(),
            forall|d: DiskModel| #[trigger] r.placed(d) == child.placed(d),
            forall|d: DiskModel| #[trigger]
                r.rows(d) == filtered(predicates.deep_view(), child.columns(), child.rows(d)),
    {
        FilterOperator { predicates, child: Box::new(child) }
    }

    fn passes_all(&self, row: &Row) -> (r: Option<bool>)
        requires
            row@.len() == self.child.columns().len(),
        ensures
            r == all_hold(
                self.predicates.deep_view(),
                row.deep_view(),
                self.child.columns(),
            ),
    {
        let schema = self.child.schema();
        let ghost cs = self.predicates.deep_view();
        let mut i: usize = 0;
        proof {
            assert(cs.skip(0) =~= cs);
        }
        while i < self.predicates.len()
            invariant
                i <= self.predicates.len(),
                cs == self.predicates.deep_view(),
                row@.len() == schema@.len(),
                schema.deep_view() == self.child.columns(),
                all_hold(cs, row.deep_view(), schema.deep_view()) == all_hold(
                    cs.skip(i as int),
                    row.deep_view(),
                    schema.deep_view(),
                ),
            decreases self.predicates.len() - i,
        {
            proof {
                assert(cs.skip(i as int)[0] == self.predicates[i as int].deep_view());
                assert(cs.skip(i as int).drop_first() =~= cs.skip(i + 1));
            }
            match evaluate_predicate(row, schema, self.predicates[i]) {
                Some(true) => {},
                other => return other,
            }
            i += 1;
        }
        Some(true)
    }
}

impl<'q> Operator for FilterOperator<'q> {
    open spec fn wf(&self) -> bool
        decreases self,
    {
        self.child.wf()
    }

    open spec fn columns(&self) -> SchemaModel
        decreases self,
    {
        self.child.columns()
    }

    open spec fn want(&self) -> Option<(u64, u64)>
        decreases self,
    {
        self.child.want()
    }

    open spec fn placed(&self, d: DiskModel) -> bool
        decreases self,
    {
        self.child.placed(d)
    }

    open spec fn rows(&self, d: DiskModel) -> Option<Seq<RowModel>>
        decreases self,
    {
        filtered(self.predicates.deep_view(), self.child.columns(), self.child.rows(d))
    }

    open spec fn work(&self, d: DiskModel) -> nat
        decreases self,
    {
        self.child.work(d)
    }

    open spec fn settled(&self) -> bool
        decreases self,
    {
        self.child.settled()
    }

    open spec fn dry(&self, d: DiskModel) -> bool
        decreases self,
    {
        self.child.dry(d)
    }

    open spec fn writes_nothing(&self, d: DiskModel) -> bool
        decreases self,
    {
        self.child.writes_nothing(d)
    }

    open spec fn requests_ahead(&self, d: DiskModel, idle: bool) -> nat
        decreases self,
    {
        self.child.requests_ahead(d, idle)
    }

    open spec fn quiet(&self) -> bool
        decreases self,
    {
        self.child.quiet()
    }

    proof fn lemma_grows(&self, d: DiskModel, d2: DiskModel)
        decreases self,
    {
        self.child.lemma_grows(d, d2);
    }

    fn schema(&self) -> (r: &Schema)
        decreases self,
    {
        self.child.schema()
    }

    fn next(&mut self, disk: &mut DiskManager) -> (s: Step)
        decreases *old(self),
    {
        let step = self.child.next(disk);
        proof {
            assert(old(self).settled() == old(self).child.settled());
            assert(self.settled() == self.child.settled());
            assert(self.quiet() == self.child.quiet());
            assert(old(self).dry(old(disk)@) == old(self).child.dry(old(disk)@));
            assert(self.dry(disk@) == self.child.dry(disk@));
            assert(old(self).writes_nothing(old(disk)@) == old(self).child.writes_nothing(
                old(disk)@,
            ));
            assert(self.writes_nothing(disk@) == self.child.writes_nothing(disk@));
            assert(old(self).requests_ahead(old(disk)@, old(disk).idle())
                == old(self).child.requests_ahead(old(disk)@, old(disk).idle()));
            assert(self.requests_ahead(disk@, disk.idle()) == self.child.requests_ahead(
                disk@,
                disk.idle(),
            ));
        }
        match step {
            Step::Row(row) => match self.passes_all(&row) {
                Some(true) => {
                    proof {
                        if let Some(all) = old(self).child.rows(old(disk)@) {
                            if let Some(kept) = filter_rows(
                                self.predicates.deep_view(),
                                self.columns(),
                                all.drop_first(),
                            ) {
                                assert((seq![all[0]] + kept).drop_first() =~= kept);
                            }
                        }
                    }
                    Step::Row(row)
                },
                Some(false) => Step::Pending,
                None => Step::Failed,
            },
            Step::Done => Step::Done,
            Step::Pending => Step::Pending,
            Step::Failed => Step::Failed,
        }
    }
}

} // verus!
