//! Queries: trees of relational operations.

use vstd::prelude::*;

use crate::data::Value;

verus! {

/// How a predicate compares its two sides.
#[derive(Clone, Copy, Debug, PartialEq, Eq, Structural)]
pub enum ComparisionOperator {
    EQ,
    NE,
    GT,
    GTE,
    LT,
    LTE,
}

/// The right side of a predicate: a column or a constant. Float constants are bit
/// patterns.
#[derive(Debug)]
pub enum ComparisionValue {
    Column(String),
    I32(i32),
    I64(i64),
    F32(u32),
    F64(u64),
    String(String),
}

/// A condition on a row.
#[derive(Debug)]
pub struct Predicate {
    pub column_name: String,
    pub operator: ComparisionOperator,
    pub value: ComparisionValue,
}

/// One column to sort by.
#[derive(Debug)]
pub struct SortSpec {
    pub column_name: String,
    pub ascending: bool,
}

#[derive(Debug)]
pub struct ScanData {
    pub table_id: String,
}

#[derive(Debug)]
pub struct FilterData {
    pub predicates: Vec<Predicate>,
    pub underlying: Box<QueryOp>,
}

#[derive(Debug)]
pub struct ProjectData {
    /// For each output column its name in the input and in the output.
    pub column_name_map: Vec<(String, String)>,
    pub underlying: Box<QueryOp>,
}

#[derive(Debug)]
pub struct SortData {
    pub sort_specs: Vec<SortSpec>,
    pub underlying: Box<QueryOp>,
}

#[derive(Debug)]
pub struct CrossData {
    pub left: Box<QueryOp>,
    pub right: Box<QueryOp>,
}

/// A relational operation and those below it.
#[derive(Debug)]
pub enum QueryOp {
    Scan(ScanData),
    Filter(FilterData),
    Project(ProjectData),
    Sort(SortData),
    Cross(CrossData),
}

/// A query.
#[derive(Debug)]
pub struct Query {
    pub root: QueryOp,
}

/// What the right side of a predicate says.
#[verifier::ext_equal]
pub enum Operand {
    Column(Seq<char>),
    Constant(Value),
}

/// What a predicate says.
#[verifier::ext_equal]
pub struct Condition {
    pub column: Seq<char>,
    pub operator: ComparisionOperator,
    pub operand: Operand,
}

/// What a sort column says.
#[verifier::ext_equal]
pub struct SortColumn {
    pub column: Seq<char>,
    pub ascending: bool,
}

impl DeepView for ComparisionValue {
    type V = Operand;

    open spec fn deep_view(&self) -> Operand {
        match self {
            ComparisionValue::Column(name) => Operand::Column(name@),
            ComparisionValue::I32(v) => Operand::Constant(Value::Int32(*v)),
            ComparisionValue::I64(v) => Operand::Constant(Value::Int64(*v)),
            ComparisionValue::F32(v) => Operand::Constant(Value::Float32(*v)),
            ComparisionValue::F64(v) => Operand::Constant(Value::Float64(*v)),
            ComparisionValue::String(s) => Operand::Constant(Value::Text(s@)),
        }
    }
}

impl DeepView for Predicate {
    type V = Condition;

    open spec fn deep_view(&self) -> Condition {
        Condition {
            column: self.column_name@,
            operator: self.operator,
            operand: self.value.deep_view(),
        }
    }
}

impl DeepView for SortSpec {
    type V = SortColumn;

    open spec fn deep_view(&self) -> SortColumn {
        SortColumn { column: self.column_name@, ascending: self.ascending }
    }
}

} // verus!
