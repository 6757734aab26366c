//! Selecting and renaming columns.

use vstd::prelude::*;

use crate::data::DataType;
use crate::disk::{DiskManager, DiskModel};
use crate::executor::node::PlanNode;
use crate::executor::{Operator, Step};
use crate::row::{column_of, find_column, Row, RowModel, Schema, SchemaModel};

verus! {

/// The places of the columns that a projection picks, if all are there.
pub open spec fn picked(map: Seq<(Seq<char>, Seq<char>)>, schema: SchemaModel) -> Option<Seq<int>>
    decreases map.len(),
{
    if map.len() == 0 {
        Some(Seq::empty())
    } else {
        match (picked(map.drop_last(), schema), column_of(schema, map.last().0)) {
            (Some(places), Some(i)) => Some(places.push(i)),
            _ => None,
        }
    }
}

/// The first column that a projection picks and that is not there.
pub open spec fn missing(map: Seq<(Seq<char>, Seq<char>)>, schema: SchemaModel) -> Option<Seq<char>>
    decreases map.len(),
{
    if map.len() == 0 {
        None
    } else {
        match missing(map.drop_last(), schema) {
            Some(name) => Some(name),
            None => if column_of(schema, map.last().0) is Some {
                None
            } else {
                Some(map.last().0)
            },
        }
    }
}

/// The columns that a projection gives: those picked, under their new names.
pub open spec fn renamed(
    map: Seq<(Seq<char>, Seq<char>)>,
    places: Seq<int>,
    schema: SchemaModel,
) -> SchemaModel {
    Seq::new(map.len(), |i: int| (map[i].1, schema[places[i]].1))
}

/// The values at the given places of a row.
pub open spec fn project_row(places: Seq<int>, row: RowModel) -> RowModel {
    Seq::new(places.len(), |i: int| row[places[i]])
}

/// The values at the given places of each row.
pub open spec fn project_rows(places: Seq<int>, rows: Seq<RowModel>) -> Seq<RowModel> {
    Seq::new(rows.len(), |i: int| project_row(places, rows[i]))
}

pub open spec fn projected(
    places: Seq<int>,
    rows: Option<Seq<RowModel>>,
) -> Option<Seq<RowModel>> {
    match rows {
        Some(rs) => Some(project_rows(places, rs)),
        None => None,
    }
}

/// A column that is missing early is missing.
proof fn lemma_missing(map: Seq<(Seq<char>, Seq<char>)>, schema: SchemaModel, n: int)
    requires
        0 <= n <= map.len(),
        missing(map.take(n), schema) is Some,
    ensures
        missing(map, schema) == missing(map.take(n), schema),
    decreases map.len(),
{
    if n < map.len() {
        assert(map.drop_last().take(n) =~= map.take(n));
        lemma_missing(map.drop_last(), schema, n);
    } else {
        assert(map.take(n) =~= map);
    }
}

/// Selects and optionally renames a subset of the columns of its child. The columns come
/// in the order of `column_name_map`, the rows in that of the child.
pub struct ProjectOperator<'q> {
    /// Name of each column in the child and in the output, borrowed from the query.
    pub column_name_map: &'q Vec<(String, String)>,
    /// For each output column the place of the source column in the child.
    pub source_indices: Vec<usize>,
    pub child: Box<PlanNode<'q>>,
    pub schema: Schema,
}

/// Places as plain numbers.
pub open spec fn places_of(indices: Seq<usize>) -> Seq<int> {
    Seq::new(indices.len(), |i: int| indices[i] as int)
}

impl<'q> ProjectOperator<'q> {
    /// A projection, or the name of the first column that the child does not have.
    pub fn new(column_name_map: &'q Vec<(String, String)>, child: PlanNode<'q>) -> (r: Result<
        ProjectOperator<'q>,
        String,
    >)
        requires
            child.wf(),
        ensures
            r matches Err(name) ==> missing(column_name_map.deep_view(), child.columns()) == Some(
                name@,
            ),
            r matches Ok(p) ==> {
                &&& missing(column_name_map.deep_view(), child.columns()) is None
                &&& p.wf()
                &&& p.quiet() == child.quiet()
                &&& *p.child == child
                &&& picked(column_name_map.deep_view(), child.columns()) == Some(
                    places_of(p.source_indices@),
                )
                &&& p.columns() == renamed(
                    column_name_map.deep_view(),
                    places_of(p.source_indices@),
                    child.columns(),
                )
                &&& forall|d: DiskModel| #[trigger] p.placed(d) == child.placed(d)
                &&& forall|d: DiskModel| #[trigger]
                    p.rows(d) == projected(places_of(p.source_indices@), child.rows(d))
            },
    {
        let mut schema: Schema = Vec::new();
        let mut source_indices: Vec<usize> = Vec::new();
        let ghost map = column_name_map.deep_view();
        let ghost columns = child.columns();
        let mut i: usize = 0;
        proof {
            assert(map.take(0) =~= Seq::<(Seq<char>, Seq<char>)>::empty());
            assert(places_of(source_indices@) =~= Seq::<int>::empty());
        }
        while i < column_name_map.len()
            invariant
                i <= column_name_map.len(),
                map == column_name_map.deep_view(),
                columns == child.columns(),
                picked(map.take(i as int), columns) == Some(places_of(source_indices@)),
                missing(map.take(i as int), columns) is None,
                source_indices@.len() == i,
                forall|k: int|
                    0 <= k < i ==> (#[trigger] source_indices@[k] as int) < columns.len(),
                schema.deep_view() == renamed(
                    map.take(i as int),
                    places_of(source_indices@),
                    columns,
                ),
            decreases column_name_map.len() - i,
        {
            let child_schema = child.schema();
            proof {
                let front = map.take(i + 1);
                assert(front.drop_last() =~= map.take(i as int));
                assert(front.last() == map[i as int]);
            }
            match find_column(child_schema, &column_name_map[i].0) {
                Some(idx) => {
                    let kind: DataType = child_schema[idx].1;
                    let name = column_name_map[i].1.clone();
                    let ghost before = schema.deep_view();
                    let ghost places = places_of(source_indices@);
                    schema.push((name, kind));
                    source_indices.push(idx);
                    i += 1;
                    proof {
                        assert(schema.deep_view() =~= before.push((name@, kind)));
                        assert(places_of(source_indices@) =~= places.push(idx as int));
                        assert(columns[idx as int].1 == kind);
                        assert(schema.deep_view() =~= renamed(
                            map.take(i as int),
                            places_of(source_indices@),
                            columns,
                        ));
                    }
                },
                None => {
                    proof {
                        lemma_missing(map, columns, i + 1);
                    }
                    return Err(column_name_map[i].0.clone());
                },
            }
        }
        proof {
            assert(map.take(i as int) =~= map);
        }
        Ok(ProjectOperator { column_name_map, source_indices, child: Box::new(child), schema })
    }

    /// The picked values of a row of the child.
    fn pick(&self, row: &Row) -> (r: Row)
        requires
            forall|k: int|
                0 <= k < self.source_indices@.len() ==> (#[trigger] self.source_indices@[k] as int)
                    < row@.len(),
        ensures
            r.deep_view() == project_row(places_of(self.source_indices@), row.deep_view()),
            r@.len() == self.source_indices@.len(),
            forall|k: int|
                0 <= k < r@.len() ==> (#[trigger] r@[k]).deep_view()
                    == row@[self.source_indices@[k] as int].deep_view(),
    {
        let ghost whole = project_row(places_of(self.source_indices@), row.deep_view());
        let mut out: Row = Vec::new();
        let mut i: usize = 0;
        while i < self.source_indices.len()
            invariant
                i <= self.source_indices.len(),
                forall|k: int|
                    0 <= k < self.source_indices@.len() ==> (
                    #[trigger] self.source_indices@[k] as int) < row@.len(),
                whole == project_row(places_of(self.source_indices@), row.deep_view()),
                out.deep_view() == whole.take(i as int),
            decreases self.source_indices.len() - i,
        {
            let v = row[self.source_indices[i]].clone();
            let ghost before = out.deep_view();
            out.push(v);
            i += 1;
            proof {
                assert(out.deep_view() =~= before.push(v.deep_view()));
                assert(out.deep_view() =~= whole.take(i as int));
            }
        }
        proof {
            assert(whole.take(i as int) =~= whole);
            assert(out.deep_view().len() == self.source_indices@.len());
            assert forall|k: int| 0 <= k < out@.len() implies (#[trigger] out@[k]).deep_view()
                == row@[self.source_indices@[k] as int].deep_view() by {
                assert(out.deep_view()[k] == whole[k]);
            }
        }
        out
    }
}

impl<'q> Operator for ProjectOperator<'q> {
    open spec fn wf(&self) -> bool
        decreases self,
    {
        &&& self.child.wf()
        &&& self.schema.deep_view().len() == self.source_indices@.len()
        &&& forall|k: int|
            0 <= k < self.source_indices@.len() ==> {
                &&& (#[trigger] self.source_indices@[k] as int) < self.child.columns().len()
                &&& self.schema.deep_view()[k].1
                    == self.child.columns()[self.source_indices@[k] as int].1
            }
    }

    open spec fn columns(&self) -> SchemaModel {
        self.schema.deep_view()
    }

    open spec fn want(&self) -> Option<(u64, u64)>
        decreases self,
    {
        self.child.want()
    }

    open spec fn placed(&self, d: DiskModel) -> bool
        decreases self,
    {
        self.child.placed(d)
    }

    open spec fn rows(&self, d: DiskModel) -> Option<Seq<RowModel>>
        decreases self,
    {
        projected(places_of(self.source_indices@), self.child.rows(d))
    }

    open spec fn work(&self, d: DiskModel) -> nat
        decreases self,
    {
        self.child.work(d)
    }

    open spec fn settled(&self) -> bool
        decreases self,
    {
        self.child.settled()
    }

    open spec fn dry(&self, d: DiskModel) -> bool
        decreases self,
    {
        self.child.dry(d)
    }

    open spec fn writes_nothing(&self, d: DiskModel) -> bool
        decreases self,
    {
        self.child.writes_nothing(d)
    }

    open spec fn requests_ahead(&self, d: DiskModel, idle: bool) -> nat
        decreases self,
    {
        self.child.requests_ahead(d, idle)
    }

    open spec fn quiet(&self) -> bool
        decreases self,
    {
        self.child.quiet()
    }

    proof fn lemma_grows(&self, d: DiskModel, d2: DiskModel)
        decreases self,
    {
        self.child.lemma_grows(d, d2);
    }

    fn schema(&self) -> (r: &Schema) {
        &self.schema
    }

    fn next(&mut self, disk: &mut DiskManager) -> (s: Step)
        decreases *old(self),
    {
        let step = self.child.next(disk);
        proof {
            assert(old(self).settled() == old(self).child.settled());
            assert(self.settled() == self.child.settled());
            assert(self.quiet() == self.child.quiet());
            assert(old(self).dry(old(disk)@) == old(self).child.dry(old(disk)@));
            assert(self.dry(disk@) == self.child.dry(disk@));
            assert(old(self).writes_nothing(old(disk)@) == old(self).child.writes_nothing(
                old(disk)@,
            ));
            assert(self.writes_nothing(disk@) == self.child.writes_nothing(disk@));
            assert(old(self).requests_ahead(old(disk)@, old(disk).idle())
                == old(self).child.requests_ahead(old(disk)@, old(disk).idle()));
            assert(self.requests_ahead(disk@, disk.idle()) == self.child.requests_ahead(
                disk@,
                disk.idle(),
            ));
        }
        match step {
            Step::Row(row) => {
                let out = self.pick(&row);
                proof {
                    let places = places_of(self.source_indices@);
                    let all = old(self).child.rows(old(disk)@)->0;
                    if all.len() > 0 {
                        assert(project_rows(places, all.drop_first()) =~= project_rows(
                            places,
                            all,
                        ).drop_first());
                    }
                    assert forall|k: int| 0 <= k < out.deep_view().len() implies (
                    #[trigger] out.deep_view()[k]).kind() == self.columns()[k].1
                        && out.deep_view()[k].storable() by {
                        assert((self.source_indices@[k] as int) < self.child.columns().len());
                        assert(row.deep_view()[self.source_indices@[k] as int].kind()
                            == self.child.columns()[self.source_indices@[k] as int].1);
                    }
                }
                Step::Row(out)
            },
            Step::Done => Step::Done,
            Step::Pending => Step::Pending,
            Step::Failed => Step::Failed,
        }
    }
}

} // verus!
