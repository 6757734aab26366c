//! The tables of the database and what is known about their columns.

use vstd::prelude::*;

use crate::data::DataType;
use crate::querylaws::{lemma_table_found, names_table};
use crate::row::{Schema, SchemaModel};

verus! {

/// How many distinct values a column has.
#[derive(Clone, Copy, Debug, PartialEq, Eq, Structural)]
pub struct CardinalityData(pub u64);

/// Something known about a column.
#[derive(Clone, Copy, Debug, PartialEq, Eq, Structural)]
pub enum ColumnStat {
    CardinalityStat(CardinalityData),
    /// The rows of the table are stored in ascending order of the column.
    IsPhysicallyOrdered,
}

#[derive(Debug)]
pub struct ColumnSpec {
    pub column_name: String,
    pub data_type: DataType,
    pub stats: Option<Vec<ColumnStat>>,
}

#[derive(Debug)]
pub struct TableSpec {
    pub name: String,
    pub file_id: String,
    pub column_specs: Vec<ColumnSpec>,
}

/// The tables of the database.
#[derive(Debug)]
pub struct DbContext {
    pub table_specs: Vec<TableSpec>,
}

impl ColumnSpec {
    /// The column as a schema lists it.
    pub open spec fn column(&self) -> (Seq<char>, DataType) {
        (self.column_name@, self.data_type)
    }

    /// What is known about the column.
    pub open spec fn known(&self) -> Seq<ColumnStat> {
        match self.stats {
            Some(stats) => stats@,
            None => Seq::empty(),
        }
    }

    /// The rows of the table are stored in the order of the column.
    pub open spec fn is_ordered(&self) -> bool {
        self.known().contains(ColumnStat::IsPhysicallyOrdered)
    }
}

impl TableSpec {
    /// The schema of the table.
    pub open spec fn columns(&self) -> SchemaModel {
        Seq::new(self.column_specs@.len(), |i: int| self.column_specs@[i].column())
    }

    /// The schema of the table.
    pub fn schema(&self) -> (r: Schema)
        ensures
            r.deep_view() == self.columns(),
    {
        let mut out: Schema = Vec::new();
        let mut i: usize = 0;
        while i < self.column_specs.len()
            invariant
                i <= self.column_specs.len(),
                out.deep_view() == self.columns().take(i as int),
            decreases self.column_specs.len() - i,
        {
            let c = &self.column_specs[i];
            let name = c.column_name.clone();
            let ghost before = out.deep_view();
            out.push((name, c.data_type));
            i += 1;
            proof {
                assert(out.deep_view() =~= before.push(c.column()));
                assert(out.deep_view() =~= self.columns().take(i as int));
            }
        }
        proof {
            assert(self.columns().take(i as int) =~= self.columns());
        }
        out
    }
}

/// The first table of that name.
pub open spec fn table_of(tables: Seq<TableSpec>, name: Seq<char>) -> Option<TableSpec>
    decreases tables.len(),
{
    if tables.len() == 0 {
        None
    } else if tables[0].name@ == name {
        Some(tables[0])
    } else {
        table_of(tables.drop_first(), name)
    }
}

impl DbContext {
    /// The tables of the database.
    pub fn get_table_specs(&self) -> (r: &Vec<TableSpec>)
        ensures
            *r == self.table_specs,
    {
        &self.table_specs
    }

    /// The first table of that name.
    pub fn find_table(&self, name: &String) -> (r: Option<&TableSpec>)
        ensures
            match r {
                Some(t) => {
                    &&& table_of(self.table_specs@, name@) == Some(*t)
                    &&& exists|i: int| #[trigger]
                        names_table(*self, name@, i) && self.table_specs@[i] == *t
                },
                None => {
                    &&& table_of(self.table_specs@, name@) is None
                    &&& forall|i: int| !(#[trigger] names_table(*self, name@, i))
                },
            },
    {
        proof {
            lemma_table_found(*self, name@);
        }
        let tables = self.get_table_specs();
        let mut i: usize = 0;
        proof {
            assert(tables@.skip(0) =~= tables@);
        }
        while i < tables.len()
            invariant
                i <= tables.len(),
                *tables == self.table_specs,
                table_of(self.table_specs@, name@) == table_of(tables@.skip(i as int), name@),
                table_of(self.table_specs@, name@) is Some <==> exists|k: int| #[trigger]
                    names_table(*self, name@, k),
                forall|k: int| #[trigger]
                    names_table(*self, name@, k) ==> table_of(self.table_specs@, name@) == Some(
                        self.table_specs@[k],
                    ),
            decreases tables.len() - i,
        {
            if tables[i].name == *name {
                proof {
                    assert(tables@.skip(i as int)[0] == tables@[i as int]);
                    assert(table_of(self.table_specs@, name@) is Some);
                    let k = choose|k: int| #[trigger] names_table(*self, name@, k);
                    assert(names_table(*self, name@, k));
                }
                return Some(&tables[i]);
            }
            proof {
                assert(tables@.skip(i as int).drop_first() =~= tables@.skip(i + 1));
            }
            i += 1;
        }
        None
    }
}

} // verus!
