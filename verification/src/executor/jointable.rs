//! Finding the rows that match a key.

use std::collections::HashMap;

use vstd::prelude::*;

use crate::data::Value;
use crate::executor::cross::{beside, lemma_joined_conform};
use crate::executor::order::{in_range, rows_at_places};
use crate::key::{hash_key, key_hash, key_of, make_join_key, same_key, JoinKey};
use crate::row::{all_conform, clone_row, conforms, join_rows, Row, RowModel, SchemaModel};

verus! {

/// The rows that have the key, in their order.
pub open spec fn matching(indices: Seq<usize>, rows: Seq<RowModel>, key: Seq<Value>) -> Seq<
    RowModel,
>
    decreases rows.len(),
{
    if rows.len() == 0 {
        Seq::empty()
    } else {
        let front = matching(indices, rows.drop_last(), key);
        if key_of(indices, rows.last()) == key {
            front.push(rows.last())
        } else {
            front
        }
    }
}

/// The places of the rows that have the key.
pub open spec fn key_places(indices: Seq<usize>, rows: Seq<RowModel>, key: Seq<Value>) -> Seq<
    usize,
>
    decreases rows.len(),
{
    if rows.len() == 0 {
        Seq::empty()
    } else {
        let front = key_places(indices, rows.drop_last(), key);
        if key_of(indices, rows.last()) == key {
            front.push((rows.len() - 1) as usize)
        } else {
            front
        }
    }
}

/// The places of the rows whose key has the hash.
pub open spec fn hash_places(indices: Seq<usize>, rows: Seq<RowModel>, h: u64) -> Seq<usize>
    decreases rows.len(),
{
    if rows.len() == 0 {
        Seq::empty()
    } else {
        let front = hash_places(indices, rows.drop_last(), h);
        if key_hash(key_of(indices, rows.last())) == h {
            front.push((rows.len() - 1) as usize)
        } else {
            front
        }
    }
}

/// Of the given places, those of rows that have the key.
pub open spec fn with_key(
    indices: Seq<usize>,
    rows: Seq<RowModel>,
    places: Seq<usize>,
    key: Seq<Value>,
) -> Seq<usize>
    decreases places.len(),
{
    if places.len() == 0 {
        Seq::empty()
    } else {
        let front = with_key(indices, rows, places.drop_last(), key);
        if key_of(indices, rows[places.last() as int]) == key {
            front.push(places.last())
        } else {
            front
        }
    }
}

pub proof fn lemma_places_in_range(
    indices: Seq<usize>,
    rows: Seq<RowModel>,
    h: u64,
    key: Seq<Value>,
)
    requires
        rows.len() <= usize::MAX,
    ensures
        in_range(hash_places(indices, rows, h), rows.len()),
        in_range(key_places(indices, rows, key), rows.len()),
        rows_at_places(rows, key_places(indices, rows, key)) == matching(indices, rows, key),
        matching(indices, rows, key).len() <= rows.len(),
    decreases rows.len(),
{
    if rows.len() > 0 {
        let front = rows.drop_last();
        lemma_places_in_range(indices, front, h, key);
        let places = key_places(indices, front, key);
        assert forall|i: int| 0 <= i < places.len() implies rows[#[trigger] places[i] as int]
            == front[places[i] as int] by {}
        assert(rows_at_places(rows, places) =~= rows_at_places(front, places));
        assert(rows_at_places(rows, key_places(indices, rows, key)) =~= matching(
            indices,
            rows,
            key,
        ));
    } else {
        assert(rows_at_places(rows, key_places(indices, rows, key)) =~= matching(
            indices,
            rows,
            key,
        ));
    }
}

proof fn lemma_with_key_same(
    indices: Seq<usize>,
    rows: Seq<RowModel>,
    more: Seq<RowModel>,
    places: Seq<usize>,
    key: Seq<Value>,
)
    requires
        in_range(places, rows.len()),
        rows.len() <= more.len(),
        forall|i: int| 0 <= i < rows.len() ==> #[trigger] more[i] == rows[i],
    ensures
        with_key(indices, more, places, key) == with_key(indices, rows, places, key),
    decreases places.len(),
{
    if places.len() > 0 {
        let front = places.drop_last();
        assert forall|i: int| 0 <= i < front.len() implies (#[trigger] front[i] as nat)
            < rows.len() by {
            assert(front[i] == places[i]);
        }
        lemma_with_key_same(indices, rows, more, front, key);
        assert(more[places.last() as int] == rows[places.last() as int]);
    }
}

/// The rows with a key are among those with its hash.
proof fn lemma_with_key(indices: Seq<usize>, rows: Seq<RowModel>, key: Seq<Value>)
    requires
        rows.len() <= usize::MAX,
    ensures
        with_key(indices, rows, hash_places(indices, rows, key_hash(key)), key) == key_places(
            indices,
            rows,
            key,
        ),
    decreases rows.len(),
{
    if rows.len() > 0 {
        let front = rows.drop_last();
        let h = key_hash(key);
        lemma_with_key(indices, front, key);
        lemma_places_in_range(indices, front, h, key);
        let places = hash_places(indices, front, h);
        lemma_with_key_same(indices, front, rows, places, key);
        let all = hash_places(indices, rows, h);
        if key_hash(key_of(indices, rows.last())) == h {
            assert(all.drop_last() =~= places);
        }
    }
}

/// Rows, and for each hash of a key the places of the rows whose key has it.
pub struct JoinTable {
    /// The key columns.
    pub indices: Vec<usize>,
    pub rows: Vec<Row>,
    /// For each hash its bucket.
    pub index: HashMap<u64, usize>,
    pub buckets: Vec<Vec<usize>>,
}

/// A copy of some numbers.
pub fn copy_indices(indices: &Vec<usize>) -> (r: Vec<usize>)
    ensures
        r@ == indices@,
{
    let mut r: Vec<usize> = Vec::new();
    let mut i: usize = 0;
    while i < indices.len()
        invariant
            i <= indices.len(),
            r@ == indices@.take(i as int),
        decreases indices.len() - i,
    {
        r.push(indices[i]);
        i += 1;
        assert(r@ =~= indices@.take(i as int));
    }
    assert(r@ =~= indices@);
    r
}

/// The key columns are among the first `width`.
pub open spec fn indices_ok(indices: Seq<usize>, width: nat) -> bool {
    forall|k: int| 0 <= k < indices.len() ==> (#[trigger] indices[k] as int) < width
}

impl JoinTable {
    /// The table holds rows of the given schema, and the buckets are those of its rows.
    pub closed spec fn wf(&self, schema: SchemaModel) -> bool {
        let rows = self.rows.deep_view();
        &&& indices_ok(self.indices@, schema.len())
        &&& all_conform(rows, schema)
        &&& forall|h: u64|
            if #[trigger] self.index@.contains_key(h) {
                &&& self.index@[h] < self.buckets@.len()
                &&& self.buckets@[self.index@[h] as int]@ == hash_places(self.indices@, rows, h)
            } else {
                hash_places(self.indices@, rows, h).len() == 0
            }
        &&& forall|g: u64, h: u64|
            #![trigger self.index@[g], self.index@[h]]
            self.index@.contains_key(g) && self.index@.contains_key(h) && self.index@[g]
                == self.index@[h] ==> g == h
    }

    /// An empty table.
    pub fn new(indices: Vec<usize>, Ghost(schema): Ghost<SchemaModel>) -> (r: JoinTable)
        requires
            indices_ok(indices@, schema.len()),
        ensures
            r.wf(schema),
            r.indices == indices,
            r.rows.deep_view() == Seq::<RowModel>::empty(),
    {
        broadcast use vstd::std_specs::hash::group_hash_axioms;

        let r = JoinTable {
            indices,
            rows: Vec::new(),
            index: HashMap::new(),
            buckets: Vec::new(),
        };
        proof {
            assert(r.rows.deep_view() =~= Seq::<RowModel>::empty());
        }
        r
    }

    /// Adds a row.
    pub fn insert_row(&mut self, row: Row, Ghost(schema): Ghost<SchemaModel>)
        requires
            old(self).wf(schema),
            conforms(row.deep_view(), schema),
        ensures
            final(self).wf(schema),
            final(self).indices == old(self).indices,
            final(self).rows.deep_view() == old(self).rows.deep_view().push(row.deep_view()),
    {
        broadcast use vstd::std_specs::hash::group_hash_axioms;

        let ghost was = *self;
        let key = make_join_key(&row, &self.indices);
        let h: u64 = hash_key(&key);
        let at: usize = self.rows.len();
        let ghost model = row.deep_view();
        self.rows.push(row);
        proof {
            let rows = self.rows.deep_view();
            assert(rows =~= was.rows.deep_view().push(model));
            assert(rows.drop_last() =~= was.rows.deep_view());
            assert forall|g: u64| #[trigger]
                hash_places(self.indices@, rows, g) == if g == h {
                    hash_places(self.indices@, was.rows.deep_view(), g).push(at)
                } else {
                    hash_places(self.indices@, was.rows.deep_view(), g)
                } by {}
        }
        let found: Option<usize> = match self.index.get(&h) {
            Some(b) => Some(*b),
            None => None,
        };
        match found {
            Some(b) => {
                self.buckets[b].push(at);
                proof {
                    assert(was.index@.contains_key(h));
                    assert forall|g: u64|
                        if #[trigger] self.index@.contains_key(g) {
                            &&& self.index@[g] < self.buckets@.len()
                            &&& self.buckets@[self.index@[g] as int]@ == hash_places(
                                self.indices@,
                                self.rows.deep_view(),
                                g,
                            )
                        } else {
                            hash_places(self.indices@, self.rows.deep_view(), g).len() == 0
                        } by {
                        if was.index@.contains_key(g) {
                            assert(was.index@[g] == was.index@[h] ==> g == h);
                        }
                    }
                }
            },
            None => {
                let b: usize = self.buckets.len();
                let mut bucket: Vec<usize> = Vec::new();
                bucket.push(at);
                self.buckets.push(bucket);
                self.index.insert(h, b);
                proof {
                    assert(!was.index@.contains_key(h));
                    assert forall|g: u64|
                        if #[trigger] self.index@.contains_key(g) {
                            &&& self.index@[g] < self.buckets@.len()
                            &&& self.buckets@[self.index@[g] as int]@ == hash_places(
                                self.indices@,
                                self.rows.deep_view(),
                                g,
                            )
                        } else {
                            hash_places(self.indices@, self.rows.deep_view(), g).len() == 0
                        } by {
                        assert(was.index@.contains_key(g) || !was.index@.contains_key(g));
                        if g == h {
                            assert(bucket@ =~= hash_places(
                                self.indices@,
                                was.rows.deep_view(),
                                g,
                            ).push(at));
                        }
                    }
                    assert forall|f: u64, g: u64|
                        #![trigger self.index@[f], self.index@[g]]
                        self.index@.contains_key(f) && self.index@.contains_key(g)
                            && self.index@[f] == self.index@[g] implies f == g by {
                        if f != h {
                            assert(was.index@.contains_key(f));
                            assert(was.index@[f] < b);
                        }
                        if g != h {
                            assert(was.index@.contains_key(g));
                            assert(was.index@[g] < b);
                        }
                    }
                }
            },
        }
    }

    /// The places of the rows that have the key.
    pub fn find(&self, key: &JoinKey, Ghost(schema): Ghost<SchemaModel>) -> (places: Vec<usize>)
        requires
            self.wf(schema),
        ensures
            in_range(places@, self.rows@.len()),
            rows_at_places(self.rows.deep_view(), places@) == matching(
                self.indices@,
                self.rows.deep_view(),
                key.deep_view(),
            ),
            places@.len() <= self.rows@.len(),
    {
        broadcast use vstd::std_specs::hash::group_hash_axioms;

        let ghost rows = self.rows.deep_view();
        let ghost model = key.deep_view();
        let h: u64 = hash_key(key);
        let n: usize = self.rows.len();
        proof {
            assert(rows.len() == n);
            lemma_with_key(self.indices@, rows, model);
            lemma_places_in_range(self.indices@, rows, h, model);
        }
        let mut out: Vec<usize> = Vec::new();
        let found: Option<usize> = match self.index.get(&h) {
            Some(b) => Some(*b),
            None => None,
        };
        let b: usize = match found {
            Some(b) => b,
            None => {
                proof {
                    assert(!self.index@.contains_key(h));
                    assert(hash_places(self.indices@, rows, h) =~= Seq::<usize>::empty());
                }
                return out;
            },
        };
        proof {
            assert(self.index@.contains_key(h));
        }
        let bucket = &self.buckets[b];
        let mut i: usize = 0;
        proof {
            assert(bucket@.take(0) =~= Seq::<usize>::empty());
        }
        while i < bucket.len()
            invariant
                i <= bucket.len(),
                self.wf(schema),
                rows == self.rows.deep_view(),
                rows.len() == self.rows@.len(),
                model == key.deep_view(),
                bucket@ == hash_places(self.indices@, rows, h),
                in_range(bucket@, rows.len()),
                out@ == with_key(self.indices@, rows, bucket@.take(i as int), model),
            decreases bucket.len() - i,
        {
            let p: usize = bucket[i];
            assert(bucket@[i as int] < rows.len());
            proof {
                assert(conforms(rows[p as int], schema));
                assert(bucket@.take(i + 1).drop_last() =~= bucket@.take(i as int));
                assert(bucket@.take(i + 1).last() == p);
            }
            let candidate = make_join_key(&self.rows[p], &self.indices);
            assert(self.rows[p as int].deep_view() == rows[p as int]);
            if same_key(&candidate, key) {
                out.push(p);
            }
            i += 1;
        }
        proof {
            assert(bucket@.take(i as int) =~= bucket@);
        }
        out
    }
}

// ── Probing ──────────────────────────────────────────────────────────────────

/// A table with the left row whose matches are being given out.
pub struct Probe {
    /// The key columns of the left side.
    pub left_indices: Vec<usize>,
    pub table: JoinTable,
    pub current: Option<Row>,
    /// The places in the table of the rows that match it.
    pub matches: Vec<usize>,
    /// How many of them have been given out.
    pub at: usize,
}

impl Probe {
    pub closed spec fn wf(&self, left: SchemaModel, right: SchemaModel) -> bool {
        &&& self.table.wf(right)
        &&& all_conform(self.table.rows.deep_view(), right)
        &&& indices_ok(self.left_indices@, left.len())
        &&& self.current matches Some(row) ==> {
            &&& conforms(row.deep_view(), left)
            &&& in_range(self.matches@, self.table.rows@.len())
            &&& self.at <= self.matches@.len()
        }
    }

    /// The rows still to be given out.
    pub closed spec fn rest(&self) -> Seq<RowModel> {
        match self.current {
            Some(row) => beside(
                row.deep_view(),
                rows_at_places(self.table.rows.deep_view(), self.matches@).skip(self.at as int),
            ),
            None => Seq::empty(),
        }
    }

    /// A probe of an empty table.
    pub fn new(
        left_indices: Vec<usize>,
        right_indices: Vec<usize>,
        Ghost(left): Ghost<SchemaModel>,
        Ghost(right): Ghost<SchemaModel>,
    ) -> (r: Probe)
        requires
            indices_ok(left_indices@, left.len()),
            indices_ok(right_indices@, right.len()),
        ensures
            r.wf(left, right),
            r.current is None,
            r.left_indices == left_indices,
            r.table.indices == right_indices,
            r.table.rows.deep_view() == Seq::<RowModel>::empty(),
    {
        Probe {
            left_indices,
            table: JoinTable::new(right_indices, Ghost(right)),
            current: None,
            matches: Vec::new(),
            at: 0,
        }
    }

    /// Empties the table.
    pub fn clear(&mut self, Ghost(left): Ghost<SchemaModel>, Ghost(right): Ghost<SchemaModel>)
        requires
            old(self).wf(left, right),
        ensures
            final(self).wf(left, right),
            final(self).current is None,
            final(self).left_indices == old(self).left_indices,
            final(self).table.indices@ == old(self).table.indices@,
            final(self).table.rows.deep_view() == Seq::<RowModel>::empty(),
    {
        let indices = copy_indices(&self.table.indices);
        self.table = JoinTable::new(indices, Ghost(right));
        self.current = None;
    }

    /// Adds a row to the table.
    pub fn insert_row(
        &mut self,
        row: Row,
        Ghost(left): Ghost<SchemaModel>,
        Ghost(right): Ghost<SchemaModel>,
    )
        requires
            old(self).wf(left, right),
            old(self).current is None,
            conforms(row.deep_view(), right),
        ensures
            final(self).wf(left, right),
            final(self).current is None,
            final(self).left_indices == old(self).left_indices,
            final(self).table.indices == old(self).table.indices,
            final(self).table.rows.deep_view() == old(self).table.rows.deep_view().push(
                row.deep_view(),
            ),
    {
        self.table.insert_row(row, Ghost(right));
    }

    /// Starts on a left row.
    pub fn start_row(
        &mut self,
        row: Row,
        Ghost(left): Ghost<SchemaModel>,
        Ghost(right): Ghost<SchemaModel>,
    )
        requires
            old(self).wf(left, right),
            conforms(row.deep_view(), left),
        ensures
            final(self).wf(left, right),
            final(self).current is Some,
            final(self).left_indices == old(self).left_indices,
            final(self).table == old(self).table,
            final(self).rest() == beside(
                row.deep_view(),
                matching(
                    old(self).table.indices@,
                    old(self).table.rows.deep_view(),
                    key_of(old(self).left_indices@, row.deep_view()),
                ),
            ),
            final(self).rest().len() <= old(self).table.rows@.len(),
    {
        let key = make_join_key(&row, &self.left_indices);
        self.matches = self.table.find(&key, Ghost(right));
        self.at = 0;
        self.current = Some(row);
        proof {
            let found = rows_at_places(self.table.rows.deep_view(), self.matches@);
            assert(found.skip(0) =~= found);
        }
    }

    /// Gives out the next row, or ends the left row.
    pub fn next_match(
        &mut self,
        Ghost(left): Ghost<SchemaModel>,
        Ghost(right): Ghost<SchemaModel>,
    ) -> (r: Option<Row>)
        requires
            old(self).wf(left, right),
            old(self).current is Some,
        ensures
            final(self).wf(left, right),
            final(self).left_indices == old(self).left_indices,
            final(self).table == old(self).table,
            match r {
                Some(row) => {
                    &&& final(self).current is Some
                    &&& conforms(row.deep_view(), left + right)
                    &&& old(self).rest().len() > 0
                    &&& row.deep_view() == old(self).rest()[0]
                    &&& final(self).rest() == old(self).rest().drop_first()
                },
                None => {
                    &&& final(self).current is None
                    &&& final(self).rest() == Seq::<RowModel>::empty()
                    &&& old(self).rest() == Seq::<RowModel>::empty()
                },
            },
    {
        let ghost before = *self;
        if self.at >= self.matches.len() {
            self.current = None;
            proof {
                assert(before.rest() =~= Seq::<RowModel>::empty());
            }
            return None;
        }
        let p: usize = self.matches[self.at];
        let right_row = clone_row(&self.table.rows[p]);
        match &self.current {
            Some(left_row) => {
                let out = join_rows(left_row, &right_row);
                proof {
                    let rows = self.table.rows.deep_view();
                    assert(right_row.deep_view() == rows[p as int]);
                    assert(conforms(rows[p as int], right));
                    lemma_joined_conform(left_row.deep_view(), right_row.deep_view(), left, right);
                }
                self.at = self.at + 1;
                proof {
                    let l = before.current->0.deep_view();
                    let found = rows_at_places(self.table.rows.deep_view(), self.matches@);
                    let i = before.at as int;
                    assert(found.skip(i).drop_first() =~= found.skip(i + 1));
                    assert(beside(l, found.skip(i)).drop_first() =~= beside(l, found.skip(i + 1)));
                }
                Some(out)
            },
            None => None,
        }
    }

    pub proof fn lemma_rows_conform(&self, left: SchemaModel, right: SchemaModel)
        requires
            self.wf(left, right),
        ensures
            all_conform(self.table.rows.deep_view(), right),
    {
    }

    pub proof fn lemma_idle(&self)
        requires
            self.current is None,
        ensures
            self.rest() == Seq::<RowModel>::empty(),
    {
    }
}

} // verus!
