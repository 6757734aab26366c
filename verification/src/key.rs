//! Join keys, and the numbers by which they are found again.

use std::collections::hash_map::DefaultHasher;
use std::hash::Hasher;

use vstd::prelude::*;
use vstd::std_specs::hash::DefaultHasherAdditionalSpecFns;
use vstd::utf8::encode_utf8;

use crate::bytes::{le_bytes, push_le};
use crate::data::{Data, Value};
use crate::executor::project::{places_of, project_row};
use crate::row::{value_bytes, Row, RowModel};

verus! {

/// One value of a join key. Keys are equal where type and bits are: a NaN equals itself,
/// and the two zeros are apart.
#[derive(Debug)]
pub struct DataKey(pub Data);

impl DeepView for DataKey {
    type V = Value;

    open spec fn deep_view(&self) -> Value {
        self.0.deep_view()
    }
}

impl Clone for DataKey {
    fn clone(&self) -> (r: DataKey)
        ensures
            r.deep_view() == self.deep_view(),
    {
        DataKey(self.0.clone())
    }
}

impl vstd::std_specs::cmp::PartialEqSpecImpl for DataKey {
    open spec fn obeys_eq_spec() -> bool {
        true
    }

    open spec fn eq_spec(&self, other: &DataKey) -> bool {
        self.deep_view() == other.deep_view()
    }
}

impl PartialEq for DataKey {
    fn eq(&self, other: &DataKey) -> (r: bool) {
        match (&self.0, &other.0) {
            (Data::Int32(a), Data::Int32(b)) => *a == *b,
            (Data::Int64(a), Data::Int64(b)) => *a == *b,
            (Data::Float32(a), Data::Float32(b)) => *a == *b,
            (Data::Float64(a), Data::Float64(b)) => *a == *b,
            (Data::String(a), Data::String(b)) => *a == *b,
            _ => false,
        }
    }
}

impl Eq for DataKey {

}

/// The values of the columns that two tables are joined on.
pub type JoinKey = Vec<DataKey>;

/// The key of a row: the values at the given places.
pub open spec fn key_of(indices: Seq<usize>, row: RowModel) -> Seq<Value> {
    project_row(places_of(indices), row)
}

/// The key of a row.
pub fn make_join_key(row: &Row, indices: &Vec<usize>) -> (key: JoinKey)
    requires
        forall|k: int| 0 <= k < indices@.len() ==> (#[trigger] indices@[k] as int) < row@.len(),
    ensures
        key.deep_view() == key_of(indices@, row.deep_view()),
        key@.len() == indices@.len(),
        forall|k: int|
            0 <= k < indices@.len() ==> (#[trigger] key@[k]).deep_view()
                == row@[indices@[k] as int].deep_view(),
{
    let ghost whole = key_of(indices@, row.deep_view());
    let mut key: JoinKey = Vec::new();
    let mut i: usize = 0;
    while i < indices.len()
        invariant
            i <= indices.len(),
            forall|k: int| 0 <= k < indices@.len() ==> (#[trigger] indices@[k] as int) < row@.len(),
            whole == key_of(indices@, row.deep_view()),
            key.deep_view() == whole.take(i as int),
        decreases indices.len() - i,
    {
        let v = DataKey(row[indices[i]].clone());
        let ghost before = key.deep_view();
        key.push(v);
        i += 1;
        proof {
            assert(key.deep_view() =~= before.push(v.deep_view()));
            assert(key.deep_view() =~= whole.take(i as int));
        }
    }
    proof {
        assert(whole.take(i as int) =~= whole);
        assert(key.deep_view().len() == indices@.len());
        assert forall|k: int| 0 <= k < indices@.len() implies (#[trigger] key@[k]).deep_view()
            == row@[indices@[k] as int].deep_view() by {
            assert(key.deep_view()[k] == whole[k]);
        }
    }
    key
}

/// Whether two keys are equal.
pub fn same_key(a: &JoinKey, b: &JoinKey) -> (r: bool)
    ensures
        r == (a.deep_view() == b.deep_view()),
{
    if a.len() != b.len() {
        assert(a.deep_view().len() != b.deep_view().len());
        return false;
    }
    let mut i: usize = 0;
    while i < a.len()
        invariant
            i <= a.len(),
            a.len() == b.len(),
            forall|k: int| 0 <= k < i ==> #[trigger] a.deep_view()[k] == b.deep_view()[k],
        decreases a.len() - i,
    {
        if a[i] != b[i] {
            assert(a.deep_view()[i as int] != b.deep_view()[i as int]);
            return false;
        }
        i += 1;
    }
    assert(a.deep_view() =~= b.deep_view());
    true
}

// ── Hashing ──────────────────────────────────────────────────────────────────

/// The number by which a type is told apart in a hash.
pub open spec fn hash_tag(v: Value) -> u8 {
    match v {
        Value::Int32(_) => 0,
        Value::Int64(_) => 1,
        Value::Float32(_) => 2,
        Value::Float64(_) => 3,
        Value::Text(_) => 4,
    }
}

/// What a value adds to a hash: its tag and its bytes, and an end mark behind text.
pub open spec fn value_writes(v: Value) -> Seq<Seq<u8>> {
    match v {
        Value::Text(s) => seq![seq![hash_tag(v)], encode_utf8(s), seq![0xffu8]],
        _ => seq![seq![hash_tag(v)], value_bytes(v)],
    }
}

/// What some values add to a hash.
pub open spec fn values_writes(values: Seq<Value>) -> Seq<Seq<u8>>
    decreases values.len(),
{
    if values.len() == 0 {
        Seq::empty()
    } else {
        values_writes(values.drop_last()) + value_writes(values.last())
    }
}

/// What is hashed of a key: its length, and then its values.
pub open spec fn key_writes(key: Seq<Value>) -> Seq<Seq<u8>> {
    seq![le_bytes(key.len(), 8)] + values_writes(key)
}

/// The hash of a key.
pub open spec fn key_hash(key: Seq<Value>) -> u64 {
    DefaultHasher::spec_finish(key_writes(key))
}

/// Adds a value to a hash.
fn hash_value(val: &Data, state: &mut DefaultHasher)
    ensures
        final(state)@ == old(state)@ + value_writes(val.deep_view()),
{
    let mut bytes: Vec<u8> = Vec::new();
    let mut tag: Vec<u8> = Vec::new();
    match val {
        Data::Int32(_) => tag.push(0),
        Data::Int64(_) => tag.push(1),
        Data::Float32(_) => tag.push(2),
        Data::Float64(_) => tag.push(3),
        Data::String(_) => tag.push(4),
    }
    assert(tag@ =~= seq![hash_tag(val.deep_view())]);
    state.write(tag.as_slice());
    match val {
        Data::String(s) => {
            state.write(s.as_str().as_bytes());
            let mut end: Vec<u8> = Vec::new();
            end.push(0xff);
            assert(end@ =~= seq![0xffu8]);
            state.write(end.as_slice());
        },
        _ => {
            crate::row::encode_value(val, &mut bytes);
            assert(bytes@ =~= value_bytes(val.deep_view()));
            state.write(bytes.as_slice());
        },
    }
    proof {
        assert(final(state)@ =~= old(state)@ + value_writes(val.deep_view()));
    }
}

/// The hash of a key.
pub fn hash_key(key: &JoinKey) -> (h: u64)
    ensures
        h == key_hash(key.deep_view()),
{
    let ghost all = key.deep_view();
    let mut state = DefaultHasher::new();
    let mut len: Vec<u8> = Vec::new();
    push_le(&mut len, key.len() as u64, 8);
    assert(len@ =~= le_bytes(all.len(), 8));
    state.write(len.as_slice());
    let mut i: usize = 0;
    proof {
        assert(all.take(0) =~= Seq::<Value>::empty());
        assert(state@ =~= seq![le_bytes(all.len(), 8)] + values_writes(all.take(0)));
    }
    while i < key.len()
        invariant
            i <= key.len(),
            all == key.deep_view(),
            state@ == seq![le_bytes(all.len(), 8)] + values_writes(all.take(i as int)),
        decreases key.len() - i,
    {
        hash_value(&key[i].0, &mut state);
        i += 1;
        proof {
            assert(all.take(i as int).drop_last() =~= all.take(i - 1));
            assert(all.take(i as int).last() == all[i - 1]);
            assert(state@ =~= seq![le_bytes(all.len(), 8)] + values_writes(all.take(i as int)));
        }
    }
    proof {
        assert(all.take(i as int) =~= all);
    }
    state.finish()
}

/// The partition that a key belongs to.
pub open spec fn partition_of(key: Seq<Value>, num_partitions: nat) -> nat {
    (key_hash(key) as usize) as nat % num_partitions
}

/// The partition that a key belongs to.
pub fn hash_partition(key: &JoinKey, num_partitions: usize) -> (p: usize)
    requires
        num_partitions > 0,
    ensures
        p == partition_of(key.deep_view(), num_partitions as nat),
        p < num_partitions,
{
    (hash_key(key) as usize) % num_partitions
}

} // verus!
