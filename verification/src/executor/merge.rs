//! Merging sorted runs that lie on disk.

use vstd::multiset::Multiset;
use vstd::prelude::*;

use crate::bytes::{compare_bytes, lex, Order};
use crate::disk::{grows, reads_at_most, DiskManager, DiskModel, Request};
use crate::executor::cursor::{BlockCursor, Fill};
use crate::executor::runtraffic::{lemma_first_read, lemma_reader_asks, lemma_reader_moves,
    lemma_readers_done, readers_reads};
use crate::executor::sortkey::{all_known, encode_sort_key, sort_key};
use crate::executor::{disk_ready, step_advances, step_follows, Step};
use crate::query::{SortColumn, SortSpec};
use crate::row::{conforms, Row, RowModel, Schema, SchemaModel};

verus! {

/// The sum of some numbers.
pub open spec fn sum(s: Seq<nat>) -> nat
    decreases s.len(),
{
    if s.len() == 0 {
        0
    } else {
        sum(s.drop_last()) + s.last()
    }
}

/// Changing one number changes the sum by as much, and no number is over the sum.
pub proof fn lemma_sum_update(s: Seq<nat>, i: int, v: nat)
    requires
        0 <= i < s.len(),
    ensures
        sum(s.update(i, v)) + s[i] == sum(s) + v,
        s[i] <= sum(s),
    decreases s.len(),
{
    let t = s.update(i, v);
    if i == s.len() - 1 {
        assert(t.drop_last() =~= s.drop_last());
    } else {
        lemma_sum_update(s.drop_last(), i, v);
        assert(t.drop_last() =~= s.drop_last().update(i, v));
    }
}

pub proof fn lemma_sum_push(s: Seq<nat>, v: nat)
    ensures
        sum(s.push(v)) == sum(s) + v,
{
    assert(s.push(v).drop_last() =~= s);
}

pub proof fn lemma_sum_zero(s: Seq<nat>)
    requires
        forall|i: int| 0 <= i < s.len() ==> #[trigger] s[i] == 0,
    ensures
        sum(s) == 0,
    decreases s.len(),
{
    if s.len() > 0 {
        lemma_sum_zero(s.drop_last());
    }
}

/// The place of the least key, the first of several.
pub open spec fn least(keys: Seq<Option<Seq<u8>>>) -> Option<int>
    decreases keys.len(),
{
    if keys.len() == 0 {
        None
    } else {
        let n = keys.len() - 1;
        match (least(keys.drop_last()), keys.last()) {
            (Some(j), Some(key)) => if lex(key, keys[j]->0) == Order::Less {
                Some(n)
            } else {
                Some(j)
            },
            (Some(j), None) => Some(j),
            (None, Some(_)) => Some(n),
            (None, None) => None,
        }
    }
}

/// There is a least key where there is a key.
pub proof fn lemma_least(keys: Seq<Option<Seq<u8>>>)
    ensures
        match least(keys) {
            Some(i) => 0 <= i < keys.len() && keys[i] is Some,
            None => forall|i: int| 0 <= i < keys.len() ==> #[trigger] keys[i] is None,
        },
    decreases keys.len(),
{
    if keys.len() > 0 {
        let front = keys.drop_last();
        lemma_least(front);
        assert forall|i: int| 0 <= i < keys.len() - 1 implies #[trigger] keys[i] == front[i] by {}
    }
}

/// The number of rows in some lists.
pub open spec fn total_len(runs: Seq<Seq<RowModel>>) -> nat {
    sum(Seq::new(runs.len(), |i: int| runs[i].len()))
}

/// The key of the first row of each run.
pub open spec fn head_keys(
    cs: Seq<SortColumn>,
    schema: SchemaModel,
    runs: Seq<Seq<RowModel>>,
) -> Seq<Option<Seq<u8>>> {
    Seq::new(
        runs.len(),
        |i: int|
            if runs[i].len() == 0 {
                None
            } else {
                Some(sort_key(cs, schema, runs[i][0]))
            },
    )
}

/// The first `n` rows of the merged runs: each time the first row with the least key, of
/// the earliest run that has one.
pub open spec fn merged(
    cs: Seq<SortColumn>,
    schema: SchemaModel,
    runs: Seq<Seq<RowModel>>,
    n: nat,
) -> Seq<RowModel>
    decreases n,
{
    if n == 0 {
        Seq::empty()
    } else {
        match least(head_keys(cs, schema, runs)) {
            Some(i) => seq![runs[i][0]] + merged(
                cs,
                schema,
                runs.update(i, runs[i].drop_first()),
                (n - 1) as nat,
            ),
            None => Seq::empty(),
        }
    }
}

/// The rows of sorted runs in the order of their keys.
pub open spec fn merge_runs(
    cs: Seq<SortColumn>,
    schema: SchemaModel,
    runs: Seq<Seq<RowModel>>,
) -> Seq<RowModel> {
    merged(cs, schema, runs, total_len(runs))
}

/// The runs that the first `n` rows of the merged runs come from.
pub open spec fn picks(
    cs: Seq<SortColumn>,
    schema: SchemaModel,
    runs: Seq<Seq<RowModel>>,
    n: nat,
) -> Seq<int>
    decreases n,
{
    if n == 0 {
        Seq::empty()
    } else {
        match least(head_keys(cs, schema, runs)) {
            Some(i) => seq![i] + picks(
                cs,
                schema,
                runs.update(i, runs[i].drop_first()),
                (n - 1) as nat,
            ),
            None => Seq::empty(),
        }
    }
}

/// One row less in one run is one row less in all.
pub proof fn lemma_total_len_less(runs: Seq<Seq<RowModel>>, i: int)
    requires
        0 <= i < runs.len(),
        runs[i].len() > 0,
    ensures
        total_len(runs) > 0,
        total_len(runs.update(i, runs[i].drop_first())) == total_len(runs) - 1,
{
    let lens = Seq::new(runs.len(), |k: int| runs[k].len());
    let less = runs.update(i, runs[i].drop_first());
    lemma_sum_update(lens, i, (runs[i].len() - 1) as nat);
    assert(Seq::new(less.len(), |k: int| less[k].len()) =~= lens.update(
        i,
        (runs[i].len() - 1) as nat,
    ));
}

/// The first reader from `from` on that has to read before it can hand out a row.
pub open spec fn first_hungry(readers: Seq<BlockCursor>, from: int) -> Option<int>
    decreases readers.len() - from,
{
    if from < 0 || from >= readers.len() {
        None
    } else if readers[from].hungry() {
        Some(from)
    } else {
        first_hungry(readers, from + 1)
    }
}

/// A row handed out leaves what there is to read as it is.
proof fn lemma_same_reads(before: Seq<BlockCursor>, after: Seq<BlockCursor>, i: int)
    requires
        0 <= i < before.len(),
        after == before.update(i, after[i]),
        after[i] == (BlockCursor { at: after[i].at, ..before[i] }),
    ensures
        readers_reads(after) == readers_reads(before),
{
    lemma_reader_moves(before, i, after[i]);
    assert(readers_reads(after) =~= readers_reads(before));
}

/// A merge in progress: the readers of the runs, and the key of the next row of each
/// reader that has one at hand.
pub struct ExternalMerge {
    pub readers: Vec<BlockCursor>,
    pub keys: Vec<Vec<u8>>,
    pub schema: Schema,
}

impl ExternalMerge {
    pub open spec fn wf(&self, cs: Seq<SortColumn>) -> bool {
        let s = self.schema.deep_view();
        &&& all_known(cs, s)
        &&& self.readers@.len() == self.keys@.len()
        &&& forall|i: int|
            0 <= i < self.readers@.len() ==> {
                let r = #[trigger] self.readers@[i];
                &&& r.wf()
                &&& r.schema.deep_view() == s
                &&& r.at < r.buffer@.len() ==> self.keys@[i]@ == sort_key(
                    cs,
                    s,
                    r.buffer.deep_view()[r.at as int],
                )
            }
    }

    pub open spec fn want(&self) -> Option<(u64, u64)> {
        match first_hungry(self.readers@, 0) {
            Some(i) => self.readers@[i].want(),
            None => None,
        }
    }

    pub open spec fn placed(&self, d: DiskModel) -> bool {
        forall|i: int| 0 <= i < self.readers@.len() ==> (#[trigger] self.readers@[i]).placed(d)
    }

    /// All readers can read all their rows.
    pub open spec fn all_had(&self, d: DiskModel) -> bool {
        forall|i: int|
            0 <= i < self.readers@.len() ==> (#[trigger] self.readers@[i]).rows(d) is Some
    }

    pub open spec fn runs(&self, d: DiskModel) -> Seq<Seq<RowModel>> {
        Seq::new(self.readers@.len(), |i: int| self.readers@[i].rows(d)->0)
    }

    pub open spec fn rows(&self, cs: Seq<SortColumn>, d: DiskModel) -> Option<Seq<RowModel>> {
        if self.all_had(d) {
            Some(merge_runs(cs, self.schema.deep_view(), self.runs(d)))
        } else {
            None
        }
    }

    pub open spec fn works(&self, d: DiskModel) -> Seq<nat> {
        Seq::new(self.readers@.len(), |i: int| self.readers@[i].work(d))
    }

    pub open spec fn work(&self, d: DiskModel) -> nat {
        sum(self.works(d))
    }

    /// The reads that are still to be asked for, when the disk is free or busy with what is
    /// wanted.
    pub open spec fn reads_left(&self, disk: &DiskManager) -> Multiset<Request> {
        self.reads_when(disk.idle())
    }

    /// The reads that are still to be asked for, when the disk is free or else busy with
    /// what is wanted.
    pub open spec fn reads_when(&self, idle: bool) -> Multiset<Request> {
        let all = readers_reads(self.readers@);
        match self.want() {
            Some((first, count)) => if idle {
                all
            } else {
                all.remove(Request::Read { start: first as nat, count: count as nat })
            },
            None => all,
        }
    }

    pub proof fn lemma_grows(&self, cs: Seq<SortColumn>, d: DiskModel, d2: DiskModel)
        requires
            self.wf(cs),
            self.placed(d),
            grows(d, d2),
        ensures
            self.placed(d2),
            self.rows(cs, d2) == self.rows(cs, d),
            self.work(d2) == self.work(d),
    {
        assert forall|i: int| 0 <= i < self.readers@.len() implies {
            let r = #[trigger] self.readers@[i];
            r.placed(d2) && r.rows(d2) == r.rows(d) && r.work(d2) == r.work(d)
        } by {
            self.readers@[i].lemma_grows(d, d2);
        }
        assert(self.runs(d2) =~= self.runs(d));
        assert(self.works(d2) =~= self.works(d));
        assert(self.all_had(d2) == self.all_had(d));
    }

    /// A merge of what the readers read, none of which has read anything.
    pub fn new(readers: Vec<BlockCursor>, schema: Schema, Ghost(cs): Ghost<Seq<SortColumn>>) -> (r:
        ExternalMerge)
        requires
            all_known(cs, schema.deep_view()),
            forall|i: int|
                0 <= i < readers@.len() ==> {
                    let c = #[trigger] readers@[i];
                    &&& c.wf()
                    &&& c.schema.deep_view() == schema.deep_view()
                    &&& c.buffer@.len() == 0
                },
        ensures
            r.wf(cs),
            r.readers == readers,
            r.schema == schema,
    {
        let mut keys: Vec<Vec<u8>> = Vec::new();
        let mut i: usize = 0;
        while i < readers.len()
            invariant
                i <= readers.len(),
                keys@.len() == i,
            decreases readers.len() - i,
        {
            keys.push(Vec::new());
            i += 1;
        }
        ExternalMerge { readers, keys, schema }
    }

    /// Every run has been read and handed out to its end.
    pub open spec fn exhausted(&self) -> bool {
        forall|i: int|
            0 <= i < self.readers@.len() ==> {
                let r = #[trigger] self.readers@[i];
                r.at >= r.buffer@.len() && r.blocks_read == r.total
            }
    }

    /// The keys at hand.
    pub open spec fn current_keys(&self) -> Seq<Option<Seq<u8>>> {
        Seq::new(
            self.readers@.len(),
            |i: int|
                if self.readers@[i].at < self.readers@[i].buffer@.len() {
                    Some(self.keys@[i]@)
                } else {
                    None
                },
        )
    }

    /// The reader to read next, if any has to.
    fn find_hungry(&self) -> (r: Option<usize>)
        ensures
            match r {
                Some(i) => {
                    &&& i < self.readers@.len()
                    &&& first_hungry(self.readers@, 0) == Some(i as int)
                    &&& self.readers@[i as int].hungry()
                },
                None => {
                    &&& first_hungry(self.readers@, 0) is None
                    &&& forall|k: int|
                        0 <= k < self.readers@.len() ==> !(#[trigger] self.readers@[k]).hungry()
                },
            },
    {
        let mut i: usize = 0;
        while i < self.readers.len()
            invariant
                i <= self.readers.len(),
                first_hungry(self.readers@, 0) == first_hungry(self.readers@, i as int),
                forall|k: int| 0 <= k < i ==> !(#[trigger] self.readers@[k]).hungry(),
            decreases self.readers.len() - i,
        {
            if !self.readers[i].has_row() && self.readers[i].has_blocks() {
                return Some(i);
            }
            i += 1;
        }
        None
    }

    /// The reader whose next row has the least key.
    fn find_least(&self) -> (r: Option<usize>)
        requires
            self.readers@.len() == self.keys@.len(),
        ensures
            match r {
                Some(i) => least(self.current_keys()) == Some(i as int),
                None => least(self.current_keys()) is None,
            },
    {
        let ghost all = self.current_keys();
        let mut best: Option<usize> = None;
        let mut i: usize = 0;
        proof {
            assert(all.take(0) =~= Seq::<Option<Seq<u8>>>::empty());
        }
        while i < self.readers.len()
            invariant
                i <= self.readers.len(),
                self.readers@.len() == self.keys@.len(),
                all == self.current_keys(),
                match best {
                    Some(j) => j < i && least(all.take(i as int)) == Some(j as int),
                    None => least(all.take(i as int)) is None,
                },
            decreases self.readers.len() - i,
        {
            proof {
                let front = all.take(i + 1);
                assert(front.drop_last() =~= all.take(i as int));
                assert(front.last() == all[i as int]);
                lemma_least(all.take(i as int));
            }
            if self.readers[i].has_row() {
                best = match best {
                    Some(j) => match compare_bytes(
                        self.keys[i].as_slice(),
                        self.keys[j].as_slice(),
                    ) {
                        Order::Less => Some(i),
                        _ => Some(j),
                    },
                    None => Some(i),
                };
            }
            i += 1;
        }
        proof {
            assert(all.take(i as int) =~= all);
        }
        best
    }

    /// Makes the key of the next row of a reader that has one.
    fn renew_key(&mut self, i: usize, specs: &Vec<SortSpec>)
        requires
            i < old(self).readers@.len(),
            old(self).readers@.len() == old(self).keys@.len(),
            all_known(specs.deep_view(), old(self).schema.deep_view()),
            old(self).readers@[i as int].wf(),
            old(self).readers@[i as int].schema.deep_view() == old(self).schema.deep_view(),
        ensures
            final(self).readers == old(self).readers,
            final(self).schema == old(self).schema,
            final(self).keys@.len() == old(self).keys@.len(),
            forall|k: int|
                0 <= k < old(self).keys@.len() && k != i ==> #[trigger] final(self).keys@[k]
                    == old(self).keys@[k],
            ({
                let r = old(self).readers@[i as int];
                r.at < r.buffer@.len() ==> final(self).keys@[i as int]@ == sort_key(
                    specs.deep_view(),
                    old(self).schema.deep_view(),
                    r.buffer.deep_view()[r.at as int],
                )
            }),
    {
        if self.readers[i].has_row() {
            let reader = &self.readers[i];
            let row = &reader.buffer[reader.at];
            assert(row.deep_view() == reader.buffer.deep_view()[reader.at as int]);
            assert(conforms(reader.buffer.deep_view()[reader.at as int], self.schema.deep_view()));
            let key = encode_sort_key(row, specs, &self.schema);
            self.keys.set(i, key);
        }
    }

    proof fn lemma_no_keys(&self, d: DiskModel)
        requires
            least(self.current_keys()) is None,
            forall|k: int| 0 <= k < self.readers@.len() ==> (#[trigger] self.readers@[k]).wf(),
            forall|k: int|
                0 <= k < self.readers@.len() ==> !(#[trigger] self.readers@[k]).hungry(),
        ensures
            self.all_had(d),
            total_len(self.runs(d)) == 0,
    {
        lemma_least(self.current_keys());
        assert forall|k: int| 0 <= k < self.readers@.len() implies (
        #[trigger] self.readers@[k]).rows(d) == Some(Seq::<RowModel>::empty()) by {
            let r = self.readers@[k];
            assert(self.current_keys()[k] is None);
            assert(r.at == r.buffer@.len() && r.blocks_read == r.total);
            assert(r.rows(d)->0 =~= Seq::<RowModel>::empty());
        }
        lemma_sum_zero(Seq::new(self.runs(d).len(), |i: int| self.runs(d)[i].len()));
    }

    proof fn lemma_keys_are_heads(&self, cs: Seq<SortColumn>, d: DiskModel)
        requires
            self.wf(cs),
            self.all_had(d),
            forall|k: int|
                0 <= k < self.readers@.len() ==> !(#[trigger] self.readers@[k]).hungry(),
        ensures
            self.current_keys() == head_keys(cs, self.schema.deep_view(), self.runs(d)),
    {
        let runs = self.runs(d);
        assert forall|k: int| 0 <= k < self.readers@.len() implies #[trigger] self.current_keys()[k]
            == head_keys(cs, self.schema.deep_view(), runs)[k] by {
            let r = self.readers@[k];
            assert(r.wf());
            assert(!r.hungry());
            assert(r.rows(d) is Some);
            if r.at < r.buffer@.len() {
                assert(runs[k][0] == r.buffer.deep_view()[r.at as int]);
            } else {
                assert(runs[k] =~= Seq::<RowModel>::empty());
            }
        }
        assert(self.current_keys() =~= head_keys(cs, self.schema.deep_view(), runs));
    }

    /// Filling a reader, or asking for what fills it, changes nothing of what has been asked
    /// for together with what is still to be asked for.
    proof fn lemma_read_counted(
        &self,
        before: ExternalMerge,
        i: int,
        old_disk: DiskManager,
        disk: DiskManager,
        filled: Fill,
    )
        requires
            first_hungry(before.readers@, 0) == Some(i),
            0 <= i < before.readers@.len(),
            before.readers@[i].wf(),
            before.readers@[i].hungry(),
            self.readers@ == before.readers@.update(i, self.readers@[i]),
            disk_ready(&old_disk, before.want()),
            ({
                let (was, now) = (before.readers@[i], self.readers@[i]);
                &&& now.start == was.start
                &&& now.total == was.total
                &&& now.batch == was.batch
                &&& filled is Pending ==> now == was && !disk.idle()
                &&& filled is Ready ==> disk.idle() && now.blocks_read == was.blocks_read
                    + was.bite()
                &&& disk.world@.requests == if old_disk.idle() {
                    old_disk.world@.requests.push(
                        (Request::Read {
                            start: (was.start + was.blocks_read) as nat,
                            count: was.bite() as nat,
                        }),
                    )
                } else {
                    old_disk.world@.requests
                }
            }),
        ensures
            !(filled is Failed) ==> disk.world@.requests.to_multiset().add(self.reads_left(&disk))
                == old_disk.world@.requests.to_multiset().add(before.reads_left(&old_disk)),
    {
        broadcast use vstd::seq_lib::group_to_multiset_ensures;

        let (was, now) = (before.readers@[i], self.readers@[i]);
        let read = Request::Read {
            start: (was.start + was.blocks_read) as nat,
            count: was.bite() as nat,
        };
        let all = readers_reads(before.readers@);
        lemma_reader_asks(before.readers@, i);
        lemma_reader_moves(before.readers@, i, now);
        lemma_first_read(
            was.start as nat,
            was.total as nat,
            was.blocks_read as nat,
            was.batch as nat,
        );
        if filled is Pending {
            assert(self.readers@ =~= before.readers@);
        }
        if filled is Ready {
            assert(self.reads_left(&disk) == readers_reads(self.readers@));
            assert(readers_reads(self.readers@) =~= all.remove(read));
        }
        if !(filled is Failed) {
            assert(disk.world@.requests.to_multiset().add(self.reads_left(&disk))
                =~= old_disk.world@.requests.to_multiset().add(before.reads_left(&old_disk)));
        }
    }

    /// Makes one step.
    #[verifier::rlimit(60)]
    pub fn next_row(&mut self, specs: &Vec<SortSpec>, disk: &mut DiskManager) -> (s: Step)
        requires
            old(self).wf(specs.deep_view()),
            old(disk).wf(),
            disk_ready(old(disk), old(self).want()),
        ensures
            final(self).wf(specs.deep_view()),
            final(disk).wf(),
            final(disk).follows(old(disk)),
            final(disk)@ == old(disk)@,
            reads_at_most(old(disk), final(disk)),
            final(self).schema == old(self).schema,
            !(s is Failed) ==> disk_ready(final(disk), final(self).want()),
            s is Row || s is Done ==> final(disk).idle(),
            s is Done <==> old(self).exhausted(),
            final(self).readers@.len() == old(self).readers@.len(),
            forall|i: int|
                0 <= i < old(self).readers@.len() ==> (#[trigger] final(self).readers@[i]).batch
                    == old(self).readers@[i].batch,
            s is Done ==> *final(self) == *old(self) && *final(disk) == *old(disk),
            s is Done ==> final(self).reads_left(final(disk)) == Multiset::<Request>::empty(),
            !(s is Failed) ==> final(disk).world@.requests.to_multiset().add(
                final(self).reads_left(final(disk)),
            ) == old(disk).world@.requests.to_multiset().add(old(self).reads_left(old(disk))),
            s matches Step::Row(r) ==> conforms(r.deep_view(), old(self).schema.deep_view()),
            old(disk)@.healthy && old(self).placed(old(disk)@) ==> {
                &&& final(self).placed(old(disk)@)
                &&& step_follows(
                    old(self).rows(specs.deep_view(), old(disk)@),
                    final(self).rows(specs.deep_view(), old(disk)@),
                    s,
                )
                &&& old(self).rows(specs.deep_view(), old(disk)@) is Some && !(s is Done)
                    ==> step_advances(
                    old(self).work(old(disk)@),
                    final(self).work(old(disk)@),
                    old(disk),
                    final(disk),
                )
            },
    {
        let ghost cs = specs.deep_view();
        let ghost d = disk@;
        let ghost before = *self;
        match self.find_hungry() {
            Some(i) => {
                let filled = self.readers[i].fill(disk);
                proof {
                    assert(before.readers@[i as int].wf());
                    assert(forall|k: int|
                        0 <= k < self.readers@.len() && k != i ==> #[trigger] self.readers@[k]
                            == before.readers@[k]);
                    self.lemma_read_counted(before, i as int, *old(disk), *disk, filled);
                }
                match filled {
                    Fill::Ready => {
                        self.renew_key(i, specs);
                        proof {
                            if d.healthy {
                                assert forall|k: int| 0 <= k < self.readers@.len() implies (
                                #[trigger] self.readers@[k]).rows(d) == before.readers@[k].rows(
                                    d,
                                ) by {}
                                assert(self.runs(d) =~= before.runs(d));
                                if before.all_had(d) {
                                    assert(self.all_had(d));
                                    lemma_sum_update(
                                        before.works(d),
                                        i as int,
                                        self.readers@[i as int].work(d),
                                    );
                                    assert(self.works(d) =~= before.works(d).update(
                                        i as int,
                                        self.readers@[i as int].work(d),
                                    ));
                                    assert(before.readers@[i as int].rows(d) is Some);
                                } else {
                                    let k = choose|k: int|
                                        0 <= k < before.readers@.len() && !((
                                        #[trigger] before.readers@[k]).rows(d) is Some);
                                    assert(self.readers@[k].rows(d) is None);
                                }
                            }
                        }
                        Step::Pending
                    },
                    Fill::Pending => {
                        proof {
                            assert(self.readers@ =~= before.readers@);
                        }
                        Step::Pending
                    },
                    Fill::Failed => {
                        self.renew_key(i, specs);
                        Step::Failed
                    },
                }
            },
            None => match self.find_least() {
                Some(i) => {
                    proof {
                        lemma_least(self.current_keys());
                        assert(self.readers@[i as int].wf());
                    }
                    let row = self.readers[i].take();
                    proof {
                        assert(self.readers@ =~= before.readers@.update(
                            i as int,
                            self.readers@[i as int],
                        ));
                        lemma_same_reads(before.readers@, self.readers@, i as int);
                        assert(forall|k: int|
                            0 <= k < self.readers@.len() && k != i ==> #[trigger] self.readers@[k]
                                == before.readers@[k]);
                    }
                    self.renew_key(i, specs);
                    proof {
                        let now = self.readers@[i as int];
                        let was = before.readers@[i as int];
                        assert(now.rows(d) is Some <==> was.rows(d) is Some);
                        if before.all_had(d) {
                            before.lemma_keys_are_heads(cs, d);
                            assert(was.rows(d) is Some);
                            assert forall|k: int| 0 <= k < self.readers@.len() implies (
                            #[trigger] self.readers@[k]).rows(d) is Some by {
                                if k != i {
                                    assert(before.readers@[k].rows(d) is Some);
                                }
                            }
                            let runs = before.runs(d);
                            assert(self.runs(d) =~= runs.update(
                                i as int,
                                runs[i as int].drop_first(),
                            ));
                            lemma_total_len_less(runs, i as int);
                            let rest = merge_runs(cs, self.schema.deep_view(), self.runs(d));
                            let all = merge_runs(cs, self.schema.deep_view(), runs);
                            assert(all == seq![runs[i as int][0]] + rest);
                            assert(all.drop_first() =~= rest);
                            lemma_sum_update(before.works(d), i as int, now.work(d));
                            assert(self.works(d) =~= before.works(d).update(
                                i as int,
                                now.work(d),
                            ));
                        } else {
                            let k = choose|k: int|
                                0 <= k < before.readers@.len() && !((
                                #[trigger] before.readers@[k]).rows(d) is Some);
                            assert(self.readers@[k].rows(d) is None);
                        }
                    }
                    Step::Row(row)
                },
                None => {
                    proof {
                        self.lemma_no_keys(d);
                        lemma_least(self.current_keys());
                        assert forall|k: int| 0 <= k < self.readers@.len() implies {
                            let r = #[trigger] self.readers@[k];
                            r.at >= r.buffer@.len() && r.blocks_read == r.total
                        } by {
                            assert(self.current_keys()[k] is None);
                            assert(self.readers@[k].wf());
                        }
                        lemma_readers_done(self.readers@);
                    }
                    Step::Done
                },
            },
        }
    }
}

} // verus!
