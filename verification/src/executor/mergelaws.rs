//! What sorting with runs on disk promises: the same rows, in order.

use vstd::multiset::Multiset;
use vstd::prelude::*;

use crate::block::all_fit;
use crate::bytes::{lemma_lex_flip, lemma_lex_transitive, lex, Order};
use crate::data::{is_nan, value_order};
use crate::executor::keylaws::{lemma_front_is_faithful, lemma_key_splits, zeros_agree};
use crate::executor::merge::{head_keys, least, lemma_least, lemma_sum_update, lemma_sum_zero,
    lemma_total_len_less, merge_runs, picks, total_len};
use crate::executor::order::{lemma_sort_permutes, sort_rows};
use crate::executor::sorter::{cut_runs, fills_run, none_filled, sort_result, sorted_from,
    sorted_run, sorted_runs, stays_in_memory};
use crate::executor::sortkey::all_known;
use crate::executor::sortlaws::{all_orderly, in_order, lemma_put_first, lemma_rest_in_order,
    lemma_row_order_flip, lemma_row_order_transitive, lemma_sort_sorts, may_precede, orderly,
    precedes_all};
use crate::query::SortColumn;
use crate::row::{column_of, row_bytes, RowModel, SchemaModel};

verus! {

/// The rows of some runs, without their order.
pub open spec fn bag(runs: Seq<Seq<RowModel>>) -> Multiset<RowModel>
    decreases runs.len(),
{
    if runs.len() == 0 {
        Multiset::empty()
    } else {
        bag(runs.drop_last()).add(runs.last().to_multiset())
    }
}

pub proof fn lemma_bag_less(runs: Seq<Seq<RowModel>>, i: int)
    requires
        0 <= i < runs.len(),
        runs[i].len() > 0,
    ensures
        bag(runs) == bag(runs.update(i, runs[i].drop_first())).insert(runs[i][0]),
    decreases runs.len(),
{
    broadcast use vstd::seq_lib::group_to_multiset_ensures;

    let less = runs.update(i, runs[i].drop_first());
    let x = runs[i][0];
    if i == runs.len() - 1 {
        assert(less.drop_last() =~= runs.drop_last());
        let rest = runs[i].drop_first();
        assert(runs[i] =~= seq![x] + rest);
        vstd::seq_lib::lemma_multiset_commutative(seq![x], rest);
        assert(seq![x].to_multiset() =~= Multiset::singleton(x)) by {
            assert(seq![x] =~= Seq::<RowModel>::empty().push(x));
        }
        assert(bag(runs) =~= bag(less).insert(x));
    } else {
        lemma_bag_less(runs.drop_last(), i);
        assert(less.drop_last() =~= runs.drop_last().update(i, runs[i].drop_first()));
        assert(bag(runs) =~= bag(less).insert(x));
    }
}

proof fn lemma_bag_empty(runs: Seq<Seq<RowModel>>)
    requires
        forall|i: int| 0 <= i < runs.len() ==> (#[trigger] runs[i]).len() == 0,
    ensures
        bag(runs) == Multiset::<RowModel>::empty(),
    decreases runs.len(),
{
    broadcast use vstd::seq_lib::group_to_multiset_ensures;

    if runs.len() > 0 {
        lemma_bag_empty(runs.drop_last());
        assert(runs[runs.len() - 1].len() == 0);
        assert(runs.last() =~= Seq::<RowModel>::empty());
        assert(bag(runs) =~= Multiset::<RowModel>::empty());
    }
}

pub proof fn lemma_total_len_zero(runs: Seq<Seq<RowModel>>)
    requires
        total_len(runs) == 0,
    ensures
        forall|i: int| 0 <= i < runs.len() ==> (#[trigger] runs[i]).len() == 0,
{
    let lens = Seq::new(runs.len(), |k: int| runs[k].len());
    assert forall|i: int| 0 <= i < runs.len() implies (#[trigger] runs[i]).len() == 0 by {
        lemma_sum_update(lens, i, 0);
        assert(lens[i] == runs[i].len());
    }
}

/// Merging runs loses no row and adds none.
pub proof fn lemma_runs_permute(cs: Seq<SortColumn>, schema: SchemaModel, runs: Seq<Seq<RowModel>>)
    ensures
        merge_runs(cs, schema, runs).to_multiset() == bag(runs),
    decreases total_len(runs),
{
    broadcast use vstd::seq_lib::group_to_multiset_ensures;

    let n = total_len(runs);
    let out = merge_runs(cs, schema, runs);
    let heads = head_keys(cs, schema, runs);
    lemma_least(heads);
    if n == 0 {
        lemma_total_len_zero(runs);
        lemma_bag_empty(runs);
        assert(out.to_multiset() =~= Multiset::<RowModel>::empty());
    } else {
        match least(heads) {
            Some(i) => {
                let x = runs[i][0];
                let less = runs.update(i, runs[i].drop_first());
                lemma_total_len_less(runs, i);
                lemma_runs_permute(cs, schema, less);
                lemma_bag_less(runs, i);
                let rest = merge_runs(cs, schema, less);
                assert(out == seq![x] + rest);
                vstd::seq_lib::lemma_multiset_commutative(seq![x], rest);
                assert(seq![x].to_multiset() =~= Multiset::singleton(x)) by {
                    assert(seq![x] =~= Seq::<RowModel>::empty().push(x));
                }
                assert(out.to_multiset() =~= bag(runs));
            },
            None => {
                assert forall|i: int| 0 <= i < runs.len() implies (#[trigger] runs[i]).len()
                    == 0 by {
                    assert(heads[i] is None);
                }
                lemma_sum_zero(
                    Seq::new(runs.len(), |k: int| runs[k].len()),
                );
            },
        }
    }
}

/// No key is less than the least.
pub proof fn lemma_least_is_least(keys: Seq<Option<Seq<u8>>>)
    ensures
        least(keys) matches Some(i) ==> forall|k: int|
            0 <= k < keys.len() && #[trigger] keys[k] is Some ==> lex(keys[i]->0, keys[k]->0)
                != Order::Greater,
    decreases keys.len(),
{
    if keys.len() > 0 {
        let front = keys.drop_last();
        lemma_least_is_least(front);
        lemma_least(front);
        assert forall|k: int| 0 <= k < front.len() implies #[trigger] keys[k] == front[k] by {}
        if let Some(i) = least(keys) {
            assert forall|k: int| 0 <= k < keys.len() && #[trigger] keys[k] is Some implies lex(
                keys[i]->0,
                keys[k]->0,
            ) != Order::Greater by {
                lemma_lex_flip(keys[i]->0, keys[k]->0);
                if let (Some(j), Some(key)) = (least(front), keys.last()) {
                    lemma_lex_flip(key, keys[j]->0);
                    if k < front.len() {
                        assert(lex(front[j]->0, front[k]->0) != Order::Greater);
                        if i == keys.len() - 1 {
                            lemma_lex_transitive(key, keys[j]->0, keys[k]->0);
                        }
                    }
                }
            }
        }
    }
}

/// No two rows hold different zeros in the same sort column, the last one apart.
pub open spec fn all_zeros_agree(
    cs: Seq<SortColumn>,
    schema: SchemaModel,
    rows: Multiset<RowModel>,
) -> bool {
    forall|a: RowModel, b: RowModel|
        #![trigger rows.count(a), rows.count(b)]
        rows.count(a) > 0 && rows.count(b) > 0 ==> zeros_agree(cs, schema, a, b)
}

pub open spec fn runs_in_order(
    cs: Seq<SortColumn>,
    schema: SchemaModel,
    runs: Seq<Seq<RowModel>>,
) -> bool {
    forall|i: int|
        0 <= i < runs.len() ==> {
            let run = #[trigger] runs[i];
            in_order(cs, schema, run) && all_orderly(cs, schema, run)
        }
}

/// A row that precedes all rows of all runs.
pub open spec fn precedes_runs(
    cs: Seq<SortColumn>,
    schema: SchemaModel,
    x: RowModel,
    runs: Seq<Seq<RowModel>>,
) -> bool {
    forall|i: int| 0 <= i < runs.len() ==> precedes_all(cs, schema, x, #[trigger] runs[i])
}

pub proof fn lemma_in_bag(runs: Seq<Seq<RowModel>>, i: int, k: int)
    requires
        0 <= i < runs.len(),
        0 <= k < runs[i].len(),
    ensures
        bag(runs).count(runs[i][k]) > 0,
    decreases runs.len(),
{
    broadcast use vstd::seq_lib::group_to_multiset_ensures;

    if i == runs.len() - 1 {
        assert(runs[i].contains(runs[i][k]));
    } else {
        lemma_in_bag(runs.drop_last(), i, k);
    }
}

/// Merging runs that are in the order of the first sort columns gives the rows in that order.
pub proof fn lemma_runs_sort_front(
    all: Seq<SortColumn>,
    n: int,
    schema: SchemaModel,
    runs: Seq<Seq<RowModel>>,
)
    requires
        0 <= n <= all.len(),
        all_known(all.take(n), schema),
        runs_in_order(all.take(n), schema, runs),
        all_zeros_agree(all.take(n), schema, bag(runs)),
    ensures
        in_order(all.take(n), schema, merge_runs(all, schema, runs)),
        forall|x: RowModel|
            #![trigger precedes_all(all.take(n), schema, x, merge_runs(all, schema, runs))]
            precedes_runs(all.take(n), schema, x, runs) ==> precedes_all(
                all.take(n),
                schema,
                x,
                merge_runs(all, schema, runs),
            ),
    decreases total_len(runs),
{
    let cs = all.take(n);
    let heads = head_keys(all, schema, runs);
    let out = merge_runs(all, schema, runs);
    lemma_least(heads);
    lemma_least_is_least(heads);
    if total_len(runs) > 0 {
        if let Some(i) = least(heads) {
            let x = runs[i][0];
            let less = runs.update(i, runs[i].drop_first());
            lemma_total_len_less(runs, i);
            lemma_bag_less(runs, i);
            assert(in_order(cs, schema, runs[i]) && all_orderly(cs, schema, runs[i]));
            lemma_rest_in_order(cs, schema, runs[i]);
            assert(orderly(cs, schema, x));
            lemma_row_order_flip(cs, schema, x, x);
            assert forall|j: int| 0 <= j < less.len() implies {
                let run = #[trigger] less[j];
                in_order(cs, schema, run) && all_orderly(cs, schema, run)
            } by {
                assert(in_order(cs, schema, runs[j]));
            }
            assert forall|a: RowModel, b: RowModel|
                #![trigger bag(less).count(a), bag(less).count(b)]
                bag(less).count(a) > 0 && bag(less).count(b) > 0 implies zeros_agree(
                cs,
                schema,
                a,
                b,
            ) by {
                assert(bag(runs).count(a) > 0 && bag(runs).count(b) > 0);
            }
            lemma_runs_sort_front(all, n, schema, less);
            let rest = merge_runs(all, schema, less);
            assert(out == seq![x] + rest);
            assert(precedes_runs(cs, schema, x, less)) by {
                assert forall|j: int| 0 <= j < less.len() implies precedes_all(
                    cs,
                    schema,
                    x,
                    #[trigger] less[j],
                ) by {
                    if j != i && runs[j].len() > 0 {
                        let y = runs[j][0];
                        assert(in_order(cs, schema, runs[j]) && all_orderly(cs, schema, runs[j]));
                        assert(orderly(cs, schema, y));
                        lemma_in_bag(runs, i, 0);
                        lemma_in_bag(runs, j, 0);
                        assert(zeros_agree(cs, schema, x, y));
                        let p = lemma_key_splits(all, schema, x, n);
                        let q = lemma_key_splits(all, schema, y, n);
                        lemma_front_is_faithful(cs, schema, x, y, p, q);
                        assert(heads[j] is Some);
                        assert(may_precede(cs, schema, x, y));
                        assert forall|k: int| 0 <= k < runs[j].len() implies may_precede(
                            cs,
                            schema,
                            x,
                            #[trigger] runs[j][k],
                        ) by {
                            if k > 0 {
                                assert(may_precede(cs, schema, runs[j][0], runs[j][k]));
                                assert(orderly(cs, schema, runs[j][k]));
                                lemma_row_order_transitive(cs, schema, x, y, runs[j][k]);
                            }
                        }
                    }
                }
            }
            assert(precedes_all(cs, schema, x, rest));
            lemma_put_first(cs, schema, x, rest);
            assert forall|z: RowModel|
                #![trigger precedes_all(cs, schema, z, out)]
                precedes_runs(cs, schema, z, runs) implies precedes_all(cs, schema, z, out) by {
                assert(precedes_all(cs, schema, z, runs[i]));
                assert(may_precede(cs, schema, z, runs[i][0]));
                assert(precedes_runs(cs, schema, z, less)) by {
                    assert forall|j: int| 0 <= j < less.len() implies precedes_all(
                        cs,
                        schema,
                        z,
                        #[trigger] less[j],
                    ) by {
                        assert(precedes_all(cs, schema, z, runs[j]));
                        if j == i {
                            assert forall|k: int| 0 <= k < less[j].len() implies may_precede(
                                cs,
                                schema,
                                z,
                                #[trigger] less[j][k],
                            ) by {
                                assert(less[j][k] == runs[j][k + 1]);
                            }
                        }
                    }
                }
                assert(precedes_all(cs, schema, z, rest));
                assert forall|k: int| 0 <= k < out.len() implies may_precede(
                    cs,
                    schema,
                    z,
                    #[trigger] out[k],
                ) by {
                    if k > 0 {
                        assert(out[k] == rest[k - 1]);
                    }
                }
            }
        }
    }
}

/// Merging runs that are in order gives the rows in order.
pub proof fn lemma_runs_sort(cs: Seq<SortColumn>, schema: SchemaModel, runs: Seq<Seq<RowModel>>)
    requires
        all_known(cs, schema),
        runs_in_order(cs, schema, runs),
        all_zeros_agree(cs, schema, bag(runs)),
    ensures
        in_order(cs, schema, merge_runs(cs, schema, runs)),
        forall|x: RowModel|
            #![trigger precedes_all(cs, schema, x, merge_runs(cs, schema, runs))]
            precedes_runs(cs, schema, x, runs) ==> precedes_all(
                cs,
                schema,
                x,
                merge_runs(cs, schema, runs),
            ),
{
    assert(cs.take(cs.len() as int) =~= cs);
    lemma_runs_sort_front(cs, cs.len() as int, schema, runs);
}

/// Of some rows those that come from a run, in their order. `from` tells which run each
/// comes from.
pub open spec fn taken_from(rows: Seq<RowModel>, from: Seq<int>, run: int) -> Seq<RowModel>
    decreases rows.len(),
{
    if rows.len() == 0 || from.len() == 0 {
        Seq::empty()
    } else {
        let rest = taken_from(rows.drop_first(), from.drop_first(), run);
        if from[0] == run {
            seq![rows[0]] + rest
        } else {
            rest
        }
    }
}

/// The rows of one run keep their order.
proof fn lemma_runs_keep_order(
    cs: Seq<SortColumn>,
    schema: SchemaModel,
    runs: Seq<Seq<RowModel>>,
    run: int,
)
    requires
        0 <= run < runs.len(),
    ensures
        picks(cs, schema, runs, total_len(runs)).len() == merge_runs(cs, schema, runs).len(),
        taken_from(
            merge_runs(cs, schema, runs),
            picks(cs, schema, runs, total_len(runs)),
            run,
        ) == runs[run],
    decreases total_len(runs),
{
    let n = total_len(runs);
    let heads = head_keys(cs, schema, runs);
    lemma_least(heads);
    if n == 0 {
        lemma_total_len_zero(runs);
        assert(runs[run].len() == 0);
        assert(runs[run] =~= Seq::<RowModel>::empty());
    } else {
        match least(heads) {
            Some(i) => {
                let less = runs.update(i, runs[i].drop_first());
                lemma_total_len_less(runs, i);
                lemma_runs_keep_order(cs, schema, less, run);
                let (out, from) = (merge_runs(cs, schema, runs), picks(cs, schema, runs, n));
                let rest = merge_runs(cs, schema, less);
                let rest_from = picks(cs, schema, less, total_len(less));
                assert(out == seq![runs[i][0]] + rest);
                assert(from == seq![i] + rest_from);
                assert(out.drop_first() =~= rest);
                assert(from.drop_first() =~= rest_from);
                if i == run {
                    assert(seq![runs[i][0]] + runs[i].drop_first() =~= runs[i]);
                }
            },
            None => {
                assert forall|k: int| 0 <= k < runs.len() implies (#[trigger] runs[k]).len()
                    == 0 by {
                    assert(heads[k] is None);
                }
                lemma_sum_zero(Seq::new(runs.len(), |k: int| runs[k].len()));
            },
        }
    }
}

/// Merging runs that are each in order gives the rows of all runs, in order, and the rows of
/// each run in the order they have in it. Left out are rows that hold the two zeros of a
/// float in a sort column that is not the last.
pub proof fn lemma_merge_law(cs: Seq<SortColumn>, schema: SchemaModel, runs: Seq<Seq<RowModel>>)
    requires
        all_known(cs, schema),
        runs_in_order(cs, schema, runs),
        all_zeros_agree(cs, schema, bag(runs)),
    ensures
        ({
            let out = merge_runs(cs, schema, runs);
            let from = picks(cs, schema, runs, total_len(runs));
            &&& out.to_multiset() == bag(runs)
            &&& in_order(cs, schema, out)
            &&& forall|run: int|
                0 <= run < runs.len() ==> #[trigger] taken_from(out, from, run) == runs[run]
        }),
{
    lemma_runs_permute(cs, schema, runs);
    lemma_runs_sort(cs, schema, runs);
    assert forall|run: int| 0 <= run < runs.len() implies #[trigger] taken_from(
        merge_runs(cs, schema, runs),
        picks(cs, schema, runs, total_len(runs)),
        run,
    ) == runs[run] by {
        lemma_runs_keep_order(cs, schema, runs, run);
    }
}

// ── From rows to runs and back ───────────────────────────────────────────────

proof fn lemma_bag_front(run: Seq<RowModel>, runs: Seq<Seq<RowModel>>)
    ensures
        bag(seq![run] + runs) == run.to_multiset().add(bag(runs)),
    decreases runs.len(),
{
    let all = seq![run] + runs;
    if runs.len() == 0 {
        assert(all.drop_last() =~= runs);
        assert(all.last() == run);
        assert(bag(all) =~= run.to_multiset().add(bag(runs)));
    } else {
        lemma_bag_front(run, runs.drop_last());
        assert(all.drop_last() =~= seq![run] + runs.drop_last());
        assert(bag(all) =~= run.to_multiset().add(bag(runs)));
    }
}

/// The runs are the rows.
pub proof fn lemma_cut_runs(open: Seq<RowModel>, rest: Seq<RowModel>)
    ensures
        bag(cut_runs(open, rest)) == (open + rest).to_multiset(),
    decreases rest.len(),
{
    broadcast use vstd::seq_lib::group_to_multiset_ensures;

    if rest.len() == 0 {
        assert(open + rest =~= open);
        if open.len() == 0 {
            assert(open =~= Seq::<RowModel>::empty());
            assert(bag(cut_runs(open, rest)) =~= (open + rest).to_multiset());
        } else {
            lemma_bag_front(open, Seq::empty());
            assert(seq![open] + Seq::<Seq<RowModel>>::empty() =~= seq![open]);
            assert(bag(cut_runs(open, rest)) =~= (open + rest).to_multiset());
        }
    } else {
        let more = open.push(rest[0]);
        let tail = rest.drop_first();
        assert(open + rest =~= more + tail);
        if fills_run(more) {
            lemma_cut_runs(Seq::empty(), tail);
            assert(Seq::<RowModel>::empty() + tail =~= tail);
            lemma_bag_front(more, cut_runs(Seq::empty(), tail));
            vstd::seq_lib::lemma_multiset_commutative(more, tail);
        } else {
            lemma_cut_runs(more, tail);
        }
    }
}

/// Sorting each run keeps its rows.
pub proof fn lemma_sorted_runs_permute(
    cs: Seq<SortColumn>,
    schema: SchemaModel,
    block_size: nat,
    runs: Seq<Seq<RowModel>>,
)
    requires
        sorted_runs(cs, schema, block_size, runs) is Some,
    ensures
        bag(sorted_runs(cs, schema, block_size, runs)->0) == bag(runs),
    decreases runs.len(),
{
    if runs.len() > 0 {
        let run = sorted_run(cs, schema, block_size, runs[0])->0;
        let rest = sorted_runs(cs, schema, block_size, runs.drop_first())->0;
        lemma_sorted_runs_permute(cs, schema, block_size, runs.drop_first());
        lemma_sort_permutes(cs, schema, runs[0]);
        lemma_bag_front(run, rest);
        lemma_bag_front(runs[0], runs.drop_first());
        assert(runs =~= seq![runs[0]] + runs.drop_first());
    }
}

/// Where every row is orderly and fits in a block, every run can be sorted.
pub proof fn lemma_sorted_runs_sort(
    cs: Seq<SortColumn>,
    schema: SchemaModel,
    block_size: nat,
    runs: Seq<Seq<RowModel>>,
)
    requires
        all_known(cs, schema),
        forall|i: int|
            0 <= i < runs.len() ==> {
                let run = #[trigger] runs[i];
                all_orderly(cs, schema, run) && all_fit(run, block_size)
            },
    ensures
        sorted_runs(cs, schema, block_size, runs) is Some,
        runs_in_order(cs, schema, sorted_runs(cs, schema, block_size, runs)->0),
    decreases runs.len(),
{
    if runs.len() > 0 {
        let tail = runs.drop_first();
        assert forall|i: int| 0 <= i < tail.len() implies {
            let run = #[trigger] tail[i];
            all_orderly(cs, schema, run) && all_fit(run, block_size)
        } by {
            assert(tail[i] == runs[i + 1]);
        }
        lemma_sorted_runs_sort(cs, schema, block_size, tail);
        let first = runs[0];
        assert(all_orderly(cs, schema, first) && all_fit(first, block_size));
        lemma_sort_sorts(cs, schema, first);
        let out = sort_rows(cs, schema, first)->0;
        lemma_permuted_fit(first, out, block_size);
        let all = sorted_runs(cs, schema, block_size, runs)->0;
        let rest = sorted_runs(cs, schema, block_size, tail)->0;
        assert(all == seq![out] + rest);
        assert forall|i: int| 0 <= i < all.len() implies {
            let run = #[trigger] all[i];
            in_order(cs, schema, run) && all_orderly(cs, schema, run)
        } by {
            if i > 0 {
                assert(all[i] == rest[i - 1]);
            }
        }
    }
}

pub proof fn lemma_permuted_fit(a: Seq<RowModel>, b: Seq<RowModel>, block_size: nat)
    requires
        a.to_multiset() == b.to_multiset(),
        all_fit(a, block_size),
    ensures
        all_fit(b, block_size),
{
    broadcast use vstd::seq_lib::group_to_multiset_ensures;

    assert forall|i: int| 0 <= i < b.len() implies row_bytes(#[trigger] b[i]).len() <= block_size
        - 2 by {
        assert(b.contains(b[i]));
        assert(b.to_multiset().count(b[i]) > 0);
        assert(a.contains(b[i]));
        let k = choose|k: int| 0 <= k < a.len() && a[k] == b[i];
        assert(row_bytes(a[k]).len() <= block_size - 2);
    }
}

/// What holds of every row holds of every row of every run.
pub proof fn lemma_runs_members(
    cs: Seq<SortColumn>,
    schema: SchemaModel,
    block_size: nat,
    rows: Seq<RowModel>,
    runs: Seq<Seq<RowModel>>,
)
    requires
        bag(runs) == rows.to_multiset(),
        all_orderly(cs, schema, rows),
        all_fit(rows, block_size),
    ensures
        forall|i: int|
            0 <= i < runs.len() ==> {
                let run = #[trigger] runs[i];
                all_orderly(cs, schema, run) && all_fit(run, block_size)
            },
{
    broadcast use vstd::seq_lib::group_to_multiset_ensures;

    assert forall|i: int| 0 <= i < runs.len() implies {
        let run = #[trigger] runs[i];
        all_orderly(cs, schema, run) && all_fit(run, block_size)
    } by {
        let run = runs[i];
        assert forall|k: int| 0 <= k < run.len() implies orderly(cs, schema, #[trigger] run[k])
            && row_bytes(run[k]).len() <= block_size - 2 by {
            lemma_in_bag(runs, i, k);
            assert(rows.contains(run[k]));
            let m = choose|m: int| 0 <= m < rows.len() && rows[m] == run[k];
            assert(orderly(cs, schema, rows[m]));
            assert(row_bytes(rows[m]).len() <= block_size - 2);
        }
    }
}

/// Whatever sorting gives, it is the rows that were given, in some order.
pub proof fn lemma_sort_result_permutes(
    cs: Seq<SortColumn>,
    schema: SchemaModel,
    block_size: nat,
    rows: Seq<RowModel>,
)
    requires
        sort_result(cs, schema, block_size, rows) is Some,
    ensures
        sort_result(cs, schema, block_size, rows)->0.to_multiset() == rows.to_multiset(),
{
    reveal(sorted_from);
    let none = Seq::<RowModel>::empty();
    let runs = cut_runs(none, rows);
    assert(none + rows =~= rows);
    lemma_cut_runs(none, rows);
    if none_filled(runs) {
        lemma_sort_permutes(cs, schema, rows);
    } else {
        let sorted = sorted_runs(cs, schema, block_size, runs)->0;
        lemma_sorted_runs_permute(cs, schema, block_size, runs);
        assert(Seq::<Seq<RowModel>>::empty() + sorted =~= sorted);
        lemma_runs_permute(cs, schema, sorted);
    }
}

/// Sorting gives the rows in order, whether they stay in memory or go to disk, if the sort
/// columns are there and hold no NaN. Of rows that go to disk, each has to have room in
/// a block. There the two zeros of a float are told apart, so that a column behind them is
/// not looked at: rows that hold both in a sort column that is not the last are left out.
pub proof fn lemma_sort_result_sorts(
    cs: Seq<SortColumn>,
    schema: SchemaModel,
    block_size: nat,
    rows: Seq<RowModel>,
)
    requires
        all_known(cs, schema),
        all_orderly(cs, schema, rows),
        !stays_in_memory(rows) ==> all_fit(rows, block_size) && all_zeros_agree(
            cs,
            schema,
            rows.to_multiset(),
        ),
    ensures
        sort_result(cs, schema, block_size, rows) is Some,
        in_order(cs, schema, sort_result(cs, schema, block_size, rows)->0),
        sort_result(cs, schema, block_size, rows)->0.to_multiset() == rows.to_multiset(),
{
    assert(cs.take(cs.len() as int) =~= cs);
    lemma_sort_result_front(cs, cs.len() as int, schema, block_size, rows);
}

proof fn lemma_front_order(
    cs: Seq<SortColumn>,
    n: int,
    schema: SchemaModel,
    a: RowModel,
    b: RowModel,
)
    requires
        0 <= n <= cs.len(),
        all_known(cs, schema),
        may_precede(cs, schema, a, b),
    ensures
        may_precede(cs.take(n), schema, a, b),
    decreases n,
{
    let front = cs.take(n);
    if n > 0 {
        assert(column_of(schema, cs[0].column) is Some);
        let rest = cs.drop_first();
        assert(front.drop_first() =~= rest.take(n - 1));
        assert forall|k: int| 0 <= k < rest.len() implies column_of(
            schema,
            (#[trigger] rest[k]).column,
        ) is Some by {
            assert(rest[k] == cs[k + 1]);
        }
        let i = column_of(schema, cs[0].column)->0;
        if value_order(a[i], b[i]) != Some(Order::Less) && value_order(a[i], b[i]) != Some(
            Order::Greater,
        ) {
            lemma_front_order(rest, n - 1, schema, a, b);
        }
    }
}

/// Sorting gives the rows in the order of the first sort columns, whatever zeros the last of
/// those holds: only behind a column that holds both zeros may rows that went to disk be out
/// of order.
pub proof fn lemma_sort_result_front(
    cs: Seq<SortColumn>,
    n: int,
    schema: SchemaModel,
    block_size: nat,
    rows: Seq<RowModel>,
)
    requires
        0 <= n <= cs.len(),
        all_known(cs, schema),
        all_orderly(cs, schema, rows),
        !stays_in_memory(rows) ==> all_fit(rows, block_size) && all_zeros_agree(
            cs.take(n),
            schema,
            rows.to_multiset(),
        ),
    ensures
        sort_result(cs, schema, block_size, rows) is Some,
        in_order(cs.take(n), schema, sort_result(cs, schema, block_size, rows)->0),
        sort_result(cs, schema, block_size, rows)->0.to_multiset() == rows.to_multiset(),
{
    reveal(sorted_from);
    let none = Seq::<RowModel>::empty();
    let runs = cut_runs(none, rows);
    let fs = cs.take(n);
    assert(none + rows =~= rows);
    lemma_cut_runs(none, rows);
    assert forall|k: int| 0 <= k < fs.len() implies column_of(
        schema,
        (#[trigger] fs[k]).column,
    ) is Some by {
        assert(fs[k] == cs[k]);
    }
    if none_filled(runs) {
        lemma_sort_sorts(cs, schema, rows);
        let out = sort_rows(cs, schema, rows)->0;
        assert forall|i: int, j: int| 0 <= i < j < out.len() implies may_precede(
            fs,
            schema,
            #[trigger] out[i],
            #[trigger] out[j],
        ) by {
            lemma_front_order(cs, n, schema, out[i], out[j]);
        }
    } else {
        lemma_runs_members(cs, schema, block_size, rows, runs);
        lemma_sorted_runs_sort(cs, schema, block_size, runs);
        let sorted = sorted_runs(cs, schema, block_size, runs)->0;
        lemma_sorted_runs_permute(cs, schema, block_size, runs);
        assert(Seq::<Seq<RowModel>>::empty() + sorted =~= sorted);
        assert forall|i: int| 0 <= i < sorted.len() implies {
            let run = #[trigger] sorted[i];
            in_order(fs, schema, run) && all_orderly(fs, schema, run)
        } by {
            let run = sorted[i];
            assert(in_order(cs, schema, run) && all_orderly(cs, schema, run));
            assert forall|j: int, k: int| 0 <= j < k < run.len() implies may_precede(
                fs,
                schema,
                #[trigger] run[j],
                #[trigger] run[k],
            ) by {
                assert(may_precede(cs, schema, run[j], run[k]));
                lemma_front_order(cs, n, schema, run[j], run[k]);
            }
            assert forall|j: int| 0 <= j < run.len() implies orderly(
                fs,
                schema,
                #[trigger] run[j],
            ) by {
                assert(orderly(cs, schema, run[j]));
                assert forall|k: int| 0 <= k < fs.len() implies !is_nan(
                    run[j][column_of(schema, (#[trigger] fs[k]).column)->0],
                ) by {
                    assert(fs[k] == cs[k]);
                }
            }
        }
        lemma_runs_sort_front(cs, n, schema, sorted);
    }
    lemma_sort_result_permutes(cs, schema, block_size, rows);
}

} // verus!
