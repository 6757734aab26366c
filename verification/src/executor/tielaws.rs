//! What sorting promises of rows that tie: they stay as they came.

use vstd::prelude::*;

use crate::block::all_fit;
use crate::bytes::{lemma_lex_flip, lemma_lex_transitive, lex, Order};
use crate::data::value_order;
use crate::executor::keylaws::{lemma_key_front, lemma_key_is_faithful, lemma_rising_order,
    zero_pair, zeros_agree};
use crate::executor::merge::{head_keys, least, lemma_least, lemma_sum_zero, lemma_total_len_less,
    merge_runs, total_len};
use crate::executor::mergelaws::{bag, lemma_bag_less, lemma_cut_runs, lemma_in_bag,
    lemma_least_is_least, lemma_runs_members, lemma_sorted_runs_permute, lemma_sorted_runs_sort,
    lemma_total_len_zero, runs_in_order};
use crate::executor::order::row_order;
use crate::executor::sorter::{cut_runs, fills_run, none_filled, sort_result, sorted_from,
    sorted_run, sorted_runs};
use crate::executor::sortkey::{all_known, sort_key};
use crate::executor::sortlaws::{all_orderly, in_order, lemma_orderly_rest, lemma_rest_in_order,
    lemma_row_order_flip, lemma_row_order_transitive, lemma_sort_is_stable, lemma_ties_concat,
    lemma_value_order_flip, may_precede, orderly, ties};
use crate::query::SortColumn;
use crate::row::{column_of, RowModel, SchemaModel};

verus! {

/// No sort column holds a zero in one row and the other zero in the other.
pub open spec fn no_zero_pair(
    cs: Seq<SortColumn>,
    schema: SchemaModel,
    a: RowModel,
    b: RowModel,
) -> bool {
    forall|k: int|
        0 <= k < cs.len() ==> {
            let i = column_of(schema, (#[trigger] cs[k]).column)->0;
            !zero_pair(a[i], b[i])
        }
}

/// No two of the rows hold different zeros in a sort column.
pub open spec fn zeros_alike(
    cs: Seq<SortColumn>,
    schema: SchemaModel,
    rows: vstd::multiset::Multiset<RowModel>,
) -> bool {
    forall|a: RowModel, b: RowModel|
        #![trigger rows.count(a), rows.count(b)]
        rows.count(a) > 0 && rows.count(b) > 0 ==> no_zero_pair(cs, schema, a, b)
}

/// Rows that tie have the same key.
proof fn lemma_tied_keys(cs: Seq<SortColumn>, schema: SchemaModel, a: RowModel, b: RowModel)
    requires
        all_known(cs, schema),
        orderly(cs, schema, a),
        orderly(cs, schema, b),
        no_zero_pair(cs, schema, a, b),
        row_order(cs, schema, a, b) == Some(Order::Equal),
    ensures
        sort_key(cs, schema, a) == sort_key(cs, schema, b),
    decreases cs.len(),
{
    if cs.len() > 0 {
        lemma_orderly_rest(cs, schema, a);
        lemma_orderly_rest(cs, schema, b);
        lemma_key_front(cs, schema, a);
        lemma_key_front(cs, schema, b);
        let i = column_of(schema, cs[0].column)->0;
        let rest = cs.drop_first();
        lemma_value_order_flip(a[i], b[i]);
        assert(!zero_pair(a[i], b[i]));
        lemma_rising_order(a[i], b[i]);
        assert(value_order(a[i], b[i]) == Some(Order::Equal));
        assert forall|k: int| 0 <= k < rest.len() implies {
            let j = column_of(schema, (#[trigger] rest[k]).column)->0;
            !zero_pair(a[j], b[j])
        } by {
            assert(rest[k] == cs[k + 1]);
        }
        lemma_tied_keys(rest, schema, a, b);
    }
}

/// The least key is less than all before it.
proof fn lemma_least_is_first(keys: Seq<Option<Seq<u8>>>)
    ensures
        least(keys) matches Some(i) ==> forall|k: int|
            0 <= k < i && #[trigger] keys[k] is Some ==> lex(keys[i]->0, keys[k]->0)
                == Order::Less,
    decreases keys.len(),
{
    if keys.len() > 0 {
        let front = keys.drop_last();
        lemma_least_is_first(front);
        lemma_least_is_least(front);
        lemma_least(front);
        if let Some(i) = least(keys) {
            assert forall|k: int| 0 <= k < i && #[trigger] keys[k] is Some implies lex(
                keys[i]->0,
                keys[k]->0,
            ) == Order::Less by {
                assert(front[k] == keys[k]);
                if let (Some(j), Some(key)) = (least(front), keys.last()) {
                    assert(front[j] == keys[j]);
                    if i == keys.len() - 1 {
                        assert(lex(front[j]->0, front[k]->0) != Order::Greater);
                        lemma_lex_transitive(key, keys[j]->0, keys[k]->0);
                    }
                }
            }
        }
    }
}

/// The rows of some runs that tie with a given one, run by run.
pub open spec fn run_ties(
    cs: Seq<SortColumn>,
    schema: SchemaModel,
    x: RowModel,
    runs: Seq<Seq<RowModel>>,
) -> Seq<RowModel>
    decreases runs.len(),
{
    if runs.len() == 0 {
        Seq::empty()
    } else {
        run_ties(cs, schema, x, runs.drop_last()) + ties(cs, schema, x, runs.last())
    }
}

proof fn lemma_no_run_ties(
    cs: Seq<SortColumn>,
    schema: SchemaModel,
    x: RowModel,
    runs: Seq<Seq<RowModel>>,
)
    requires
        forall|j: int|
            0 <= j < runs.len() ==> ties(cs, schema, x, #[trigger] runs[j]).len() == 0,
    ensures
        run_ties(cs, schema, x, runs) == Seq::<RowModel>::empty(),
    decreases runs.len(),
{
    if runs.len() > 0 {
        let front = runs.drop_last();
        assert forall|j: int| 0 <= j < front.len() implies ties(
            cs,
            schema,
            x,
            #[trigger] front[j],
        ).len() == 0 by {
            assert(front[j] == runs[j]);
        }
        lemma_no_run_ties(cs, schema, x, front);
        assert(ties(cs, schema, x, runs[runs.len() - 1]).len() == 0);
        assert(run_ties(cs, schema, x, runs) =~= Seq::<RowModel>::empty());
    }
}

/// Taking the first row of a run takes the first of the rows that tie, if it ties and no run
/// before has one that does, and else leaves them.
proof fn lemma_run_ties_less(
    cs: Seq<SortColumn>,
    schema: SchemaModel,
    x: RowModel,
    runs: Seq<Seq<RowModel>>,
    i: int,
)
    requires
        0 <= i < runs.len(),
        runs[i].len() > 0,
        row_order(cs, schema, x, runs[i][0]) == Some(Order::Equal) ==> forall|j: int|
            0 <= j < i ==> ties(cs, schema, x, #[trigger] runs[j]).len() == 0,
    ensures
        ({
            let less = run_ties(cs, schema, x, runs.update(i, runs[i].drop_first()));
            run_ties(cs, schema, x, runs) == if row_order(cs, schema, x, runs[i][0]) == Some(
                Order::Equal,
            ) {
                seq![runs[i][0]] + less
            } else {
                less
            }
        }),
    decreases runs.len(),
{
    let rest = runs[i].drop_first();
    let fewer = runs.update(i, rest);
    let front = runs.drop_last();
    let y = runs[i][0];
    let tied = row_order(cs, schema, x, y) == Some(Order::Equal);
    if i == runs.len() - 1 {
        assert(fewer.drop_last() =~= front);
        if tied {
            assert forall|j: int| 0 <= j < front.len() implies ties(
                cs,
                schema,
                x,
                #[trigger] front[j],
            ).len() == 0 by {
                assert(front[j] == runs[j]);
            }
            lemma_no_run_ties(cs, schema, x, front);
            let less = ties(cs, schema, x, rest);
            assert(run_ties(cs, schema, x, runs) =~= seq![y] + run_ties(cs, schema, x, fewer));
        }
    } else {
        assert(fewer.drop_last() =~= front.update(i, rest));
        assert(fewer.last() == runs.last());
        if tied {
            assert forall|j: int| 0 <= j < i implies ties(
                cs,
                schema,
                x,
                #[trigger] front[j],
            ).len() == 0 by {
                assert(front[j] == runs[j]);
            }
        }
        lemma_run_ties_less(cs, schema, x, front, i);
        let less = run_ties(cs, schema, x, fewer.drop_last());
        let last = ties(cs, schema, x, runs.last());
        if tied {
            assert((seq![y] + less) + last =~= seq![y] + (less + last));
        }
    }
}

proof fn lemma_some_tie(cs: Seq<SortColumn>, schema: SchemaModel, x: RowModel, rows: Seq<RowModel>)
    ensures
        ties(cs, schema, x, rows).len() > 0 ==> exists|k: int|
            0 <= k < rows.len() && row_order(cs, schema, x, #[trigger] rows[k]) == Some(
                Order::Equal,
            ),
    decreases rows.len(),
{
    if rows.len() > 0 {
        let rest = rows.drop_first();
        lemma_some_tie(cs, schema, x, rest);
        if ties(cs, schema, x, rows).len() > 0 {
            if row_order(cs, schema, x, rows[0]) == Some(Order::Equal) {
                assert(row_order(cs, schema, x, rows[0]) == Some(Order::Equal));
            } else {
                let k = choose|k: int|
                    0 <= k < rest.len() && row_order(cs, schema, x, #[trigger] rest[k]) == Some(
                        Order::Equal,
                    );
                assert(rows[k + 1] == rest[k]);
            }
        }
    }
}

/// Merging runs that are in order gives the rows that tie run by run, and those of each run
/// in their order.
proof fn lemma_merge_ties(
    cs: Seq<SortColumn>,
    schema: SchemaModel,
    x: RowModel,
    runs: Seq<Seq<RowModel>>,
)
    requires
        all_known(cs, schema),
        orderly(cs, schema, x),
        runs_in_order(cs, schema, runs),
        zeros_alike(cs, schema, bag(runs)),
    ensures
        ties(cs, schema, x, merge_runs(cs, schema, runs)) == run_ties(cs, schema, x, runs),
    decreases total_len(runs),
{
    let heads = head_keys(cs, schema, runs);
    let out = merge_runs(cs, schema, runs);
    lemma_least(heads);
    lemma_least_is_first(heads);
    if total_len(runs) == 0 {
        lemma_total_len_zero(runs);
        assert forall|j: int| 0 <= j < runs.len() implies ties(
            cs,
            schema,
            x,
            #[trigger] runs[j],
        ).len() == 0 by {}
        lemma_no_run_ties(cs, schema, x, runs);
    } else {
        match least(heads) {
            Some(i) => {
                let y = runs[i][0];
                let less = runs.update(i, runs[i].drop_first());
                lemma_total_len_less(runs, i);
                lemma_bag_less(runs, i);
                assert(in_order(cs, schema, runs[i]) && all_orderly(cs, schema, runs[i]));
                lemma_rest_in_order(cs, schema, runs[i]);
                assert forall|j: int| 0 <= j < less.len() implies {
                    let run = #[trigger] less[j];
                    in_order(cs, schema, run) && all_orderly(cs, schema, run)
                } by {
                    assert(in_order(cs, schema, runs[j]));
                }
                assert forall|a: RowModel, b: RowModel|
                    #![trigger bag(less).count(a), bag(less).count(b)]
                    bag(less).count(a) > 0 && bag(less).count(b) > 0 implies no_zero_pair(
                    cs,
                    schema,
                    a,
                    b,
                ) by {
                    assert(bag(runs).count(a) > 0 && bag(runs).count(b) > 0);
                }
                lemma_merge_ties(cs, schema, x, less);
                let rest = merge_runs(cs, schema, less);
                assert(out == seq![y] + rest);
                assert(out.drop_first() =~= rest);
                assert(orderly(cs, schema, y));
                if row_order(cs, schema, x, y) == Some(Order::Equal) {
                    assert forall|j: int| 0 <= j < i implies ties(
                        cs,
                        schema,
                        x,
                        #[trigger] runs[j],
                    ).len() == 0 by {
                        if ties(cs, schema, x, runs[j]).len() > 0 {
                            lemma_some_tie(cs, schema, x, runs[j]);
                            let k = choose|k: int|
                                0 <= k < runs[j].len() && row_order(
                                    cs,
                                    schema,
                                    x,
                                    #[trigger] runs[j][k],
                                ) == Some(Order::Equal);
                            lemma_earlier_head(cs, schema, x, runs, i, j, k);
                            assert(heads[j] is Some);
                        }
                    }
                }
                lemma_run_ties_less(cs, schema, x, runs, i);
            },
            None => {
                assert forall|k: int| 0 <= k < runs.len() implies (#[trigger] runs[k]).len()
                    == 0 by {
                    assert(heads[k] is None);
                }
                lemma_sum_zero(Seq::new(runs.len(), |k: int| runs[k].len()));
            },
        }
    }
}

/// Where a run has a row that ties with the head of another, its own head is not behind that.
proof fn lemma_earlier_head(
    cs: Seq<SortColumn>,
    schema: SchemaModel,
    x: RowModel,
    runs: Seq<Seq<RowModel>>,
    i: int,
    j: int,
    k: int,
)
    requires
        all_known(cs, schema),
        orderly(cs, schema, x),
        runs_in_order(cs, schema, runs),
        zeros_alike(cs, schema, bag(runs)),
        0 <= i < runs.len(),
        0 <= j < runs.len(),
        runs[i].len() > 0,
        0 <= k < runs[j].len(),
        row_order(cs, schema, x, runs[i][0]) == Some(Order::Equal),
        row_order(cs, schema, x, runs[j][k]) == Some(Order::Equal),
    ensures
        lex(sort_key(cs, schema, runs[i][0]), sort_key(cs, schema, runs[j][0])) != Order::Less,
{
    let (y, z, h) = (runs[i][0], runs[j][k], runs[j][0]);
    assert(in_order(cs, schema, runs[i]) && all_orderly(cs, schema, runs[i]));
    assert(in_order(cs, schema, runs[j]) && all_orderly(cs, schema, runs[j]));
    assert(orderly(cs, schema, y) && orderly(cs, schema, z) && orderly(cs, schema, h));
    lemma_in_bag(runs, i, 0);
    lemma_in_bag(runs, j, 0);
    assert(bag(runs).count(y) > 0 && bag(runs).count(h) > 0);
    assert(no_zero_pair(cs, schema, h, y));
    lemma_row_order_flip(cs, schema, x, y);
    lemma_row_order_flip(cs, schema, x, z);
    lemma_row_order_flip(cs, schema, h, h);
    if k > 0 {
        assert(may_precede(cs, schema, runs[j][0], runs[j][k]));
    } else {
        lemma_same_ties(cs, schema, h);
    }
    lemma_row_order_transitive(cs, schema, z, x, y);
    lemma_row_order_transitive(cs, schema, h, z, y);
    assert(may_precede(cs, schema, h, y));
    let (p, q) = (sort_key(cs, schema, y), sort_key(cs, schema, h));
    lemma_lex_flip(p, q);
    if row_order(cs, schema, h, y) == Some(Order::Equal) {
        lemma_tied_keys(cs, schema, h, y);
        lemma_lex_flip(p, p);
    } else {
        assert(zeros_agree(cs, schema, h, y));
        lemma_key_is_faithful(cs, schema, h, y);
    }
}

proof fn lemma_same_ties(cs: Seq<SortColumn>, schema: SchemaModel, a: RowModel)
    requires
        all_known(cs, schema),
        orderly(cs, schema, a),
    ensures
        may_precede(cs, schema, a, a),
{
    lemma_row_order_flip(cs, schema, a, a);
}

proof fn lemma_run_ties_first(
    cs: Seq<SortColumn>,
    schema: SchemaModel,
    x: RowModel,
    first: Seq<RowModel>,
    rest: Seq<Seq<RowModel>>,
)
    ensures
        run_ties(cs, schema, x, seq![first] + rest) == ties(cs, schema, x, first) + run_ties(
            cs,
            schema,
            x,
            rest,
        ),
    decreases rest.len(),
{
    let all = seq![first] + rest;
    let own = ties(cs, schema, x, first);
    if rest.len() == 0 {
        assert(all.drop_last() =~= Seq::<Seq<RowModel>>::empty());
        assert(run_ties(cs, schema, x, all.drop_last()) == Seq::<RowModel>::empty());
        assert(run_ties(cs, schema, x, all) =~= own + run_ties(cs, schema, x, rest));
    } else {
        let front = rest.drop_last();
        lemma_run_ties_first(cs, schema, x, first, front);
        assert(all.drop_last() =~= seq![first] + front);
        let (a, b) = (run_ties(cs, schema, x, front), ties(cs, schema, x, rest.last()));
        assert((own + a) + b =~= own + (a + b));
    }
}

proof fn lemma_cut_ties(
    cs: Seq<SortColumn>,
    schema: SchemaModel,
    x: RowModel,
    open: Seq<RowModel>,
    rest: Seq<RowModel>,
)
    ensures
        run_ties(cs, schema, x, cut_runs(open, rest)) == ties(cs, schema, x, open + rest),
    decreases rest.len(),
{
    if rest.len() == 0 {
        assert(open + rest =~= open);
        if open.len() > 0 {
            let none = Seq::<Seq<RowModel>>::empty();
            lemma_run_ties_first(cs, schema, x, open, none);
            assert(seq![open] + none =~= seq![open]);
            let own = ties(cs, schema, x, open);
            assert(own + run_ties(cs, schema, x, none) =~= own);
        }
    } else {
        let more = open.push(rest[0]);
        let later = rest.drop_first();
        assert(open + rest =~= more + later);
        if fills_run(more) {
            let none = Seq::<RowModel>::empty();
            lemma_cut_ties(cs, schema, x, none, later);
            assert(none + later =~= later);
            lemma_run_ties_first(cs, schema, x, more, cut_runs(none, later));
            lemma_ties_concat(cs, schema, x, more, later);
        } else {
            lemma_cut_ties(cs, schema, x, more, later);
        }
    }
}

proof fn lemma_sorted_ties(
    cs: Seq<SortColumn>,
    schema: SchemaModel,
    x: RowModel,
    block_size: nat,
    runs: Seq<Seq<RowModel>>,
)
    requires
        all_known(cs, schema),
        orderly(cs, schema, x),
        sorted_runs(cs, schema, block_size, runs) is Some,
        forall|i: int| 0 <= i < runs.len() ==> all_orderly(cs, schema, #[trigger] runs[i]),
    ensures
        run_ties(cs, schema, x, sorted_runs(cs, schema, block_size, runs)->0) == run_ties(
            cs,
            schema,
            x,
            runs,
        ),
    decreases runs.len(),
{
    if runs.len() > 0 {
        let rest = runs.drop_first();
        assert forall|i: int| 0 <= i < rest.len() implies all_orderly(
            cs,
            schema,
            #[trigger] rest[i],
        ) by {
            assert(rest[i] == runs[i + 1]);
        }
        lemma_sorted_ties(cs, schema, x, block_size, rest);
        let run = sorted_run(cs, schema, block_size, runs[0])->0;
        let later = sorted_runs(cs, schema, block_size, rest)->0;
        lemma_sort_is_stable(cs, schema, runs[0], x);
        lemma_run_ties_first(cs, schema, x, run, later);
        lemma_run_ties_first(cs, schema, x, runs[0], rest);
        assert(seq![runs[0]] + rest =~= runs);
    }
}

/// Sorting keeps rows that tie as they came, whether they stay in memory or go to disk. Rows
/// that go to disk have to have room in a block, and may not hold both zeros of a float in a
/// sort column.
pub proof fn lemma_sort_result_is_stable(
    cs: Seq<SortColumn>,
    schema: SchemaModel,
    block_size: nat,
    rows: Seq<RowModel>,
    x: RowModel,
)
    requires
        all_known(cs, schema),
        all_orderly(cs, schema, rows),
        orderly(cs, schema, x),
        !none_filled(cut_runs(Seq::empty(), rows)) ==> all_fit(rows, block_size) && zeros_alike(
            cs,
            schema,
            rows.to_multiset(),
        ),
    ensures
        sort_result(cs, schema, block_size, rows) matches Some(out) && ties(cs, schema, x, out)
            == ties(cs, schema, x, rows),
{
    reveal(sorted_from);
    let none = Seq::<RowModel>::empty();
    let runs = cut_runs(none, rows);
    assert(none + rows =~= rows);
    if none_filled(runs) {
        crate::executor::sortlaws::lemma_sort_sorts(cs, schema, rows);
        lemma_sort_is_stable(cs, schema, rows, x);
    } else {
        lemma_cut_runs(none, rows);
        lemma_runs_members(cs, schema, block_size, rows, runs);
        lemma_sorted_runs_sort(cs, schema, block_size, runs);
        lemma_sorted_runs_permute(cs, schema, block_size, runs);
        let sorted = sorted_runs(cs, schema, block_size, runs)->0;
        assert(Seq::<Seq<RowModel>>::empty() + sorted =~= sorted);
        lemma_merge_ties(cs, schema, x, sorted);
        assert forall|i: int| 0 <= i < runs.len() implies all_orderly(
            cs,
            schema,
            #[trigger] runs[i],
        ) by {
            let run = runs[i];
            assert(all_orderly(cs, schema, run) && all_fit(run, block_size));
        }
        lemma_sorted_ties(cs, schema, x, block_size, runs);
        lemma_cut_ties(cs, schema, x, none, rows);
    }
}

} // verus!
