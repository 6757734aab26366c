//! What sorting promises: the same rows, in order.

use vstd::prelude::*;
use vstd::utf8::encode_utf8;

use crate::bytes::{lemma_lex_flip, lemma_lex_transitive, Order};
use crate::data::{is_nan, value_order, Value};
use crate::executor::order::{lemma_sort_permutes, merge_rows, row_order, sort_rows};
use crate::executor::sortkey::all_known;
use crate::query::SortColumn;
use crate::row::{column_of, conforms, lemma_column_of, RowModel, SchemaModel};

verus! {

// ── Order ────────────────────────────────────────────────────────────────────

/// The row is one of the schema, and holds no NaN in a sort column.
pub open spec fn orderly(cs: Seq<SortColumn>, schema: SchemaModel, row: RowModel) -> bool {
    &&& conforms(row, schema)
    &&& forall|k: int|
        0 <= k < cs.len() ==> !is_nan(row[column_of(schema, (#[trigger] cs[k]).column)->0])
}

pub open spec fn all_orderly(
    cs: Seq<SortColumn>,
    schema: SchemaModel,
    rows: Seq<RowModel>,
) -> bool {
    forall|i: int| 0 <= i < rows.len() ==> orderly(cs, schema, #[trigger] rows[i])
}

/// One row may come before another.
pub open spec fn may_precede(
    cs: Seq<SortColumn>,
    schema: SchemaModel,
    a: RowModel,
    b: RowModel,
) -> bool {
    row_order(cs, schema, a, b) matches Some(o) && o != Order::Greater
}

/// The rows are in the order of the sort columns.
pub open spec fn in_order(cs: Seq<SortColumn>, schema: SchemaModel, rows: Seq<RowModel>) -> bool {
    forall|i: int, j: int|
        0 <= i < j < rows.len() ==> may_precede(cs, schema, #[trigger] rows[i], #[trigger] rows[j])
}

/// Values of one type other than NaN have an order, which is turned round with them.
pub proof fn lemma_value_order_flip(a: Value, b: Value)
    requires
        a.kind() == b.kind(),
        !is_nan(a),
        !is_nan(b),
    ensures
        value_order(a, b) is Some,
        value_order(b, a) == Some(value_order(a, b)->0.flip()),
{
    if let (Value::Text(x), Value::Text(y)) = (a, b) {
        lemma_lex_flip(encode_utf8(x), encode_utf8(y));
    }
}

proof fn lemma_value_order_transitive(a: Value, b: Value, c: Value)
    requires
        a.kind() == b.kind(),
        b.kind() == c.kind(),
        !is_nan(a),
        !is_nan(b),
        !is_nan(c),
        value_order(a, b)->0 != Order::Greater,
        value_order(b, c)->0 != Order::Greater,
    ensures
        value_order(a, c) is Some,
        value_order(a, c)->0 != Order::Greater,
        value_order(a, c)->0 == Order::Equal <==> (value_order(a, b)->0 == Order::Equal
            && value_order(b, c)->0 == Order::Equal),
{
    if let (Value::Text(x), Value::Text(y), Value::Text(z)) = (a, b, c) {
        lemma_lex_transitive(encode_utf8(x), encode_utf8(y), encode_utf8(z));
        lemma_lex_flip(encode_utf8(x), encode_utf8(y));
        lemma_lex_flip(encode_utf8(y), encode_utf8(z));
        lemma_lex_flip(encode_utf8(x), encode_utf8(z));
    }
}

pub proof fn lemma_orderly_rest(cs: Seq<SortColumn>, schema: SchemaModel, row: RowModel)
    requires
        cs.len() > 0,
        all_known(cs, schema),
        orderly(cs, schema, row),
    ensures
        all_known(cs.drop_first(), schema),
        orderly(cs.drop_first(), schema, row),
        column_of(schema, cs[0].column) is Some,
        0 <= column_of(schema, cs[0].column)->0 < row.len(),
        !is_nan(row[column_of(schema, cs[0].column)->0]),
        row[column_of(schema, cs[0].column)->0].kind() == schema[column_of(
            schema,
            cs[0].column,
        )->0].1,
        row[column_of(schema, cs[0].column)->0].storable(),
{
    let rest = cs.drop_first();
    assert forall|k: int| 0 <= k < rest.len() implies column_of(
        schema,
        (#[trigger] rest[k]).column,
    ) is Some && !is_nan(row[column_of(schema, rest[k].column)->0]) by {
        assert(rest[k] == cs[k + 1]);
    }
    assert(column_of(schema, cs[0].column) is Some);
    lemma_column_of(schema, cs[0].column);
}

/// Rows without a NaN have an order, which is turned round with them.
pub proof fn lemma_row_order_flip(
    cs: Seq<SortColumn>,
    schema: SchemaModel,
    a: RowModel,
    b: RowModel,
)
    requires
        all_known(cs, schema),
        orderly(cs, schema, a),
        orderly(cs, schema, b),
    ensures
        row_order(cs, schema, a, b) is Some,
        row_order(cs, schema, b, a) == Some(row_order(cs, schema, a, b)->0.flip()),
    decreases cs.len(),
{
    if cs.len() > 0 {
        lemma_orderly_rest(cs, schema, a);
        lemma_orderly_rest(cs, schema, b);
        let i = column_of(schema, cs[0].column)->0;
        lemma_value_order_flip(a[i], b[i]);
        lemma_row_order_flip(cs.drop_first(), schema, a, b);
    }
}

/// What precedes a row also precedes what that row precedes.
pub proof fn lemma_row_order_transitive(
    cs: Seq<SortColumn>,
    schema: SchemaModel,
    a: RowModel,
    b: RowModel,
    c: RowModel,
)
    requires
        all_known(cs, schema),
        orderly(cs, schema, a),
        orderly(cs, schema, b),
        orderly(cs, schema, c),
        may_precede(cs, schema, a, b),
        may_precede(cs, schema, b, c),
    ensures
        may_precede(cs, schema, a, c),
        row_order(cs, schema, a, c) == Some(Order::Equal) <==> (row_order(cs, schema, a, b) == Some(
            Order::Equal,
        ) && row_order(cs, schema, b, c) == Some(Order::Equal)),
    decreases cs.len(),
{
    if cs.len() > 0 {
        lemma_orderly_rest(cs, schema, a);
        lemma_orderly_rest(cs, schema, b);
        lemma_orderly_rest(cs, schema, c);
        let i = column_of(schema, cs[0].column)->0;
        lemma_value_order_flip(a[i], b[i]);
        lemma_value_order_flip(b[i], c[i]);
        lemma_value_order_flip(a[i], c[i]);
        let x = value_order(a[i], b[i])->0;
        let y = value_order(b[i], c[i])->0;
        if cs[0].ascending {
            lemma_value_order_transitive(a[i], b[i], c[i]);
        } else {
            lemma_value_order_transitive(c[i], b[i], a[i]);
        }
        if x == Order::Equal && y == Order::Equal {
            lemma_row_order_transitive(cs.drop_first(), schema, a, b, c);
        }
    }
}

// ── Sorting in memory ────────────────────────────────────────────────────────

/// The row may precede all of the list.
pub open spec fn precedes_all(
    cs: Seq<SortColumn>,
    schema: SchemaModel,
    x: RowModel,
    rows: Seq<RowModel>,
) -> bool {
    forall|i: int| 0 <= i < rows.len() ==> may_precede(cs, schema, x, #[trigger] rows[i])
}

/// The rows of a list that are equal to a given one in the sort columns, in their order.
pub open spec fn ties(
    cs: Seq<SortColumn>,
    schema: SchemaModel,
    x: RowModel,
    rows: Seq<RowModel>,
) -> Seq<RowModel>
    decreases rows.len(),
{
    if rows.len() == 0 {
        Seq::empty()
    } else {
        let rest = ties(cs, schema, x, rows.drop_first());
        if row_order(cs, schema, x, rows[0]) == Some(Order::Equal) {
            seq![rows[0]] + rest
        } else {
            rest
        }
    }
}

pub proof fn lemma_ties_concat(
    cs: Seq<SortColumn>,
    schema: SchemaModel,
    x: RowModel,
    a: Seq<RowModel>,
    b: Seq<RowModel>,
)
    ensures
        ties(cs, schema, x, a + b) == ties(cs, schema, x, a) + ties(cs, schema, x, b),
    decreases a.len(),
{
    if a.len() == 0 {
        assert(a + b =~= b);
        assert(ties(cs, schema, x, a) + ties(cs, schema, x, b) =~= ties(cs, schema, x, b));
    } else {
        lemma_ties_concat(cs, schema, x, a.drop_first(), b);
        assert((a + b).drop_first() =~= a.drop_first() + b);
        assert(ties(cs, schema, x, a + b) =~= ties(cs, schema, x, a) + ties(cs, schema, x, b));
    }
}

proof fn lemma_no_ties(
    cs: Seq<SortColumn>,
    schema: SchemaModel,
    x: RowModel,
    rows: Seq<RowModel>,
)
    requires
        forall|i: int|
            0 <= i < rows.len() ==> row_order(cs, schema, x, #[trigger] rows[i]) != Some(
                Order::Equal,
            ),
    ensures
        ties(cs, schema, x, rows) == Seq::<RowModel>::empty(),
    decreases rows.len(),
{
    if rows.len() > 0 {
        let rest = rows.drop_first();
        assert forall|i: int| 0 <= i < rest.len() implies row_order(
            cs,
            schema,
            x,
            #[trigger] rest[i],
        ) != Some(Order::Equal) by {
            assert(rest[i] == rows[i + 1]);
        }
        lemma_no_ties(cs, schema, x, rest);
    }
}

pub proof fn lemma_rest_in_order(cs: Seq<SortColumn>, schema: SchemaModel, rows: Seq<RowModel>)
    requires
        rows.len() > 0,
        in_order(cs, schema, rows),
        all_orderly(cs, schema, rows),
    ensures
        in_order(cs, schema, rows.drop_first()),
        all_orderly(cs, schema, rows.drop_first()),
        precedes_all(cs, schema, rows[0], rows.drop_first()),
{
    let rest = rows.drop_first();
    assert forall|i: int| 0 <= i < rest.len() implies #[trigger] rest[i] == rows[i + 1] by {}
}

/// A list with a row before it that precedes all of it.
pub proof fn lemma_put_first(
    cs: Seq<SortColumn>,
    schema: SchemaModel,
    x: RowModel,
    rows: Seq<RowModel>,
)
    requires
        in_order(cs, schema, rows),
        precedes_all(cs, schema, x, rows),
    ensures
        in_order(cs, schema, seq![x] + rows),
{
    let all = seq![x] + rows;
    assert forall|i: int, j: int| 0 <= i < j < all.len() implies may_precede(
        cs,
        schema,
        #[trigger] all[i],
        #[trigger] all[j],
    ) by {
        assert(all[j] == rows[j - 1]);
        if i > 0 {
            assert(all[i] == rows[i - 1]);
        }
    }
}

/// Merging two lists in order gives a list in order, which begins with a row of one of
/// them, and keeps rows that are equal in the sort columns in their order.
proof fn lemma_merge_sorts(
    cs: Seq<SortColumn>,
    schema: SchemaModel,
    a: Seq<RowModel>,
    b: Seq<RowModel>,
)
    requires
        all_known(cs, schema),
        all_orderly(cs, schema, a),
        all_orderly(cs, schema, b),
        in_order(cs, schema, a),
        in_order(cs, schema, b),
    ensures
        merge_rows(cs, schema, a, b) is Some,
        in_order(cs, schema, merge_rows(cs, schema, a, b)->0),
        all_orderly(cs, schema, merge_rows(cs, schema, a, b)->0),
        forall|x: RowModel|
            #![trigger precedes_all(cs, schema, x, merge_rows(cs, schema, a, b)->0)]
            precedes_all(cs, schema, x, a) && precedes_all(cs, schema, x, b) ==> precedes_all(
                cs,
                schema,
                x,
                merge_rows(cs, schema, a, b)->0,
            ),
        forall|x: RowModel|
            orderly(cs, schema, x) ==> #[trigger] ties(
                cs,
                schema,
                x,
                merge_rows(cs, schema, a, b)->0,
            ) == ties(cs, schema, x, a) + ties(cs, schema, x, b),
    decreases a.len() + b.len(),
{
    let out = merge_rows(cs, schema, a, b)->0;
    if a.len() == 0 {
        assert forall|x: RowModel| orderly(cs, schema, x) implies #[trigger] ties(
            cs,
            schema,
            x,
            out,
        ) == ties(cs, schema, x, a) + ties(cs, schema, x, b) by {
            assert(ties(cs, schema, x, a) + ties(cs, schema, x, b) =~= ties(cs, schema, x, b));
        }
    } else if b.len() == 0 {
        assert forall|x: RowModel| orderly(cs, schema, x) implies #[trigger] ties(
            cs,
            schema,
            x,
            out,
        ) == ties(cs, schema, x, a) + ties(cs, schema, x, b) by {
            assert(ties(cs, schema, x, a) + ties(cs, schema, x, b) =~= ties(cs, schema, x, a));
        }
    } else {
        assert(orderly(cs, schema, a[0]) && orderly(cs, schema, b[0]));
        lemma_row_order_flip(cs, schema, a[0], b[0]);
        lemma_row_order_flip(cs, schema, a[0], a[0]);
        lemma_row_order_flip(cs, schema, b[0], b[0]);
        lemma_rest_in_order(cs, schema, a);
        lemma_rest_in_order(cs, schema, b);
        if row_order(cs, schema, a[0], b[0]) == Some(Order::Greater) {
            let rest = merge_rows(cs, schema, a, b.drop_first())->0;
            lemma_merge_sorts(cs, schema, a, b.drop_first());
            assert forall|i: int| 0 <= i < a.len() implies may_precede(
                cs,
                schema,
                b[0],
                #[trigger] a[i],
            ) && row_order(cs, schema, b[0], a[i]) != Some(Order::Equal) by {
                if i > 0 {
                    assert(may_precede(cs, schema, a[0], a[i]));
                    assert(orderly(cs, schema, a[i]));
                    lemma_row_order_transitive(cs, schema, b[0], a[0], a[i]);
                }
            }
            assert(precedes_all(cs, schema, b[0], a));
            assert(precedes_all(cs, schema, b[0], rest));
            lemma_put_first(cs, schema, b[0], rest);
            assert(out =~= seq![b[0]] + rest);
            assert(out.drop_first() =~= rest);
            assert forall|i: int| 0 <= i < out.len() implies orderly(
                cs,
                schema,
                #[trigger] out[i],
            ) by {
                if i > 0 {
                    assert(out[i] == rest[i - 1]);
                }
            }
            assert forall|x: RowModel|
                #![trigger precedes_all(cs, schema, x, out)]
                precedes_all(cs, schema, x, a) && precedes_all(
                    cs,
                    schema,
                    x,
                    b,
                ) implies precedes_all(cs, schema, x, out) by {
                assert(may_precede(cs, schema, x, b[0]));
                assert(precedes_all(cs, schema, x, b.drop_first())) by {
                    assert forall|i: int| 0 <= i < b.drop_first().len() implies may_precede(
                        cs,
                        schema,
                        x,
                        #[trigger] b.drop_first()[i],
                    ) by {
                        assert(b.drop_first()[i] == b[i + 1]);
                    }
                }
                assert(precedes_all(cs, schema, x, rest));
                assert forall|i: int| 0 <= i < out.len() implies may_precede(
                    cs,
                    schema,
                    x,
                    #[trigger] out[i],
                ) by {
                    if i > 0 {
                        assert(out[i] == rest[i - 1]);
                    }
                }
            }
            assert forall|x: RowModel| orderly(cs, schema, x) implies #[trigger] ties(
                cs,
                schema,
                x,
                out,
            ) == ties(cs, schema, x, a) + ties(cs, schema, x, b) by {
                assert(ties(cs, schema, x, rest) == ties(cs, schema, x, a) + ties(
                    cs,
                    schema,
                    x,
                    b.drop_first(),
                ));
                if row_order(cs, schema, x, b[0]) == Some(Order::Equal) {
                    assert forall|i: int| 0 <= i < a.len() implies row_order(
                        cs,
                        schema,
                        x,
                        #[trigger] a[i],
                    ) != Some(Order::Equal) by {
                        assert(orderly(cs, schema, a[i]));
                        lemma_row_order_transitive(cs, schema, x, b[0], a[i]);
                    }
                    lemma_no_ties(cs, schema, x, a);
                }
                assert(ties(cs, schema, x, out) =~= ties(cs, schema, x, a) + ties(
                    cs,
                    schema,
                    x,
                    b,
                ));
            }
        } else {
            let rest = merge_rows(cs, schema, a.drop_first(), b)->0;
            lemma_merge_sorts(cs, schema, a.drop_first(), b);
            assert forall|i: int| 0 <= i < b.len() implies may_precede(
                cs,
                schema,
                a[0],
                #[trigger] b[i],
            ) by {
                if i > 0 {
                    assert(may_precede(cs, schema, b[0], b[i]));
                    assert(orderly(cs, schema, b[i]));
                    lemma_row_order_transitive(cs, schema, a[0], b[0], b[i]);
                }
            }
            assert(precedes_all(cs, schema, a[0], b));
            assert(precedes_all(cs, schema, a[0], rest));
            lemma_put_first(cs, schema, a[0], rest);
            assert(out =~= seq![a[0]] + rest);
            assert(out.drop_first() =~= rest);
            assert forall|i: int| 0 <= i < out.len() implies orderly(
                cs,
                schema,
                #[trigger] out[i],
            ) by {
                if i > 0 {
                    assert(out[i] == rest[i - 1]);
                }
            }
            assert forall|x: RowModel|
                #![trigger precedes_all(cs, schema, x, out)]
                precedes_all(cs, schema, x, a) && precedes_all(
                    cs,
                    schema,
                    x,
                    b,
                ) implies precedes_all(cs, schema, x, out) by {
                assert(may_precede(cs, schema, x, a[0]));
                assert(precedes_all(cs, schema, x, a.drop_first())) by {
                    assert forall|i: int| 0 <= i < a.drop_first().len() implies may_precede(
                        cs,
                        schema,
                        x,
                        #[trigger] a.drop_first()[i],
                    ) by {
                        assert(a.drop_first()[i] == a[i + 1]);
                    }
                }
                assert(precedes_all(cs, schema, x, rest));
                assert forall|i: int| 0 <= i < out.len() implies may_precede(
                    cs,
                    schema,
                    x,
                    #[trigger] out[i],
                ) by {
                    if i > 0 {
                        assert(out[i] == rest[i - 1]);
                    }
                }
            }
            assert forall|x: RowModel| orderly(cs, schema, x) implies #[trigger] ties(
                cs,
                schema,
                x,
                out,
            ) == ties(cs, schema, x, a) + ties(cs, schema, x, b) by {
                assert(ties(cs, schema, x, rest) == ties(cs, schema, x, a.drop_first()) + ties(
                    cs,
                    schema,
                    x,
                    b,
                ));
                assert(ties(cs, schema, x, out) =~= ties(cs, schema, x, a) + ties(
                    cs,
                    schema,
                    x,
                    b,
                ));
            }
        }
    }
}

/// Sorting rows in memory gives the same rows in order, and rows that are equal in the
/// sort columns keep their order.
pub proof fn lemma_sort_sorts(cs: Seq<SortColumn>, schema: SchemaModel, rows: Seq<RowModel>)
    requires
        all_known(cs, schema),
        all_orderly(cs, schema, rows),
    ensures
        sort_rows(cs, schema, rows) is Some,
        ({
            let out = sort_rows(cs, schema, rows)->0;
            &&& in_order(cs, schema, out)
            &&& all_orderly(cs, schema, out)
            &&& out.to_multiset() == rows.to_multiset()
            &&& forall|x: RowModel|
                orderly(cs, schema, x) ==> #[trigger] ties(cs, schema, x, out) == ties(
                    cs,
                    schema,
                    x,
                    rows,
                )
        }),
    decreases rows.len(),
{
    if rows.len() > 1 {
        let half = (rows.len() / 2) as int;
        let (x, y) = (rows.take(half), rows.skip(half));
        assert forall|i: int| 0 <= i < x.len() implies orderly(cs, schema, #[trigger] x[i]) by {
            assert(x[i] == rows[i]);
        }
        assert forall|i: int| 0 <= i < y.len() implies orderly(cs, schema, #[trigger] y[i]) by {
            assert(y[i] == rows[i + half]);
        }
        lemma_sort_sorts(cs, schema, x);
        lemma_sort_sorts(cs, schema, y);
        let (a, b) = (sort_rows(cs, schema, x)->0, sort_rows(cs, schema, y)->0);
        lemma_merge_sorts(cs, schema, a, b);
        lemma_sort_permutes(cs, schema, rows);
        let out = sort_rows(cs, schema, rows)->0;
        assert forall|z: RowModel| orderly(cs, schema, z) implies #[trigger] ties(
            cs,
            schema,
            z,
            out,
        ) == ties(cs, schema, z, rows) by {
            lemma_ties_concat(cs, schema, z, x, y);
            assert(rows =~= x + y);
            assert(ties(cs, schema, z, a) == ties(cs, schema, z, x));
            assert(ties(cs, schema, z, b) == ties(cs, schema, z, y));
        }
    }
}

/// Sorting in memory is stable: rows that are equal in the sort columns come out in the order
/// in which they were given.
pub proof fn lemma_sort_is_stable(
    cs: Seq<SortColumn>,
    schema: SchemaModel,
    rows: Seq<RowModel>,
    x: RowModel,
)
    requires
        all_known(cs, schema),
        all_orderly(cs, schema, rows),
        orderly(cs, schema, x),
    ensures
        ties(cs, schema, x, sort_rows(cs, schema, rows)->0) == ties(cs, schema, x, rows),
{
    lemma_sort_sorts(cs, schema, rows);
}

} // verus!
