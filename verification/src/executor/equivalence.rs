//! A planned join and a filtered cross product give the same rows.

use vstd::prelude::*;
use vstd::set_lib::set_int_range;

use crate::disk::DiskModel;
use crate::executor::cross::product;
use crate::executor::filter::{all_hold, filter_rows, holds};
use crate::executor::hashjoin::{left_keys, right_keys};
use crate::executor::joinlaws::{any_pair, distinct_places, first_places, joins, kept_places,
    lemma_cross_product, lemma_filter_keeps, rows_at};
use crate::executor::plan::{applicable, applies, equi_keys, join_plan, residual, share_name,
    LeafPlan};
use crate::executor::planfits::{all_sound, lemma_sides_fit, lemma_widths};
use crate::executor::planlaws::{columns_in, combos_joined, covers, joinable, lemma_all_hold,
    lemma_applicable, lemma_filter_none, lemma_filter_tells, lemma_holds_by_name, lemma_join_covers,
    lemma_named_side, lemma_names_apart, lemma_step, meets, names_apart, reaches, row_in,
    schemas_of, sides_fit, sides_of, some_sides, valid_combo, value_named, widths_ok};
use crate::key::key_of;
use crate::query::{Condition, Operand};
use crate::row::{column_of, RowModel, SchemaModel};

verus! {

/// The cross product of some sides: each row of the first with each of the second, and so
/// on.
pub open spec fn cross_all(sides: Seq<Seq<RowModel>>) -> Seq<RowModel>
    decreases sides.len(),
{
    if sides.len() == 0 {
        seq![Seq::empty()]
    } else {
        product(cross_all(sides.drop_last()), sides.last())
    }
}

/// The columns of the cross product of some sides.
pub open spec fn cross_columns(schemas: Seq<SchemaModel>) -> SchemaModel {
    columns_in(schemas, first_places(schemas.len()))
}

/// The cross product of some sides, of which the rows are left that meet all conditions
/// whose columns are there.
pub open spec fn filtered_cross(
    cs: Seq<Condition>,
    schemas: Seq<SchemaModel>,
    sides: Seq<Seq<RowModel>>,
) -> Option<Seq<RowModel>> {
    let columns = cross_columns(schemas);
    filter_rows(applicable(cs, columns), columns, cross_all(sides))
}

/// Two lists of rows are the same but for the order of the rows and of the columns: each
/// row of one has a row of the other, which has the same values under the same names.
pub open spec fn same_answer(
    columns: SchemaModel,
    rows: Seq<RowModel>,
    other_columns: SchemaModel,
    other_rows: Seq<RowModel>,
    places: Seq<int>,
) -> bool {
    &&& rows.len() == other_rows.len()
    &&& places.len() == rows.len()
    &&& distinct_places(places, other_rows.len())
    &&& forall|m: int, name: Seq<char>|
        0 <= m < rows.len() ==> #[trigger] value_named(columns, rows[m], name) == value_named(
            other_columns,
            other_rows[places[m]],
            name,
        )
}

// ── The cross product ────────────────────────────────────────────────────────

/// A cross product has all combinations of one row of each side, each once.
proof fn lemma_cross_all(schemas: Seq<SchemaModel>, sides: Seq<Seq<RowModel>>, n: nat) -> (combos:
    Seq<Seq<int>>)
    requires
        sides_fit(schemas, sides),
        names_apart(schemas),
        widths_ok(schemas),
        n <= sides.len(),
    ensures
        reaches(
            Seq::empty(),
            schemas,
            sides,
            first_places(n),
            cross_all(sides.take(n as int)),
            combos,
        ),
    decreases n,
{
    let none = Seq::<Condition>::empty();
    let order = first_places(n);
    let rows = cross_all(sides.take(n as int));
    if n == 0 {
        let combos = seq![Seq::<int>::empty()];
        assert(order =~= Seq::<int>::empty());
        assert forall|t: Seq<int>|
            valid_combo(sides, order, t) && meets(
                none,
                columns_in(schemas, order),
                row_in(sides, order, t),
            ) implies #[trigger] combos.contains(t) by {
            assert(t =~= combos[0]);
        }
        combos
    } else {
        let id = n - 1;
        let before = first_places(id as nat);
        let combos = lemma_cross_all(schemas, sides, id as nat);
        let front = cross_all(sides.take(id));
        let side = sides[id];
        let places = first_places(side.len());
        assert(sides.take(n as int).drop_last() =~= sides.take(id));
        assert(rows == product(front, side));
        assert(rows_at(side, places) =~= side);
        lemma_cross_product(front, side);
        let good = any_pair();
        let pairs = choose|pairs: Seq<(int, int)>| joins(rows, pairs, front, side, good);
        let (a, b) = (columns_in(schemas, before), schemas[id]);
        let keys = equi_keys(none, a, b);
        assert forall|i: int, j: int| 0 <= i < front.len() && 0 <= j < places.len() implies (
        #[trigger] good(i, j) <==> key_of(left_keys(keys), front[i]) == key_of(
            right_keys(keys),
            side[places[j]],
        )) by {
            assert(key_of(left_keys(keys), front[i]) =~= key_of(
                right_keys(keys),
                side[places[j]],
            ));
        }
        assert forall|j: int| 0 <= j < side.len() && meets(
            none,
            b,
            side[j],
        ) implies #[trigger] places.contains(j) by {
            assert(places[j] == j);
        }
        assert(!before.contains(id));
        assert(some_sides(before, sides.len()));
        lemma_step(none, schemas, sides, before, front, combos, id, places, rows, pairs, good);
        let rest = residual(none, keys, a, b);
        assert(rest =~= none);
        lemma_filter_none(a + b, rows);
        assert(before.push(id) =~= order);
        let kept = kept_places(rest, a + b, rows);
        assert(rows_at(rows, kept) == rows);
        combos_joined(combos, places, pairs, kept)
    }
}

// ── Orders ───────────────────────────────────────────────────────────────────

/// A combination that is told in the order of the sides, told in another order.
pub open spec fn told_in(order: Seq<int>, combo: Seq<int>) -> Seq<int> {
    Seq::new(order.len(), |k: int| combo[order[k]])
}

/// The place of a side in an order.
pub open spec fn place_in(order: Seq<int>, i: int) -> int {
    choose|k: int| 0 <= k < order.len() && order[k] == i
}

/// A combination that is told in some order, told in the order of the sides.
pub open spec fn told_plain(order: Seq<int>, n: nat, combo: Seq<int>) -> Seq<int> {
    Seq::new(n, |i: int| combo[place_in(order, i)])
}

/// `n` different places among `n` are all places.
proof fn lemma_all_places(order: Seq<int>, n: nat)
    requires
        some_sides(order, n),
        order.len() == n,
    ensures
        forall|i: int| 0 <= i < n ==> #[trigger] order.contains(i),
{
    let set = order.to_set();
    let range = set_int_range(0, n as int);
    order.unique_seq_to_set();
    vstd::set_lib::lemma_int_range(0, n as int);
    assert forall|i: int| set.contains(i) implies #[trigger] range.contains(i) by {
        let k = choose|k: int| 0 <= k < order.len() && order[k] == i;
        assert(0 <= order[k] < n);
    }
    vstd::set_lib::lemma_subset_equality(set, range);
    assert forall|i: int| 0 <= i < n implies #[trigger] order.contains(i) by {
        assert(range.contains(i));
        assert(set.contains(i));
    }
}

/// No more different places than there are.
proof fn lemma_places_bound(places: Seq<int>, n: nat)
    requires
        distinct_places(places, n),
    ensures
        places.len() <= n,
{
    let set = places.to_set();
    let range = set_int_range(0, n as int);
    places.unique_seq_to_set();
    vstd::set_lib::lemma_int_range(0, n as int);
    assert forall|i: int| set.contains(i) implies #[trigger] range.contains(i) by {
        let k = choose|k: int| 0 <= k < places.len() && places[k] == i;
        assert(0 <= places[k] < n);
    }
    vstd::set_lib::lemma_len_subset(set, range);
}

/// Telling a combination in another order and back.
proof fn lemma_told(sides: Seq<Seq<RowModel>>, order: Seq<int>, t: Seq<int>)
    requires
        some_sides(order, sides.len()),
        order.len() == sides.len(),
        valid_combo(sides, order, t),
    ensures
        valid_combo(sides, first_places(sides.len()), told_plain(order, sides.len(), t)),
        told_in(order, told_plain(order, sides.len(), t)) == t,
{
    let n = sides.len();
    lemma_all_places(order, n);
    let plain = told_plain(order, n, t);
    assert forall|i: int| 0 <= i < n implies {
        let k = place_in(order, i);
        &&& 0 <= k < order.len()
        &&& order[k] == i
        &&& #[trigger] plain[i] == t[k]
    } by {
        assert(order.contains(i));
    }
    let all = first_places(n);
    assert forall|i: int| 0 <= i < all.len() implies 0 <= #[trigger] plain[i]
        < sides[all[i]].len() by {
        let k = place_in(order, i);
        assert(plain[i] == t[k]);
        assert(0 <= t[k] < sides[order[k]].len());
    }
    assert forall|k: int| 0 <= k < order.len() implies #[trigger] told_in(order, plain)[k]
        == t[k] by {
        let i = order[k];
        assert(0 <= order[k] < n);
        assert(plain[i] == t[place_in(order, i)]);
        assert(place_in(order, i) == k);
    }
    assert(told_in(order, plain) =~= t);
}

proof fn lemma_told_in_valid(sides: Seq<Seq<RowModel>>, order: Seq<int>, t: Seq<int>)
    requires
        some_sides(order, sides.len()),
        order.len() == sides.len(),
        valid_combo(sides, first_places(sides.len()), t),
    ensures
        valid_combo(sides, order, told_in(order, t)),
{
    let all = first_places(sides.len());
    assert forall|k: int| 0 <= k < order.len() implies 0 <= #[trigger] told_in(order, t)[k]
        < sides[order[k]].len() by {
        let i = order[k];
        assert(0 <= order[k] < sides.len());
        assert(0 <= t[i] < sides[all[i]].len());
    }
}

/// A combination has the same values under the same names in every order.
proof fn lemma_same_values(
    schemas: Seq<SchemaModel>,
    sides: Seq<Seq<RowModel>>,
    order: Seq<int>,
    t: Seq<int>,
    name: Seq<char>,
)
    requires
        sides_fit(schemas, sides),
        names_apart(schemas),
        some_sides(order, sides.len()),
        order.len() == sides.len(),
        valid_combo(sides, first_places(sides.len()), t),
    ensures
        value_named(columns_in(schemas, order), row_in(sides, order, told_in(order, t)), name)
            == value_named(
            cross_columns(schemas),
            row_in(sides, first_places(sides.len()), t),
            name,
        ),
{
    let n = sides.len();
    let all = first_places(n);
    let u = told_in(order, t);
    lemma_told_in_valid(sides, order, t);
    lemma_all_places(order, n);
    let x = lemma_named_side(schemas, sides, order, u, name);
    let y = lemma_named_side(schemas, sides, all, t, name);
    let a = column_of(columns_in(schemas, order), name);
    let b = column_of(columns_in(schemas, all), name);
    if a is Some && b is Some {
        let (i, j) = (order[x], all[y]);
        assert(0 <= order[x] < n);
        if i != j {
            crate::row::lemma_column_of(schemas[i], name);
            crate::row::lemma_column_of(schemas[j], name);
            let p = column_of(schemas[i], name)->0;
            let q = column_of(schemas[j], name)->0;
            assert(schemas[i][p].0 == schemas[j][q].0);
            assert(share_name(schemas[i], schemas[j]));
        }
        assert(u[x] == t[i]);
    } else if a is Some {
        assert(0 <= order[x] < n);
        assert(all[order[x]] == order[x]);
    } else if b is Some {
        assert(order.contains(all[y]));
        let k = choose|k: int| 0 <= k < order.len() && order[k] == all[y];
        assert(column_of(schemas[order[k]], name) is None);
    }
}

/// A combination meets the conditions in every order or in none.
proof fn lemma_same_meets(
    cs: Seq<Condition>,
    schemas: Seq<SchemaModel>,
    sides: Seq<Seq<RowModel>>,
    order: Seq<int>,
    t: Seq<int>,
)
    requires
        sides_fit(schemas, sides),
        names_apart(schemas),
        some_sides(order, sides.len()),
        order.len() == sides.len(),
        valid_combo(sides, first_places(sides.len()), t),
    ensures
        meets(cs, columns_in(schemas, order), row_in(sides, order, told_in(order, t))) <==> meets(
            cs,
            cross_columns(schemas),
            row_in(sides, first_places(sides.len()), t),
        ),
{
    let all = first_places(sides.len());
    let (a, x) = (columns_in(schemas, order), row_in(sides, order, told_in(order, t)));
    let (b, y) = (cross_columns(schemas), row_in(sides, all, t));
    assert forall|k: int| 0 <= k < cs.len() implies applies(#[trigger] cs[k], a) == applies(
        cs[k],
        b,
    ) && holds(cs[k], x, a) == holds(cs[k], y, b) by {
        let c = cs[k];
        lemma_same_values(schemas, sides, order, t, c.column);
        if let Operand::Column(name) = c.operand {
            lemma_same_values(schemas, sides, order, t, name);
        }
        lemma_holds_by_name(c, x, a, y, b);
    }
}

// ── The law ──────────────────────────────────────────────────────────────────

/// A row meets all conditions exactly where those that apply all hold.
proof fn lemma_meets_applicable(cs: Seq<Condition>, schema: SchemaModel, row: RowModel)
    ensures
        meets(cs, schema, row) <==> all_hold(applicable(cs, schema), row, schema) == Some(true),
{
    let picked = applicable(cs, schema);
    lemma_applicable(cs, schema);
    assert forall|k: int| 0 <= k < picked.len() implies applies(#[trigger] picked[k], schema) by {}
    lemma_all_hold(picked, schema, row);
    if meets(cs, schema, row) {
        assert forall|k: int| 0 <= k < picked.len() implies holds(#[trigger] picked[k], row, schema)
            == Some(true) by {
            let m = choose|m: int| 0 <= m < cs.len() && cs[m] == picked[k];
            assert(applies(cs[m], schema));
        }
    }
    if all_hold(picked, row, schema) == Some(true) {
        assert forall|k: int| 0 <= k < cs.len() && applies(#[trigger] cs[k], schema) implies holds(
            cs[k],
            row,
            schema,
        ) == Some(true) by {
            assert(picked.contains(cs[k]));
            let m = choose|m: int| 0 <= m < picked.len() && picked[m] == cs[k];
            assert(holds(picked[m], row, schema) == Some(true));
        }
    }
}

/// Filtering the cross product leaves the combinations that meet all conditions, each once.
proof fn lemma_filtered_cross_covers(
    cs: Seq<Condition>,
    schemas: Seq<SchemaModel>,
    sides: Seq<Seq<RowModel>>,
) -> (combos: Seq<Seq<int>>)
    requires
        sides_fit(schemas, sides),
        names_apart(schemas),
        widths_ok(schemas),
    ensures
        filtered_cross(cs, schemas, sides) is Some,
        covers(
            cs,
            schemas,
            sides,
            first_places(sides.len()),
            filtered_cross(cs, schemas, sides)->0,
            combos,
        ),
{
    let n = sides.len();
    let order = first_places(n);
    let columns = cross_columns(schemas);
    let picked = applicable(cs, columns);
    let all = lemma_cross_all(schemas, sides, n);
    assert(sides.take(n as int) =~= sides);
    let rows = cross_all(sides);
    lemma_applicable(cs, columns);
    assert forall|k: int| 0 <= k < picked.len() implies applies(#[trigger] picked[k], columns) by {}
    lemma_filter_tells(picked, columns, rows);
    lemma_filter_keeps(picked, columns, rows);
    let kept = kept_places(picked, columns, rows);
    let out = rows_at(rows, kept);
    let combos = Seq::new(kept.len(), |m: int| all[kept[m]]);
    assert forall|m: int| 0 <= m < combos.len() implies {
        let t = #[trigger] combos[m];
        &&& valid_combo(sides, order, t)
        &&& out[m] == row_in(sides, order, t)
    } by {
        assert(0 <= kept[m] < rows.len());
        let t = all[kept[m]];
    }
    assert forall|m: int| 0 <= m < out.len() implies meets(
        cs,
        columns_in(schemas, order),
        #[trigger] out[m],
    ) by {
        assert(0 <= kept[m] < rows.len());
        assert(kept.contains(kept[m]));
        lemma_meets_applicable(cs, columns, rows[kept[m]]);
    }
    assert forall|x: int, y: int|
        0 <= x < combos.len() && 0 <= y < combos.len() && x != y implies combos[x]
        != combos[y] by {
        assert(kept[x] != kept[y]);
        assert(0 <= kept[x] < rows.len() && 0 <= kept[y] < rows.len());
    }
    assert forall|t: Seq<int>|
        valid_combo(sides, order, t) && meets(
            cs,
            columns_in(schemas, order),
            row_in(sides, order, t),
        ) implies #[trigger] combos.contains(t) by {
        assert(meets(Seq::empty(), columns_in(schemas, order), row_in(sides, order, t)));
        assert(all.contains(t));
        let k = choose|k: int| 0 <= k < all.len() && all[k] == t;
        assert(valid_combo(sides, order, all[k]));
        lemma_meets_applicable(cs, columns, rows[k]);
        assert(kept.contains(k));
        let m = choose|m: int| 0 <= m < kept.len() && kept[m] == k;
        assert(combos[m] == t);
    }
    combos
}

/// A planned join gives the rows that filtering the cross product of its sides would give,
/// up to the order of the rows and of the columns: the order in which the sides are joined,
/// the pushing down of conditions, and whether rows are joined by their keys or not, change
/// nothing else. Left out are sides that share a column name, which are not planned so, and
/// values of join columns that are equal without being the same, or the same without being
/// equal: the two zeros, and NaN.
pub proof fn lemma_join_is_filtered_cross(
    cs: Seq<Condition>,
    leaves: Seq<LeafPlan>,
    block_size: nat,
    d: DiskModel,
) -> (places: Seq<int>)
    requires
        joinable(cs, leaves, d),
        all_sound(leaves),
        cross_columns(schemas_of(leaves)).len() <= usize::MAX,
        join_plan(cs, leaves, block_size).rows(d) is Some,
    ensures
        filtered_cross(cs, schemas_of(leaves), sides_of(leaves, d)) is Some,
        same_answer(
            join_plan(cs, leaves, block_size).columns(),
            join_plan(cs, leaves, block_size).rows(d)->0,
            cross_columns(schemas_of(leaves)),
            filtered_cross(cs, schemas_of(leaves), sides_of(leaves, d))->0,
            places,
        ),
{
    let (schemas, sides) = (schemas_of(leaves), sides_of(leaves, d));
    let plan = join_plan(cs, leaves, block_size);
    let out = plan.rows(d)->0;
    let n = sides.len();
    let all = first_places(n);
    lemma_names_apart(leaves);
    lemma_sides_fit(leaves, d);
    lemma_widths(schemas);
    let (order, combos) = lemma_join_covers(cs, leaves, block_size, d);
    let plain = lemma_filtered_cross_covers(cs, schemas, sides);
    let rows = filtered_cross(cs, schemas, sides)->0;
    let places = Seq::new(
        out.len(),
        |m: int| choose|k: int| 0 <= k < plain.len() && plain[k] == told_plain(order, n, combos[m]),
    );
    assert forall|m: int| 0 <= m < out.len() implies {
        &&& 0 <= #[trigger] places[m] < rows.len()
        &&& plain[places[m]] == told_plain(order, n, combos[m])
        &&& valid_combo(sides, all, plain[places[m]])
        &&& told_in(order, plain[places[m]]) == combos[m]
    } by {
        let u = combos[m];
        let t = told_plain(order, n, u);
        assert(valid_combo(sides, order, u));
        lemma_told(sides, order, u);
        lemma_same_meets(cs, schemas, sides, order, t);
        assert(meets(cs, columns_in(schemas, order), out[m]));
        assert(plain.contains(t));
    }
    assert forall|x: int, y: int|
        0 <= x < places.len() && 0 <= y < places.len() && x != y implies places[x]
        != places[y] by {
        assert(combos[x] != combos[y]);
        assert(told_in(order, plain[places[x]]) == combos[x]);
        assert(told_in(order, plain[places[y]]) == combos[y]);
    }
    lemma_places_bound(places, rows.len());
    // The other way round, so that no row is left over.
    let back = Seq::new(
        rows.len(),
        |k: int| choose|m: int| 0 <= m < combos.len() && combos[m] == told_in(order, plain[k]),
    );
    assert forall|k: int| 0 <= k < rows.len() implies {
        &&& 0 <= #[trigger] back[k] < out.len()
        &&& combos[back[k]] == told_in(order, plain[k])
    } by {
        let t = plain[k];
        assert(valid_combo(sides, all, t));
        lemma_told_in_valid(sides, order, t);
        lemma_same_meets(cs, schemas, sides, order, t);
        assert(meets(cs, columns_in(schemas, all), rows[k]));
        assert(combos.contains(told_in(order, t)));
    }
    assert forall|x: int, y: int|
        0 <= x < back.len() && 0 <= y < back.len() && x != y implies back[x] != back[y] by {
        if back[x] == back[y] {
            let (s, t) = (plain[x], plain[y]);
            assert(told_in(order, s) == told_in(order, t)) by {
                assert(combos[back[x]] == told_in(order, s));
                assert(combos[back[y]] == told_in(order, t));
            }
            assert(valid_combo(sides, all, s) && valid_combo(sides, all, t));
            lemma_all_places(order, n);
            assert forall|i: int| 0 <= i < n implies s[i] == t[i] by {
                assert(order.contains(i));
                let k = choose|k: int| 0 <= k < order.len() && order[k] == i;
                assert(told_in(order, s)[k] == told_in(order, t)[k]);
            }
            assert(s =~= t);
        }
    }
    lemma_places_bound(back, out.len());
    assert forall|m: int, name: Seq<char>| 0 <= m < out.len() implies #[trigger] value_named(
        plan.columns(),
        out[m],
        name,
    ) == value_named(cross_columns(schemas), rows[places[m]], name) by {
        let t = plain[places[m]];
        assert(0 <= places[m] < rows.len());
        assert(valid_combo(sides, order, combos[m]));
        lemma_same_values(schemas, sides, order, t, name);
    }
    places
}

} // verus!
