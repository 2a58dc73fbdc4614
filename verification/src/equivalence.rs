//! When two relations say the same of the query variables.

use vstd::prelude::*;
use crate::cursor::has_child;
use crate::env::Assignment;
use crate::fact::{
    forces, gives, holds_of, is_choice, is_new, is_scoped, is_unifier_row, is_whole, is_wild,
    lemma_new_vars_take, new_vars, settles, slot, solves, well_scoped, Relation,
};
use crate::factor::{
    columns_at, has_columns, is_forward, joined, lemma_columns_unique, lemma_joined_spells,
    lemma_joined_take,
};
use crate::order::{is_prefix, lemma_prefix_refl};
use crate::path_set::{lemma_prefixes_closed, prefixes};
use crate::reindex::{
    is_moved_fact, is_simple, is_stable_order, lemma_reordered, lemma_simple_emitted, permuted,
    re_emitted, reordered, starts_with, values_simple,
};
use crate::term::{holds, is_ground, is_term, lemma_term_nonempty};
use crate::trie::prefix_closed;

verus! {

/// `cols` is a fact of the relation.
pub open spec fn is_fact(r: Relation, cols: Seq<Seq<u8>>) -> bool {
    &&& cols.len() == r.vars.len()
    &&& columns_at(r.paths, r.prefix, cols)
}

/// The two facts hold of the same assignments.
pub open spec fn says_same(
    vars: Seq<usize>,
    cols: Seq<Seq<u8>>,
    other_vars: Seq<usize>,
    other_cols: Seq<Seq<u8>>,
) -> bool {
    forall|q: Assignment| #[trigger]
        holds_of(vars, cols, q) == holds_of(other_vars, other_cols, q)
}

/// For every fact of `a` there is a fact of `b` that says the same.
pub open spec fn is_covered(a: Relation, b: Relation) -> bool {
    forall|cols: Seq<Seq<u8>>| #[trigger]
        is_fact(a, cols) ==> exists|other: Seq<Seq<u8>>| #[trigger]
            is_fact(b, other) && says_same(a.vars, cols, b.vars, other)
}

/// The relations say the same, one by one.
pub open spec fn all_equivalent(a: Seq<Relation>, b: Seq<Relation>) -> bool {
    a.len() == b.len() && forall|f: int|
        0 <= f < a.len() ==> is_covered(#[trigger] a[f], b[f]) && is_covered(b[f], a[f])
}

/// A fact of `b` that says the same as the fact `cols` of `a`.
spec fn counterpart(a: Relation, b: Relation, cols: Seq<Seq<u8>>) -> Seq<Seq<u8>> {
    choose|other: Seq<Seq<u8>>| #[trigger]
        is_fact(b, other) && says_same(a.vars, cols, b.vars, other)
}

/// An answer over some relations is an answer over relations that cover them.
pub proof fn lemma_rows_covered(
    a: Seq<Relation>,
    b: Seq<Relation>,
    nvars: nat,
    row: Seq<Option<Seq<u8>>>,
)
    requires
        a.len() == b.len(),
        forall|f: int| 0 <= f < a.len() ==> is_covered(#[trigger] a[f], b[f]),
        is_unifier_row(a, nvars, row),
    ensures
        is_unifier_row(b, nvars, row),
{
    let choice = choose|choice: Seq<Seq<Seq<u8>>>| #[trigger]
        is_choice(a, choice) && gives(a, choice, nvars, row);
    let other = Seq::new(a.len(), |f: int| counterpart(a[f], b[f], choice[f]));
    assert forall|f: int| 0 <= f < a.len() implies is_fact(b[f], #[trigger] other[f]) && says_same(
        a[f].vars,
        choice[f],
        b[f].vars,
        other[f],
    ) by {
        assert(choice[f].len() == a[f].vars.len());
        assert(is_fact(a[f], choice[f]));
        assert(is_covered(a[f], b[f]));
    }
    lemma_choice_carries(a, choice, b, other, nvars, row);
}

/// Facts that say the same, one for one, give the same row.
pub proof fn lemma_choice_carries(
    a: Seq<Relation>,
    choice: Seq<Seq<Seq<u8>>>,
    b: Seq<Relation>,
    other: Seq<Seq<Seq<u8>>>,
    nvars: nat,
    row: Seq<Option<Seq<u8>>>,
)
    requires
        a.len() == b.len() == other.len(),
        is_choice(a, choice),
        gives(a, choice, nvars, row),
        forall|f: int|
            0 <= f < a.len() ==> is_fact(b[f], #[trigger] other[f]) && says_same(
                a[f].vars,
                choice[f],
                b[f].vars,
                other[f],
            ),
    ensures
        is_choice(b, other),
        gives(b, other, nvars, row),
{
    assert(is_choice(b, other)) by {
        assert forall|f: int| 0 <= f < b.len() implies (#[trigger] other[f]).len()
            == b[f].vars.len() && columns_at(b[f].paths, b[f].prefix, other[f]) by {
            assert(is_fact(b[f], other[f]));
        }
    }
    assert forall|q: Assignment| #[trigger] solves(b, other, q) == solves(a, choice, q) by {
        if solves(a, choice, q) {
            assert forall|f: int| 0 <= f < b.len() implies holds_of(
                b[f].vars,
                #[trigger] other[f],
                q,
            ) by {
                assert(holds_of(a[f].vars, choice[f], q));
                assert(says_same(a[f].vars, choice[f], b[f].vars, other[f]));
            }
        }
        if solves(b, other, q) {
            assert forall|f: int| 0 <= f < a.len() implies holds_of(
                a[f].vars,
                #[trigger] choice[f],
                q,
            ) by {
                assert(holds_of(b[f].vars, other[f], q));
                assert(says_same(a[f].vars, choice[f], b[f].vars, other[f]));
                assert(holds_of(a[f].vars, choice[f], q) == holds_of(b[f].vars, other[f], q));
            }
        }
    }
    lemma_same_gives(a, choice, b, other, nvars, row);
}

/// Choices that the same assignments satisfy give the same rows.
pub proof fn lemma_same_gives(
    a: Seq<Relation>,
    choice: Seq<Seq<Seq<u8>>>,
    b: Seq<Relation>,
    other: Seq<Seq<Seq<u8>>>,
    nvars: nat,
    row: Seq<Option<Seq<u8>>>,
)
    requires
        gives(a, choice, nvars, row),
        forall|q: Assignment| #[trigger] solves(b, other, q) == solves(a, choice, q),
    ensures
        gives(b, other, nvars, row),
{
    assert forall|v: int, g: Seq<u8>| #[trigger] forces(b, other, v, g) == forces(
        a,
        choice,
        v,
        g,
    ) by {
        if forces(a, choice, v, g) {
            assert forall|q: Assignment| #[trigger] solves(b, other, q) implies q(v) == g by {
                assert(solves(a, choice, q));
            }
        }
        if forces(b, other, v, g) {
            assert forall|q: Assignment| #[trigger] solves(a, choice, q) implies q(v) == g by {
                assert(solves(b, other, q));
            }
        }
    }
    assert(gives(b, other, nvars, row)) by {
        let q = choose|q: Assignment| #[trigger] solves(a, choice, q);
        assert(solves(b, other, q));
        assert forall|v: int| 0 <= v < nvars implies settles(b, other, v, #[trigger] row[v]) by {
            assert(settles(a, choice, v, row[v]));
            match row[v] {
                Some(g) => {
                    assert(forces(b, other, v, g) == forces(a, choice, v, g));
                },
                None => {
                    assert forall|g: Seq<u8>| !forces(b, other, v, g) by {
                        assert(forces(b, other, v, g) == forces(a, choice, v, g));
                    }
                },
            }
        }
    }
}

/// A conjunction has the same answers over relations that say the same.
pub proof fn lemma_equivalent_rows(
    a: Seq<Relation>,
    b: Seq<Relation>,
    nvars: nat,
    row: Seq<Option<Seq<u8>>>,
)
    requires
        all_equivalent(a, b),
    ensures
        is_unifier_row(a, nvars, row) == is_unifier_row(b, nvars, row),
{
    if is_unifier_row(a, nvars, row) {
        lemma_rows_covered(a, b, nvars, row);
    }
    if is_unifier_row(b, nvars, row) {
        assert forall|f: int| 0 <= f < b.len() implies is_covered(#[trigger] b[f], a[f]) by {
            assert(is_covered(a[f], b[f]) && is_covered(b[f], a[f]));
        }
        lemma_rows_covered(b, a, nvars, row);
    }
}

/// A relation says the same as itself.
pub proof fn lemma_covered_refl(r: Relation)
    ensures
        is_covered(r, r),
{
    assert forall|cols: Seq<Seq<u8>>| #[trigger] is_fact(r, cols) implies exists|
        other: Seq<Seq<u8>>,
    | #[trigger]
        is_fact(r, other) && says_same(r.vars, cols, r.vars, other) by {
        assert(says_same(r.vars, cols, r.vars, cols));
    }
}

/// Every fact of the relation is stored as a value.
pub open spec fn all_stored(values: Set<Seq<u8>>, r: Relation) -> bool {
    forall|cols: Seq<Seq<u8>>|
        cols.len() == r.vars.len() && #[trigger] columns_at(r.paths, r.prefix, cols) ==> exists|
            v: Seq<u8>,
        | #[trigger]
            values.contains(v) && starts_with(r.prefix, r.vars.len(), v, cols)
}

/// A relation and its re-indexed copy.
pub open spec fn is_reindex(
    values: Set<Seq<u8>>,
    r: Relation,
    order: Seq<usize>,
    keys: Set<Seq<u8>>,
    copy: Relation,
) -> bool {
    &&& values_simple(values, r.prefix, r.vars.len())
    &&& prefix_closed(r.paths)
    &&& values.subset_of(r.paths)
    &&& r.vars.len() > 0
    &&& crate::reindex::is_column_order(order, r.vars.len())
    &&& forall|key: Seq<u8>| #[trigger]
        keys.contains(key) == is_moved_fact(values, r.prefix, order, key)
    &&& copy.paths == prefixes(keys)
    &&& copy.prefix.len() == 0
    &&& copy.vars == permuted(r.vars, order)
}

/// Columns that a value has are simple, since the value's columns are.
proof fn lemma_value_simple(values: Set<Seq<u8>>, r: Relation, v: Seq<u8>, cols: Seq<Seq<u8>>)
    requires
        values_simple(values, r.prefix, r.vars.len()),
        r.vars.len() > 0,
        values.contains(v),
        starts_with(r.prefix, r.vars.len(), v, cols),
    ensures
        is_simple(cols),
        v != r.prefix,
        is_prefix(r.prefix, v),
{
    let n = r.vars.len() as int;
    crate::reindex::lemma_rest_prefix(r.prefix, joined(cols), v);
    lemma_joined_take(cols, 1);
    assert(is_prefix(joined(cols.take(1)), joined(cols)));
    assert(cols.take(1).drop_last() =~= Seq::<Seq<u8>>::empty());
    assert(joined(cols.take(1)) =~= cols[0]) by {
        assert(cols.take(1).last() == cols[0]);
        assert(joined(cols.take(1).drop_last()) =~= Seq::<u8>::empty());
    }
    lemma_term_nonempty(cols[0]);
    assert(v != r.prefix);
    let simple = choose|simple: Seq<Seq<u8>>| #[trigger]
        starts_with(r.prefix, r.vars.len(), v, simple) && is_simple(simple);
    crate::reindex::lemma_rest_prefix(r.prefix, joined(simple), v);
    lemma_columns_unique(simple, cols, v.skip(r.prefix.len() as int));
}

/// The key that a prefix of the copy comes from.
proof fn lemma_key_of(
    values: Set<Seq<u8>>,
    r: Relation,
    order: Seq<usize>,
    keys: Set<Seq<u8>>,
    copy: Relation,
    w: Seq<u8>,
) -> (cols: Seq<Seq<u8>>)
    requires
        is_reindex(values, r, order, keys, copy),
        copy.paths.contains(copy.prefix + w),
    ensures
        is_fact(r, cols),
        is_simple(cols),
        is_prefix(w, joined(reordered(cols, order))),
        keys.contains(joined(reordered(cols, order))),
{
    assert(copy.prefix + w =~= w);
    let key = choose|key: Seq<u8>| #[trigger] keys.contains(key) && is_prefix(w, key);
    assert(is_moved_fact(values, r.prefix, order, key));
    let (v, cols) = choose|v: Seq<u8>, cols: Seq<Seq<u8>>| #[trigger]
        values.contains(v) && v != r.prefix && #[trigger] starts_with(
            r.prefix,
            order.len(),
            v,
            cols,
        ) && key == re_emitted(cols, order);
    lemma_value_simple(values, r, v, cols);
    lemma_simple_emitted(cols, order);
    assert(r.paths.contains(v));
    assert(columns_at(r.paths, r.prefix, cols));
    cols
}

/// The first columns of a fact refer back to no more than the fact does.
pub proof fn lemma_well_scoped_take(cols: Seq<Seq<u8>>, m: int)
    requires
        well_scoped(cols),
        0 <= m <= cols.len(),
    ensures
        well_scoped(cols.take(m)),
{
    let front = cols.take(m);
    assert forall|j: int| 0 <= j < front.len() implies is_wild(#[trigger] front[j]) || is_ground(
        front[j],
    ) by {
        assert(front[j] == cols[j]);
    }
    assert forall|j: int| 0 <= j < front.len() && is_wild(#[trigger] front[j]) && !is_new(
        front[j],
    ) implies slot(front, j) < new_vars(front, j) by {
        assert(front[j] == cols[j]);
        lemma_new_vars_take(cols, m, j);
    }
}

/// A stored fact of the relation, and the same fact in the copy.
pub proof fn lemma_fact_moved(
    values: Set<Seq<u8>>,
    r: Relation,
    order: Seq<usize>,
    keys: Set<Seq<u8>>,
    copy: Relation,
    v: Seq<u8>,
    cols: Seq<Seq<u8>>,
)
    requires
        is_reindex(values, r, order, keys, copy),
        values.contains(v),
        starts_with(r.prefix, r.vars.len(), v, cols),
    ensures
        is_fact(copy, reordered(cols, order)),
        says_same(r.vars, cols, copy.vars, reordered(cols, order)),
{
    lemma_value_simple(values, r, v, cols);
    let other = reordered(cols, order);
    let key = joined(other);
    lemma_simple_emitted(cols, order);
    assert(is_moved_fact(values, r.prefix, order, key));
    assert(keys.contains(key));
    lemma_prefix_refl(key);
    assert(copy.prefix + key =~= key);
    lemma_reordered(r.vars, cols, order, |x: int| Seq::empty());
    assert forall|q: Assignment| #[trigger] holds_of(r.vars, cols, q) == holds_of(
        copy.vars,
        other,
        q,
    ) by {
        lemma_reordered(r.vars, cols, order, q);
    }
}

/// A fact of the copy, and the fact of the relation that it was made of.
proof fn lemma_fact_back(
    values: Set<Seq<u8>>,
    r: Relation,
    order: Seq<usize>,
    keys: Set<Seq<u8>>,
    copy: Relation,
    other: Seq<Seq<u8>>,
) -> (cols: Seq<Seq<u8>>)
    requires
        is_reindex(values, r, order, keys, copy),
        is_fact(copy, other),
    ensures
        is_fact(r, cols),
        says_same(copy.vars, other, r.vars, cols),
{
    let cols = lemma_key_of(values, r, order, keys, copy, joined(other));
    let moved = reordered(cols, order);
    lemma_reordered(r.vars, cols, order, |x: int| Seq::empty());
    lemma_prefix_refl(joined(moved));
    lemma_columns_unique(other, moved, joined(moved));
    assert forall|q: Assignment| #[trigger] holds_of(copy.vars, other, q) == holds_of(
        r.vars,
        cols,
        q,
    ) by {
        lemma_reordered(r.vars, cols, order, q);
    }
    cols
}

/// An incomplete prefix of a key goes on.
pub proof fn lemma_key_goes_on(keys: Set<Seq<u8>>, key: Seq<u8>, n: nat, w: Seq<u8>)
    requires
        keys.contains(key),
        holds(n, key),
        is_prefix(w, key),
        !holds(n, w),
    ensures
        has_child(prefixes(keys), w),
{
    assert(key.take(key.len() as int) =~= key);
    assert(w.len() < key.len());
    let b = key[w.len() as int];
    assert(w.push(b) =~= key.take(w.len() as int + 1));
    assert(is_prefix(w.push(b), key));
    assert(prefixes(keys).contains(w.push(b)));
}

/// A path of the copy that is not complete goes on.
proof fn lemma_copy_goes_on(
    values: Set<Seq<u8>>,
    r: Relation,
    order: Seq<usize>,
    keys: Set<Seq<u8>>,
    copy: Relation,
    w: Seq<u8>,
)
    requires
        is_reindex(values, r, order, keys, copy),
        copy.paths.contains(copy.prefix + w),
        !holds(r.vars.len(), w),
    ensures
        has_child(copy.paths, copy.prefix + w),
{
    let cols = lemma_key_of(values, r, order, keys, copy, w);
    let moved = reordered(cols, order);
    lemma_reordered(r.vars, cols, order, |x: int| Seq::empty());
    lemma_joined_spells(moved);
    assert(copy.prefix + w =~= w);
    lemma_key_goes_on(keys, joined(moved), r.vars.len(), w);
}

/// The columns along a path of the copy refer back only to variables introduced before.
proof fn lemma_copy_scoped(
    values: Set<Seq<u8>>,
    r: Relation,
    order: Seq<usize>,
    keys: Set<Seq<u8>>,
    copy: Relation,
    cols: Seq<Seq<u8>>,
)
    requires
        is_reindex(values, r, order, keys, copy),
        cols.len() <= copy.vars.len(),
        columns_at(copy.paths, copy.prefix, cols),
    ensures
        well_scoped(cols),
{
    let fact = lemma_key_of(values, r, order, keys, copy, joined(cols));
    let moved = reordered(fact, order);
    let m = cols.len() as int;
    lemma_reordered(r.vars, fact, order, |x: int| Seq::empty());
    lemma_joined_take(moved, m);
    assert forall|j: int| 0 <= j < m implies is_term(#[trigger] moved.take(m)[j]) by {
        assert(moved.take(m)[j] == moved[j]);
    }
    lemma_columns_unique(cols, moved.take(m), joined(moved));
    lemma_well_scoped_take(moved, m);
}

/// Re-indexing keeps the answers: the copy says nothing but what the relation says, and says all of
/// it where every fact is stored; and the copy can be read column by column.
pub proof fn lemma_reindex(
    values: Set<Seq<u8>>,
    r: Relation,
    order: Seq<usize>,
    keys: Set<Seq<u8>>,
    copy: Relation,
)
    requires
        is_reindex(values, r, order, keys, copy),
    ensures
        all_stored(values, r) ==> is_covered(r, copy),
        is_covered(copy, r),
        is_scoped(copy),
        is_whole(copy),
{
    lemma_prefixes_closed(keys);
    assert forall|cols: Seq<Seq<u8>>|
        all_stored(values, r) && #[trigger] is_fact(r, cols) implies exists|
        other: Seq<Seq<u8>>,
    | #[trigger]
        is_fact(copy, other) && says_same(r.vars, cols, copy.vars, other) by {
        let v = choose|v: Seq<u8>| #[trigger]
            values.contains(v) && starts_with(r.prefix, r.vars.len(), v, cols);
        lemma_fact_moved(values, r, order, keys, copy, v, cols);
    }
    assert forall|other: Seq<Seq<u8>>| #[trigger] is_fact(copy, other) implies exists|
        cols: Seq<Seq<u8>>,
    | #[trigger]
        is_fact(r, cols) && says_same(copy.vars, other, r.vars, cols) by {
        let cols = lemma_fact_back(values, r, order, keys, copy, other);
    }
    assert(has_columns(copy.paths, copy.prefix, copy.vars.len())) by {
        assert forall|w: Seq<u8>| #[trigger]
            copy.paths.contains(copy.prefix + w) && !holds(copy.vars.len(), w) implies has_child(
            copy.paths,
            copy.prefix + w,
        ) by {
            lemma_copy_goes_on(values, r, order, keys, copy, w);
        }
    }
    assert forall|cols: Seq<Seq<u8>>|
        cols.len() <= copy.vars.len() && #[trigger] columns_at(
            copy.paths,
            copy.prefix,
            cols,
        ) implies well_scoped(cols) by {
        lemma_copy_scoped(values, r, order, keys, copy, cols);
    }
}

/// The stable order puts the columns in the order of the variables.
pub proof fn lemma_permuted_forward(vars: Seq<usize>, order: Seq<usize>, pos: Seq<usize>)
    requires
        is_stable_order(order, vars, pos),
    ensures
        is_forward(permuted(vars, order), pos),
{
    let p = permuted(vars, order);
    assert forall|a: int, b: int|
        #![trigger p[a], p[b]]
        0 <= a < b < p.len() implies pos[p[a] as int] <= pos[p[b] as int] by {
        assert(order[a] < vars.len() && order[b] < vars.len());
    }
}

} // verus!
