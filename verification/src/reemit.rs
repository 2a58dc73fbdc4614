//! What re-emission keeps: a fact in a new column order is a fact again, and can be brought back.

use vstd::prelude::*;
use crate::factor::{joined, lemma_columns_unique, lemma_joined_push};
use crate::order::lemma_prefix_refl;
use crate::reindex::{
    decoded, emitted, emitted_byte, flat, is_column_order, is_numberable, item_at,
    lemma_column_place, lemma_few_seen, lemma_flat_take, lemma_new_before_mono, lemma_new_tags_mono,
    lemma_seen_distinct, lemma_small_ids, new_before, new_tags, re_emitted, seen, Item,
};
use crate::term::{is_term, is_var_tag, lemma_run_push, lemma_term_nonempty, run, tag_at};

verus! {

/// Where column `p` of the new order starts among the items.
pub open spec fn start_of(cols: Seq<Seq<u8>>, order: Seq<usize>, p: int) -> int {
    flat(decoded(cols), order, p).len() as int
}

/// The items of the fact in the new column order.
pub open spec fn items_in(cols: Seq<Seq<u8>>, order: Seq<usize>) -> Seq<Item> {
    flat(decoded(cols), order, order.len() as int)
}

/// The columns of the re-emitted fact.
pub open spec fn moved(cols: Seq<Seq<u8>>, order: Seq<usize>) -> Seq<Seq<u8>> {
    Seq::new(
        order.len(),
        |p: int|
            Seq::new(
                cols[order[p] as int].len(),
                |i: int| emitted_byte(items_in(cols, order), start_of(cols, order, p) + i),
            ),
    )
}

/// A fact in canonical form: its columns are complete, it has few enough variables to number them,
/// and every reference comes after the introduction that it refers to.
pub open spec fn is_canonical(cols: Seq<Seq<u8>>) -> bool {
    &&& is_numberable(cols)
    &&& forall|c: int, i: int|
        #![trigger cols[c][i]]
        0 <= c < cols.len() && 0 <= i < cols[c].len() && tag_at(cols[c], i) && 0x80 <= cols[c][i]
            < 0xC0 ==> cols[c][i] - 0x80 < new_before(cols, c) + new_tags(cols[c], i)
}

/// The columns in the order they are in.
pub open spec fn same_order(n: nat) -> Seq<usize> {
    Seq::new(n, |c: int| c as usize)
}

/// `back` undoes `order`.
pub open spec fn undoes(back: Seq<usize>, order: Seq<usize>) -> bool {
    &&& back.len() == order.len()
    &&& forall|c: int| 0 <= c < back.len() ==> (#[trigger] back[c]) < order.len() && order[back[c] as int]
        == c
}

/// Item `i` of column `p` stands where the column starts, and `i` further on.
proof fn lemma_flat_at(cols: Seq<Seq<u8>>, order: Seq<usize>, p: int, i: int)
    requires
        0 <= p < order.len(),
        is_column_order(order, cols.len()),
        0 <= i < cols[order[p] as int].len(),
    ensures
        0 <= start_of(cols, order, p) + i < items_in(cols, order).len(),
        items_in(cols, order)[start_of(cols, order, p) + i] == decoded(cols)[order[p] as int][i],
        start_of(cols, order, p + 1) == start_of(cols, order, p) + cols[order[p] as int].len(),
{
    let items = decoded(cols);
    let n = order.len() as int;
    lemma_flat_take(items, order, p + 1, n);
    let next = flat(items, order, p + 1);
    let k = start_of(cols, order, p) + i;
    assert(next[k] == items[order[p] as int][i]);
    assert(flat(items, order, n).take(next.len() as int)[k] == flat(items, order, n)[k]);
}

proof fn lemma_start_next(cols: Seq<Seq<u8>>, order: Seq<usize>, p: int)
    requires
        0 <= p < order.len(),
        is_column_order(order, cols.len()),
    ensures
        start_of(cols, order, p + 1) == start_of(cols, order, p) + cols[order[p] as int].len(),
        start_of(cols, order, p + 1) <= items_in(cols, order).len(),
{
    lemma_flat_take(decoded(cols), order, p + 1, order.len() as int);
}

/// The re-emitted bytes are the re-emitted columns, one after the other.
proof fn lemma_moved_joined(cols: Seq<Seq<u8>>, order: Seq<usize>, p: int)
    requires
        is_column_order(order, cols.len()),
        0 <= p <= order.len(),
    ensures
        joined(moved(cols, order).take(p)) == emitted(items_in(cols, order)).take(
            start_of(cols, order, p),
        ),
    decreases p,
{
    let re = moved(cols, order);
    let all = emitted(items_in(cols, order));
    if p == 0 {
        assert(joined(re.take(0)) =~= all.take(0));
    } else {
        lemma_moved_joined(cols, order, p - 1);
        lemma_start_next(cols, order, p - 1);
        assert(re.take(p) =~= re.take(p - 1).push(re[p - 1]));
        lemma_joined_push(re.take(p - 1), re[p - 1]);
        let a = start_of(cols, order, p - 1);
        let b = start_of(cols, order, p);
        assert(all.take(b) =~= all.take(a) + re[p - 1]);
    }
}

/// Bytes that differ only in which variable a variable's tag names spell the same shape.
proof fn lemma_same_shape(w: Seq<u8>, v: Seq<u8>, i: int)
    requires
        w.len() == v.len(),
        0 <= i <= w.len(),
        forall|j: int|
            0 <= j < w.len() ==> #[trigger] v[j] == w[j] || tag_at(w, j) && is_var_tag(w[j])
                && is_var_tag(v[j]),
    ensures
        run((1, 0), v.take(i)) == run((1, 0), w.take(i)),
    decreases i,
{
    if i == 0 {
        assert(v.take(0) =~= w.take(0));
    } else {
        lemma_same_shape(w, v, i - 1);
        assert(v.take(i) =~= v.take(i - 1).push(v[i - 1]));
        assert(w.take(i) =~= w.take(i - 1).push(w[i - 1]));
        lemma_run_push((1, 0), v.take(i - 1), v[i - 1]);
        lemma_run_push((1, 0), w.take(i - 1), w[i - 1]);
        assert(v[i - 1] == w[i - 1] || tag_at(w, i - 1) && is_var_tag(w[i - 1]) && is_var_tag(
            v[i - 1],
        ));
    }
}

/// What one byte of a re-emitted column is.
proof fn lemma_moved_byte(cols: Seq<Seq<u8>>, order: Seq<usize>, p: int, i: int)
    requires
        is_numberable(cols),
        is_column_order(order, cols.len()),
        0 <= p < order.len(),
        0 <= i < cols[order[p] as int].len(),
    ensures
        ({
            let w = cols[order[p] as int];
            let k = start_of(cols, order, p) + i;
            let before = seen(items_in(cols, order), k);
            let b = moved(cols, order)[p][i];
            match decoded(cols)[order[p] as int][i] {
                Item::Byte(x) => b == w[i] && !(tag_at(w, i) && is_var_tag(w[i])),
                Item::Var(id) => {
                    &&& tag_at(w, i)
                    &&& is_var_tag(w[i])
                    &&& is_var_tag(b)
                    &&& b == 0xC0 <==> !before.contains(id)
                    &&& before.contains(id) ==> b == 0x80 + before.index_of(id)
                        && before.index_of(id) < before.len() <= 64
                },
            }
        }),
{
    let k = start_of(cols, order, p) + i;
    lemma_flat_at(cols, order, p, i);
    lemma_few_seen(cols, order, k);
    lemma_small_ids(cols, order[p] as int, i);
}

/// The re-emitted columns have the shapes of the columns.
proof fn lemma_moved_shape(cols: Seq<Seq<u8>>, order: Seq<usize>, p: int)
    requires
        is_numberable(cols),
        is_column_order(order, cols.len()),
        0 <= p < order.len(),
    ensures
        moved(cols, order)[p].len() == cols[order[p] as int].len(),
        is_term(moved(cols, order)[p]),
        forall|i: int|
            0 <= i < moved(cols, order)[p].len() ==> #[trigger] tag_at(moved(cols, order)[p], i)
                == tag_at(cols[order[p] as int], i),
{
    let w = cols[order[p] as int];
    let v = moved(cols, order)[p];
    assert forall|j: int| 0 <= j < w.len() implies #[trigger] v[j] == w[j] || tag_at(w, j)
        && is_var_tag(w[j]) && is_var_tag(v[j]) by {
        lemma_moved_byte(cols, order, p, j);
    }
    assert forall|i: int| 0 <= i < v.len() implies #[trigger] tag_at(v, i) == tag_at(w, i) by {
        lemma_same_shape(w, v, i);
    }
    assert(is_term(w));
    lemma_term_nonempty(w);
    lemma_same_shape(w, v, w.len() as int);
    lemma_same_shape(w, v, w.len() - 1);
    assert(v.take(w.len() as int) =~= v && w.take(w.len() as int) =~= w);
    assert(v.drop_last() =~= v.take(w.len() - 1) && w.drop_last() =~= w.take(w.len() - 1));
}

/// The variables introduced so far are those seen so far.
proof fn lemma_moved_count(cols: Seq<Seq<u8>>, order: Seq<usize>, p: int, i: int)
    requires
        is_numberable(cols),
        is_column_order(order, cols.len()),
        0 <= p < order.len(),
        0 <= i <= cols[order[p] as int].len(),
    ensures
        new_before(moved(cols, order), p) + new_tags(moved(cols, order)[p], i) == seen(
            items_in(cols, order),
            start_of(cols, order, p) + i,
        ).len(),
    decreases p, i,
{
    let re = moved(cols, order);
    let f = items_in(cols, order);
    if i > 0 {
        lemma_moved_count(cols, order, p, i - 1);
        lemma_flat_at(cols, order, p, i - 1);
        lemma_moved_byte(cols, order, p, i - 1);
        lemma_moved_shape(cols, order, p);
        assert(tag_at(re[p], i - 1) == tag_at(cols[order[p] as int], i - 1));
    } else if p > 0 {
        let n = cols[order[p - 1] as int].len() as int;
        lemma_moved_count(cols, order, p - 1, n);
        lemma_start_next(cols, order, p - 1);
        lemma_moved_shape(cols, order, p - 1);
    }
}

/// How many variables the re-emitted fact introduces in all.
proof fn lemma_moved_total(cols: Seq<Seq<u8>>, order: Seq<usize>)
    requires
        is_numberable(cols),
        is_column_order(order, cols.len()),
    ensures
        new_before(moved(cols, order), order.len() as int) <= 64,
{
    let n = order.len() as int;
    if n > 0 {
        let m = cols[order[n - 1] as int].len() as int;
        lemma_moved_count(cols, order, n - 1, m);
        lemma_moved_shape(cols, order, n - 1);
        lemma_start_next(cols, order, n - 1);
        lemma_few_seen(cols, order, start_of(cols, order, n));
    }
}

/// The re-emitted fact is canonical.
proof fn lemma_moved_canonical(cols: Seq<Seq<u8>>, order: Seq<usize>)
    requires
        is_numberable(cols),
        is_column_order(order, cols.len()),
    ensures
        is_canonical(moved(cols, order)),
{
    let re = moved(cols, order);
    lemma_moved_total(cols, order);
    assert forall|p: int| 0 <= p < re.len() implies is_term(#[trigger] re[p]) by {
        lemma_moved_shape(cols, order, p);
    }
    assert forall|p: int, i: int|
        #![trigger re[p][i]]
        0 <= p < re.len() && 0 <= i < re[p].len() && tag_at(re[p], i) && 0x80 <= re[p][i]
            < 0xC0 implies re[p][i] - 0x80 < new_before(re, p) + new_tags(re[p], i) by {
        lemma_moved_shape(cols, order, p);
        lemma_moved_byte(cols, order, p, i);
        lemma_moved_count(cols, order, p, i);
    }
}

/// Items with each variable named by its place in `names`.
spec fn renamed(items: Seq<Item>, names: Seq<usize>) -> Seq<Item> {
    items.map_values(
        |item: Item|
            match item {
                Item::Byte(b) => Item::Byte(b),
                Item::Var(id) => Item::Var(names.index_of(id) as usize),
            },
    )
}

/// Every variable among the items has a name.
spec fn all_named(items: Seq<Item>, names: Seq<usize>) -> bool {
    forall|k: int|
        0 <= k < items.len() ==> match #[trigger] items[k] {
            Item::Var(id) => names.contains(id),
            _ => true,
        }
}

/// What is seen early is seen late, at the same place.
proof fn lemma_seen_stays(items: Seq<Item>, i: int, j: int)
    requires
        0 <= i <= j,
    ensures
        seen(items, i).len() <= seen(items, j).len(),
        seen(items, i) == seen(items, j).take(seen(items, i).len() as int),
    decreases j - i,
{
    let a = seen(items, i);
    if i == j {
        assert(a =~= a.take(a.len() as int));
    } else {
        lemma_seen_stays(items, i + 1, j);
        let b = seen(items, i + 1);
        assert(a =~= b.take(a.len() as int));
        assert(seen(items, j).take(b.len() as int).take(a.len() as int) =~= seen(items, j).take(
            a.len() as int,
        ));
    }
}

/// Every variable among the items is seen.
proof fn lemma_seen_all(items: Seq<Item>)
    ensures
        all_named(items, seen(items, items.len() as int)),
{
    let names = seen(items, items.len() as int);
    assert forall|k: int| 0 <= k < items.len() implies match #[trigger] items[k] {
        Item::Var(id) => names.contains(id),
        _ => true,
    } by {
        lemma_seen_stays(items, k + 1, items.len() as int);
        match items[k] {
            Item::Var(id) => {
                let here = seen(items, k + 1);
                let before = seen(items, k);
                assert(here.contains(id)) by {
                    if !before.contains(id) {
                        assert(here[before.len() as int] == id);
                    }
                }
                let i = choose|i: int| 0 <= i < here.len() && here[i] == id;
                assert(names.take(here.len() as int)[i] == names[i]);
            },
            _ => {},
        }
    }
}

/// The place of a variable among those seen so far is its place among all.
pub proof fn lemma_seen_index(items: Seq<Item>, k: int, id: usize)
    requires
        0 <= k <= items.len(),
        seen(items, k).contains(id),
    ensures
        seen(items, items.len() as int).contains(id),
        seen(items, k).index_of(id) == seen(items, items.len() as int).index_of(id),
        0 <= seen(items, k).index_of(id) < seen(items, k).len(),
{
    let names = seen(items, items.len() as int);
    let here = seen(items, k);
    lemma_seen_stays(items, k, items.len() as int);
    lemma_seen_distinct(items, items.len() as int);
    let i = here.index_of(id);
    assert(here[i] == id);
    assert(names.take(here.len() as int)[i] == names[i]);
    assert(names.contains(id));
    let j = names.index_of(id);
    assert(names[j] == id);
}

/// Decoding the re-emitted columns gives the items of the columns, renamed.
proof fn lemma_moved_decoded(cols: Seq<Seq<u8>>, order: Seq<usize>, p: int)
    requires
        is_numberable(cols),
        is_column_order(order, cols.len()),
        0 <= p < order.len(),
    ensures
        decoded(moved(cols, order))[p] == renamed(
            decoded(cols)[order[p] as int],
            seen(items_in(cols, order), items_in(cols, order).len() as int),
        ),
{
    let re = moved(cols, order);
    let f = items_in(cols, order);
    let names = seen(f, f.len() as int);
    let w = cols[order[p] as int];
    let a = decoded(re)[p];
    let b = renamed(decoded(cols)[order[p] as int], names);
    lemma_moved_shape(cols, order, p);
    lemma_few_seen(cols, order, f.len() as int);
    assert(a =~= b) by {
        assert forall|i: int| 0 <= i < w.len() implies a[i] == b[i] by {
            let k = start_of(cols, order, p) + i;
            lemma_flat_at(cols, order, p, i);
            lemma_moved_byte(cols, order, p, i);
            lemma_moved_count(cols, order, p, i);
            assert(tag_at(re[p], i) == tag_at(w, i));
            assert(a[i] == item_at(re[p], new_before(re, p), i));
            match decoded(cols)[order[p] as int][i] {
                Item::Byte(x) => {
                    assert(decoded(cols)[order[p] as int][i] == item_at(
                        w,
                        new_before(cols, order[p] as int),
                        i,
                    ));
                },
                Item::Var(id) => {
                    let before = seen(f, k);
                    if before.contains(id) {
                        lemma_seen_index(f, k, id);
                    } else {
                        let here = seen(f, k + 1);
                        assert(here == before.push(id));
                        assert(here[before.len() as int] == id);
                        assert(here.contains(id));
                        lemma_seen_index(f, k + 1, id);
                        lemma_seen_distinct(f, k + 1);
                        assert(here.index_of(id) == before.len());
                        lemma_few_seen(cols, order, k);
                    }
                },
            }
        }
    }
}

/// Re-emission goes by which variables are the same, not by their names.
proof fn lemma_renamed_emitted(items: Seq<Item>, names: Seq<usize>)
    requires
        all_named(items, names),
        names.no_duplicates(),
        names.len() <= 64,
    ensures
        emitted(renamed(items, names)) == emitted(items),
{
    let other = renamed(items, names);
    assert forall|k: int| 0 <= k < items.len() implies emitted_byte(other, k) == emitted_byte(
        items,
        k,
    ) by {
        lemma_renamed_seen(items, names, k);
        assert(match items[k] {
            Item::Var(id) => names.contains(id),
            _ => true,
        });
        match items[k] {
            Item::Var(id) => {
                lemma_renamed_contains(items, names, k, id);
            },
            _ => {},
        }
    }
    assert(emitted(other) =~= emitted(items));
}

/// The variables seen are those seen under the other names.
proof fn lemma_renamed_seen(items: Seq<Item>, names: Seq<usize>, k: int)
    requires
        all_named(items, names),
        names.no_duplicates(),
        names.len() <= 64,
        0 <= k <= items.len(),
    ensures
        seen(renamed(items, names), k) == seen(items, k).map_values(
            |id: usize| names.index_of(id) as usize,
        ),
        forall|i: int|
            0 <= i < seen(items, k).len() ==> names.contains(#[trigger] seen(items, k)[i]),
    decreases k,
{
    let other = renamed(items, names);
    let to = |id: usize| names.index_of(id) as usize;
    if k == 0 {
        assert(seen(other, 0) =~= seen(items, 0).map_values(to));
    } else {
        lemma_renamed_seen(items, names, k - 1);
        let before = seen(items, k - 1);
        assert(match items[k - 1] {
            Item::Var(id) => names.contains(id),
            _ => true,
        });
        match items[k - 1] {
            Item::Var(id) => {
                lemma_renamed_contains(items, names, k - 1, id);
                if !before.contains(id) {
                    assert(seen(other, k) =~= seen(items, k).map_values(to));
                    assert forall|i: int| 0 <= i < seen(items, k).len() implies names.contains(
                        #[trigger] seen(items, k)[i],
                    ) by {
                        if i < before.len() {
                            assert(seen(items, k)[i] == before[i]);
                        }
                    }
                }
            },
            _ => {},
        }
    }
}

/// A variable is seen exactly when its other name is, and at the same place.
proof fn lemma_renamed_contains(items: Seq<Item>, names: Seq<usize>, k: int, id: usize)
    requires
        names.no_duplicates(),
        names.len() <= 64,
        names.contains(id),
        0 <= k <= items.len(),
        seen(renamed(items, names), k) == seen(items, k).map_values(
            |id: usize| names.index_of(id) as usize,
        ),
        forall|i: int|
            0 <= i < seen(items, k).len() ==> names.contains(#[trigger] seen(items, k)[i]),
    ensures
        seen(renamed(items, names), k).contains(names.index_of(id) as usize) == seen(
            items,
            k,
        ).contains(id),
        seen(items, k).contains(id) ==> seen(renamed(items, names), k).index_of(
            names.index_of(id) as usize,
        ) == seen(items, k).index_of(id),
{
    let a = seen(items, k);
    let b = seen(renamed(items, names), k);
    let to = |id: usize| names.index_of(id) as usize;
    let x = names.index_of(id) as usize;
    assert(names[names.index_of(id)] == id);
    assert forall|i: int| 0 <= i < a.len() implies (#[trigger] b[i] == x) == (a[i] == id) by {
        assert(b[i] == to(a[i]));
        assert(names.contains(a[i]));
        assert(names[names.index_of(a[i])] == a[i]);
    }
    if a.contains(id) {
        let i = a.index_of(id);
        assert(a[i] == id);
        assert(b[i] == x);
        let j = b.index_of(x);
        assert(b[j] == x);
        assert(a[j] == id);
        lemma_seen_distinct(items, k);
    }
    if b.contains(x) {
        let j = choose|j: int| 0 <= j < b.len() && b[j] == x;
        assert(a[j] == id);
    }
}

/// One more item, when the variables seen so far are the first `m`.
proof fn lemma_numbered_step(items: Seq<Item>, k: int, m: nat)
    requires
        0 <= k < items.len(),
        m <= 64,
        seen(items, k) == same_order(m),
    ensures
        match items[k] {
            Item::Byte(_) => seen(items, k + 1) == same_order(m),
            Item::Var(id) => {
                &&& id < m ==> seen(items, k + 1) == same_order(m)
                &&& id == m ==> seen(items, k + 1) == same_order(m + 1)
            },
        },
{
    match items[k] {
        Item::Var(id) => {
            if id < m {
                assert(same_order(m)[id as int] == id);
            } else if id == m {
                assert(!same_order(m).contains(id));
                assert(same_order(m).push(id) =~= same_order(m + 1));
            }
        },
        _ => {},
    }
}

/// What the item at byte `i` of column `p` of a canonical fact is.
proof fn lemma_canonical_item(cols: Seq<Seq<u8>>, p: int, i: int)
    requires
        is_canonical(cols),
        cols.len() <= usize::MAX,
        0 <= p < cols.len(),
        0 <= i < cols[p].len(),
    ensures
        0 <= start_of(cols, same_order(cols.len()), p) + i < items_in(
            cols,
            same_order(cols.len()),
        ).len(),
        items_in(cols, same_order(cols.len()))[start_of(cols, same_order(cols.len()), p) + i]
            == item_at(cols[p], new_before(cols, p), i),
        tag_at(cols[p], i) && 0x80 <= cols[p][i] < 0xC0 ==> cols[p][i] - 0x80 < new_before(cols, p)
            + new_tags(cols[p], i),
        tag_at(cols[p], i) && cols[p][i] == 0xC0 ==> new_before(cols, p) + new_tags(cols[p], i) < 64,
        new_before(cols, p) + new_tags(cols[p], i) <= 64,
{
    let id = same_order(cols.len());
    lemma_same_order(cols.len());
    lemma_flat_at(cols, id, p, i);
    lemma_small_ids(cols, p, i);
    lemma_new_before_mono(cols, p + 1, cols.len() as int);
    lemma_new_tags_mono(cols[p], i, cols[p].len() as int);
    assert(decoded(cols)[p][i] == item_at(cols[p], new_before(cols, p), i));
}

/// In a canonical fact the variables are seen in the order of their numbers.
proof fn lemma_canonical_seen(cols: Seq<Seq<u8>>, p: int, i: int)
    requires
        is_canonical(cols),
        cols.len() <= usize::MAX,
        0 <= p < cols.len(),
        0 <= i <= cols[p].len(),
    ensures
        seen(
            items_in(cols, same_order(cols.len())),
            start_of(cols, same_order(cols.len()), p) + i,
        ) == same_order(new_before(cols, p) + new_tags(cols[p], i)),
    decreases p, i,
{
    let id = same_order(cols.len());
    let f = items_in(cols, id);
    lemma_same_order(cols.len());
    if i > 0 {
        lemma_canonical_seen(cols, p, i - 1);
        let k = start_of(cols, id, p) + i - 1;
        let m = new_before(cols, p) + new_tags(cols[p], i - 1);
        lemma_canonical_item(cols, p, i - 1);
        lemma_numbered_step(f, k, m);
    } else if p > 0 {
        lemma_canonical_seen(cols, p - 1, cols[p - 1].len() as int);
        lemma_start_next(cols, id, p - 1);
    } else {
        assert(seen(f, 0) =~= same_order(0));
    }
}

proof fn lemma_same_order(n: nat)
    requires
        n <= usize::MAX,
    ensures
        is_column_order(same_order(n), n),
{
}

/// Re-emitting a canonical fact in the order it is in gives it back.
pub proof fn lemma_reemit_same(cols: Seq<Seq<u8>>)
    requires
        is_canonical(cols),
        cols.len() <= usize::MAX,
    ensures
        re_emitted(cols, same_order(cols.len())) == joined(cols),
{
    let n = cols.len() as int;
    let id = same_order(cols.len());
    let re = moved(cols, id);
    let f = items_in(cols, id);
    lemma_same_order(cols.len());
    assert(re =~= cols) by {
        assert forall|p: int| 0 <= p < n implies re[p] == cols[p] by {
            assert(re[p] =~= cols[p]) by {
                assert forall|i: int| 0 <= i < cols[p].len() implies re[p][i] == cols[p][i] by {
                    lemma_moved_byte(cols, id, p, i);
                    lemma_canonical_seen(cols, p, i);
                    lemma_small_ids(cols, p, i);
                    let m = new_before(cols, p) + new_tags(cols[p], i);
                    let before = seen(f, start_of(cols, id, p) + i);
                    assert(before == same_order(m));
                    assert(decoded(cols)[p][i] == item_at(cols[p], new_before(cols, p), i));
                    if tag_at(cols[p], i) && cols[p][i] == 0xC0 {
                        assert(!same_order(m).contains(m as usize));
                    } else if tag_at(cols[p], i) && 0x80 <= cols[p][i] < 0xC0 {
                        let x = (cols[p][i] - 0x80) as usize;
                        assert(cols[p][i] - 0x80 < m);
                        assert(same_order(m)[x as int] == x);
                        assert(same_order(m).contains(x));
                        let j = same_order(m).index_of(x);
                        assert(same_order(m)[j] == x);
                    }
                }
            }
        }
    }
    lemma_moved_joined(cols, id, n);
    assert(re.take(n) =~= re);
    assert(emitted(f).take(f.len() as int) =~= emitted(f));
}

/// Re-emission keeps a fact a fact: it has as many complete columns, each as long as the column that
/// it was, and is canonical.
pub proof fn lemma_reemit_columns(cols: Seq<Seq<u8>>, order: Seq<usize>)
    requires
        is_numberable(cols),
        is_column_order(order, cols.len()),
    ensures
        re_emitted(cols, order) == joined(moved(cols, order)),
        is_canonical(moved(cols, order)),
        moved(cols, order).len() == cols.len(),
        forall|p: int|
            0 <= p < order.len() ==> (#[trigger] moved(cols, order)[p]).len()
                == cols[order[p] as int].len(),
{
    let n = order.len() as int;
    let re = moved(cols, order);
    let f = items_in(cols, order);
    lemma_moved_joined(cols, order, n);
    assert(re.take(n) =~= re);
    assert(emitted(f).take(f.len() as int) =~= emitted(f));
    lemma_moved_canonical(cols, order);
}

/// The columns of the re-emitted fact, brought back, are the items of the fact, renamed.
proof fn lemma_back_items(cols: Seq<Seq<u8>>, order: Seq<usize>, back: Seq<usize>, m: int)
    requires
        is_numberable(cols),
        cols.len() <= usize::MAX,
        is_column_order(order, cols.len()),
        undoes(back, order),
        0 <= m <= cols.len(),
    ensures
        flat(decoded(moved(cols, order)), back, m) == renamed(
            flat(decoded(cols), same_order(cols.len()), m),
            seen(items_in(cols, order), items_in(cols, order).len() as int),
        ),
    decreases m,
{
    let names = seen(items_in(cols, order), items_in(cols, order).len() as int);
    let id = same_order(cols.len());
    if m == 0 {
        assert(flat(decoded(moved(cols, order)), back, 0) =~= renamed(
            flat(decoded(cols), id, 0),
            names,
        ));
    } else {
        lemma_back_items(cols, order, back, m - 1);
        let p = back[m - 1] as int;
        assert(order[p] == m - 1);
        lemma_moved_decoded(cols, order, p);
        assert(id[m - 1] == m - 1);
        assert(flat(decoded(moved(cols, order)), back, m) =~= renamed(
            flat(decoded(cols), id, m),
            names,
        ));
    }
}

/// The items of a fact have the same names in every order.
proof fn lemma_named_anywhere(cols: Seq<Seq<u8>>, order: Seq<usize>, m: int)
    requires
        is_numberable(cols),
        cols.len() <= usize::MAX,
        is_column_order(order, cols.len()),
        0 <= m <= cols.len(),
    ensures
        all_named(
            flat(decoded(cols), same_order(cols.len()), m),
            seen(items_in(cols, order), items_in(cols, order).len() as int),
        ),
    decreases m,
{
    let f = items_in(cols, order);
    let names = seen(f, f.len() as int);
    let id = same_order(cols.len());
    if m > 0 {
        lemma_named_anywhere(cols, order, m - 1);
        lemma_seen_all(f);
        let p = lemma_column_place(order, cols.len(), m - 1);
        let e = flat(decoded(cols), id, m - 1);
        let g = flat(decoded(cols), id, m);
        assert(id[m - 1] == m - 1);
        assert forall|k: int| 0 <= k < g.len() implies match #[trigger] g[k] {
            Item::Var(x) => names.contains(x),
            _ => true,
        } by {
            if k < e.len() {
                assert(g[k] == e[k]);
            } else {
                let i = k - e.len();
                assert(g[k] == decoded(cols)[m - 1][i]);
                lemma_flat_at(cols, order, p, i);
                let at = start_of(cols, order, p) + i;
                assert(f[at] == g[k]);
            }
        }
    }
}

/// Re-emission is undone by the inverse order: re-emitting the re-emitted columns of a canonical fact
/// gives the fact back.
pub proof fn lemma_reemit_back(cols: Seq<Seq<u8>>, order: Seq<usize>, back: Seq<usize>)
    requires
        is_canonical(cols),
        cols.len() <= usize::MAX,
        is_column_order(order, cols.len()),
        undoes(back, order),
    ensures
        re_emitted(moved(cols, order), back) == joined(cols),
        joined(moved(cols, order)).len() == joined(cols).len(),
{
    let n = cols.len() as int;
    let id = same_order(cols.len());
    let f = items_in(cols, order);
    let names = seen(f, f.len() as int);
    lemma_back_items(cols, order, back, n);
    lemma_named_anywhere(cols, order, n);
    lemma_seen_distinct(f, f.len() as int);
    lemma_few_seen(cols, order, f.len() as int);
    lemma_renamed_emitted(flat(decoded(cols), id, n), names);
    lemma_reemit_same(cols);
    lemma_reemit_columns(cols, order);
    lemma_back_order(back, order, cols.len());
    lemma_total_length(cols, order);
}

/// The inverse of an order lists every column once.
pub proof fn lemma_back_order(back: Seq<usize>, order: Seq<usize>, n: nat)
    requires
        is_column_order(order, n),
        undoes(back, order),
    ensures
        is_column_order(back, n),
{
    assert forall|i: int, j: int| 0 <= i < back.len() && 0 <= j < back.len() && i != j implies back[i]
        != back[j] by {
        assert(order[back[i] as int] == i);
        assert(order[back[j] as int] == j);
    }
    assert forall|p: int| 0 <= p < n implies (#[trigger] back[p]) < n by {
        assert(back[p] < order.len());
    }
}

/// No two facts are merged: canonical facts that are re-emitted alike are the same.
pub proof fn lemma_reemit_apart(a: Seq<Seq<u8>>, b: Seq<Seq<u8>>, order: Seq<usize>)
    requires
        is_canonical(a),
        is_canonical(b),
        a.len() == b.len(),
        a.len() <= usize::MAX,
        is_column_order(order, a.len()),
        re_emitted(a, order) == re_emitted(b, order),
    ensures
        a == b,
{
    let back = lemma_has_inverse(order, a.len());
    lemma_reemit_columns(a, order);
    lemma_reemit_columns(b, order);
    let key = re_emitted(a, order);
    lemma_prefix_refl(key);
    lemma_columns_unique(moved(a, order), moved(b, order), key);
    lemma_reemit_back(a, order, back);
    lemma_reemit_back(b, order, back);
    lemma_prefix_refl(joined(a));
    lemma_columns_unique(a, b, joined(a));
}

/// Every order of the columns has an inverse.
pub proof fn lemma_has_inverse(order: Seq<usize>, n: nat) -> (back: Seq<usize>)
    requires
        is_column_order(order, n),
        n <= usize::MAX,
    ensures
        undoes(back, order),
{
    let back = Seq::new(n, |c: int| (choose|p: int| 0 <= p < n && #[trigger] order[p] == c) as usize);
    assert forall|c: int| 0 <= c < back.len() implies (#[trigger] back[c]) < order.len()
        && order[back[c] as int] == c by {
        let p = lemma_column_place(order, n, c);
        assert(order[p] == c);
    }
    back
}

/// The bytes of the columns from the first `n` columns that are among the first `p` of the order.
spec fn length_among(cols: Seq<Seq<u8>>, order: Seq<usize>, p: int, n: int) -> nat
    decreases n,
{
    if n <= 0 {
        0
    } else {
        length_among(cols, order, p, n - 1) + if is_among(order, p, n - 1) {
            cols[n - 1].len()
        } else {
            0
        }
    }
}

/// Column `c` is among the first `p` of the order.
spec fn is_among(order: Seq<usize>, p: int, c: int) -> bool {
    exists|q: int| 0 <= q < p && #[trigger] order[q] == c
}

/// One more column of the order adds its bytes.
proof fn lemma_among_more(cols: Seq<Seq<u8>>, order: Seq<usize>, p: int, n: int)
    requires
        is_column_order(order, cols.len()),
        0 <= p < order.len(),
        0 <= n <= cols.len(),
    ensures
        length_among(cols, order, p + 1, n) == length_among(cols, order, p, n) + if order[p] < n {
            cols[order[p] as int].len()
        } else {
            0
        },
    decreases n,
{
    if n > 0 {
        lemma_among_more(cols, order, p, n - 1);
        let c = n - 1;
        if order[p] == c {
            assert(!is_among(order, p, c)) by {
                if is_among(order, p, c) {
                    let q = choose|q: int| 0 <= q < p && #[trigger] order[q] == c;
                    assert(order[q] != order[p]);
                }
            }
            assert(is_among(order, p + 1, c));
        } else {
            assert(is_among(order, p + 1, c) == is_among(order, p, c)) by {
                if is_among(order, p + 1, c) {
                    let q = choose|q: int| 0 <= q < p + 1 && #[trigger] order[q] == c;
                    assert(q < p);
                }
            }
        }
    }
}

proof fn lemma_among_start(cols: Seq<Seq<u8>>, order: Seq<usize>, p: int)
    requires
        is_numberable(cols),
        is_column_order(order, cols.len()),
        0 <= p <= order.len(),
    ensures
        start_of(cols, order, p) == length_among(cols, order, p, cols.len() as int),
    decreases p,
{
    if p == 0 {
        lemma_among_none(cols, order, cols.len() as int);
    } else {
        lemma_among_start(cols, order, p - 1);
        lemma_start_next(cols, order, p - 1);
        lemma_among_more(cols, order, p - 1, cols.len() as int);
    }
}

proof fn lemma_among_none(cols: Seq<Seq<u8>>, order: Seq<usize>, n: int)
    ensures
        length_among(cols, order, 0, n) == 0,
    decreases n,
{
    if n > 0 {
        lemma_among_none(cols, order, n - 1);
        assert(!is_among(order, 0, n - 1));
    }
}

proof fn lemma_among_all(cols: Seq<Seq<u8>>, order: Seq<usize>, n: int)
    requires
        is_column_order(order, cols.len()),
        0 <= n <= cols.len(),
    ensures
        length_among(cols, order, order.len() as int, n) == joined(cols.take(n)).len(),
    decreases n,
{
    if n == 0 {
        assert(cols.take(0) =~= Seq::<Seq<u8>>::empty());
    } else {
        lemma_among_all(cols, order, n - 1);
        let p = lemma_column_place(order, cols.len(), n - 1);
        assert(order[p] == n - 1);
        assert(is_among(order, order.len() as int, n - 1));
        assert(cols.take(n) =~= cols.take(n - 1).push(cols[n - 1]));
        lemma_joined_push(cols.take(n - 1), cols[n - 1]);
    }
}

/// Re-emission keeps the length of a fact.
pub proof fn lemma_total_length(cols: Seq<Seq<u8>>, order: Seq<usize>)
    requires
        is_numberable(cols),
        is_column_order(order, cols.len()),
    ensures
        re_emitted(cols, order).len() == joined(cols).len(),
{
    lemma_among_start(cols, order, order.len() as int);
    lemma_among_all(cols, order, cols.len() as int);
    assert(cols.take(cols.len() as int) =~= cols);
}

} // verus!
