//! Re-indexing: a factor's facts with their columns in another order.

use vstd::prelude::*;
use vstd::slice::slice_subrange;
use crate::env::Assignment;
use crate::fact::{holds_of, is_new, is_wild, names, new_vars, slot, well_scoped};
use crate::factor::{
    all_terms, is_forward, joined, lemma_columns_unique, lemma_joined_push, lemma_joined_spells,
    Factor,
};
use crate::order::{is_prefix, lemma_lt_total, lemma_lt_trans, lt};
use crate::path_set::PathSet;
use crate::term::{
    first_subterm_len, holds, is_ground, is_term, is_var_tag, lemma_holds_extend, lemma_holds_fewer,
    lemma_holds_rest, lemma_open_prefix, lemma_parse_step, lemma_payload, lemma_var_is_term, run,
    tag_at, tag_of, Tag,
};
use crate::trie::{is_trie, next_value, PathTrie, Zipper, ZipperIteration};

verus! {

/// A factor is inverted when its columns are not in the order of the variables, so the join cannot
/// seek it forward: a later column's variable is bound before an earlier one.
pub fn is_inverted(factor: &Factor, var_pos: &[usize]) -> (r: bool)
    requires
        forall|c: int|
            0 <= c < factor.cols@.len() ==> (#[trigger] factor.cols@[c]) < var_pos@.len(),
    ensures
        r == !is_forward(factor.cols@, var_pos@),
{
    let mut c: usize = 1;
    while c < factor.cols.len()
        invariant
            1 <= c,
            c <= factor.cols@.len() || c == 1,
            forall|c: int|
                0 <= c < factor.cols@.len() ==> (#[trigger] factor.cols@[c]) < var_pos@.len(),
            forall|a: int, b: int|
                #![trigger factor.cols@[a], factor.cols@[b]]
                0 <= a < b < c && b < factor.cols@.len() ==> var_pos@[factor.cols@[a] as int]
                    <= var_pos@[factor.cols@[b] as int],
        decreases factor.cols@.len() - c,
    {
        let prev = factor.cols[c - 1];
        let this = factor.cols[c];
        assert(factor.cols@[c - 1] < var_pos@.len());
        assert(factor.cols@[c as int] < var_pos@.len());
        if var_pos[prev] > var_pos[this] {
            assert(!(var_pos@[factor.cols@[c - 1] as int] <= var_pos@[factor.cols@[c as int] as int]));
            return true;
        }
        proof {
            assert forall|a: int, b: int|
                #![trigger factor.cols@[a], factor.cols@[b]]
                0 <= a < b < c + 1 implies var_pos@[factor.cols@[a] as int]
                <= var_pos@[factor.cols@[b] as int] by {
                if b == c && a < c - 1 {
                    assert(var_pos@[factor.cols@[a] as int] <= var_pos@[factor.cols@[c - 1] as int]);
                }
            }
        }
        c += 1;
    }
    false
}

/// The bytes of each slice.
pub open spec fn slices(cols: Seq<&[u8]>) -> Seq<Seq<u8>> {
    cols.map_values(|c: &[u8]| c@)
}

/// Split a fact's column bytes into its first `ncols` subterms.
pub fn split_columns<'a>(bytes: &'a [u8], ncols: usize) -> (cols: Vec<&'a [u8]>)
    requires
        holds(ncols as nat, bytes@),
    ensures
        cols@.len() == ncols,
        all_terms(slices(cols@)),
        is_prefix(joined(slices(cols@)), bytes@),
{
    let mut cols: Vec<&'a [u8]> = Vec::new();
    let mut i: usize = 0;
    proof {
        assert(bytes@.skip(0) =~= bytes@);
        assert(bytes@.take(0) =~= joined(slices(cols@)));
    }
    while cols.len() < ncols
        invariant
            cols@.len() <= ncols,
            i <= bytes@.len(),
            all_terms(slices(cols@)),
            joined(slices(cols@)) == bytes@.take(i as int),
            holds((ncols - cols@.len()) as nat, bytes@.skip(i as int)),
        decreases ncols - cols@.len(),
    {
        let ghost done = slices(cols@);
        let ghost left = (ncols - cols@.len()) as nat;
        let rest = slice_subrange(bytes, i, bytes.len());
        proof {
            assert(rest@ =~= bytes@.skip(i as int));
            lemma_holds_fewer(1, (left - 1) as nat, rest@);
        }
        let len = first_subterm_len(rest);
        let col = slice_subrange(bytes, i, i + len);
        proof {
            let k = rest@.take(len as int);
            assert(col@ =~= k);
            let after = rest@.skip(len as int);
            assert(rest@ =~= k + after);
            lemma_holds_rest(1, (left - 1) as nat, k, after);
            assert(after =~= bytes@.skip(i + len));
            lemma_joined_push(done, k);
            assert(bytes@.take(i as int) + k =~= bytes@.take(i + len));
        }
        cols.push(col);
        proof {
            assert(slices(cols@) =~= done.push(col@));
            assert forall|j: int| 0 <= j < cols@.len() implies is_term(#[trigger] slices(cols@)[j]) by {
                if j < done.len() {
                    assert(slices(cols@)[j] == done[j]);
                }
            }
        }
        i += len;
    }
    cols
}

/// One position in a re-emitted subterm: a literal byte, or a variable identified by its original
/// id, so that it can be renumbered in the new column order.
pub enum Item {
    Byte(u8),
    Var(usize),
}

/// How many of the first `i` bytes of the term introduce a variable.
pub open spec fn new_tags(col: Seq<u8>, i: int) -> nat
    decreases i,
{
    if i <= 0 {
        0
    } else if tag_at(col, i - 1) && col[i - 1] == 0xC0 {
        new_tags(col, i - 1) + 1
    } else {
        new_tags(col, i - 1)
    }
}

/// How many variables the first `c` columns introduce.
pub open spec fn new_before(cols: Seq<Seq<u8>>, c: int) -> nat
    decreases c,
{
    if c <= 0 {
        0
    } else {
        new_before(cols, c - 1) + new_tags(cols[c - 1], cols[c - 1].len() as int)
    }
}

/// The item at byte `i` of a column, when `base` variables were introduced before the column.
pub open spec fn item_at(col: Seq<u8>, base: nat, i: int) -> Item {
    let b = col[i];
    if !tag_at(col, i) {
        Item::Byte(b)
    } else if b == 0xC0 {
        Item::Var((base + new_tags(col, i)) as usize)
    } else if 0x80 <= b < 0xC0 {
        Item::Var((b - 0x80) as usize)
    } else {
        Item::Byte(b)
    }
}

/// The items of a column, one for each byte.
pub open spec fn items_of(col: Seq<u8>, base: nat) -> Seq<Item> {
    Seq::new(col.len(), |i: int| item_at(col, base, i))
}

pub proof fn lemma_new_tags_mono(col: Seq<u8>, i: int, j: int)
    requires
        0 <= i <= j,
    ensures
        new_tags(col, i) <= new_tags(col, j),
    decreases j,
{
    if i < j {
        lemma_new_tags_mono(col, i, j - 1);
    }
}

/// Bytes without a tag introduce nothing.
proof fn lemma_new_tags_payload(col: Seq<u8>, i: int, j: int)
    requires
        0 <= i <= j,
        forall|n: int| i <= n < j ==> !#[trigger] tag_at(col, n),
    ensures
        new_tags(col, j) == new_tags(col, i),
    decreases j,
{
    if i < j {
        lemma_new_tags_payload(col, i, j - 1);
        assert(!tag_at(col, j - 1));
    }
}

/// Decode one column into items. `next_orig` counts the variables introduced so far.
fn column_items(col: &[u8], next_orig: &mut usize) -> (items: Vec<Item>)
    requires
        is_term(col@),
        *old(next_orig) + new_tags(col@, col@.len() as int) <= usize::MAX,
    ensures
        items@ == items_of(col@, *old(next_orig) as nat),
        *final(next_orig) == *old(next_orig) + new_tags(col@, col@.len() as int),
{
    let ghost base = *next_orig as nat;
    let mut items: Vec<Item> = Vec::new();
    let mut i: usize = 0;
    proof {
        assert(col@.take(0) =~= Seq::<u8>::empty());
    }
    while i < col.len()
        invariant
            is_term(col@),
            i <= col@.len(),
            base == *old(next_orig),
            base + new_tags(col@, col@.len() as int) <= usize::MAX,
            run((1, 0), col@.take(i as int)).1 == 0,
            *next_orig == base + new_tags(col@, i as int),
            items@ == items_of(col@, base).take(i as int),
        decreases col@.len() - i,
    {
        let ghost all = items_of(col@, base);
        let ghost owed = run((1, 0), col@.take(i as int)).0;
        let b = col[i];
        let ghost start = i;
        proof {
            assert(is_prefix(col@.take(i as int), col@)) by {
                assert(col@.take(i as int) =~= col@.take(col@.take(i as int).len() as int));
            }
            lemma_open_prefix(1, col@.take(i as int), col@);
            lemma_parse_step(col@, i as int, owed);
            lemma_new_tags_mono(col@, i + 1, col@.len() as int);
            assert(all.take(i + 1) =~= all.take(i as int).push(all[i as int]));
        }
        i += 1;
        match tag_of(b) {
            Tag::Arity(_) => {
                items.push(Item::Byte(b));
            },
            Tag::VarRef(r) => {
                items.push(Item::Var(r as usize));
            },
            Tag::NewVar => {
                items.push(Item::Var(*next_orig));
                *next_orig = *next_orig + 1;
            },
            Tag::Symbol(s) => {
                items.push(Item::Byte(b));
                proof {
                    lemma_payload(col@, start as int, (owed - 1) as nat, s as nat);
                }
                let mut n: u8 = 0;
                while n < s
                    invariant
                        n <= s,
                        i == start + 1 + n,
                        start + 1 + s <= col@.len(),
                        forall|j: int| start < j < start + 1 + s ==> !#[trigger] tag_at(col@, j),
                        all == items_of(col@, base),
                        items@ == all.take(i as int),
                    decreases s - n,
                {
                    assert(!tag_at(col@, i as int));
                    assert(all.take(i + 1) =~= all.take(i as int).push(all[i as int]));
                    items.push(Item::Byte(col[i]));
                    i += 1;
                    n += 1;
                }
                proof {
                    lemma_new_tags_payload(col@, start + 1, i as int);
                }
            },
        }
    }
    proof {
        assert(items_of(col@, base).take(col@.len() as int) =~= items_of(col@, base));
    }
    items
}

/// The items of every column, with the variables numbered across the whole fact.
pub open spec fn decoded(cols: Seq<Seq<u8>>) -> Seq<Seq<Item>> {
    Seq::new(cols.len(), |c: int| items_of(cols[c], new_before(cols, c)))
}

/// The items in each list.
pub open spec fn lists_of(items: Seq<Vec<Item>>) -> Seq<Seq<Item>> {
    items.map_values(|list: Vec<Item>| list@)
}

/// Decode each column into items, tagging every variable with its original id: an introduction
/// takes the next id in encounter order across the whole fact, and a reference names an id.
pub fn columns_to_items(cols: &[&[u8]]) -> (out: Vec<Vec<Item>>)
    requires
        all_terms(slices(cols@)),
        new_before(slices(cols@), cols@.len() as int) <= usize::MAX,
    ensures
        lists_of(out@) == decoded(slices(cols@)),
{
    let mut next_orig: usize = 0;
    let mut out: Vec<Vec<Item>> = Vec::new();
    let mut c: usize = 0;
    while c < cols.len()
        invariant
            c <= cols@.len(),
            all_terms(slices(cols@)),
            new_before(slices(cols@), cols@.len() as int) <= usize::MAX,
            next_orig == new_before(slices(cols@), c as int),
            out@.len() == c,
            forall|d: int|
                0 <= d < c ==> (#[trigger] out@[d])@ == items_of(
                    cols@[d]@,
                    new_before(slices(cols@), d),
                ),
        decreases cols@.len() - c,
    {
        proof {
            assert(slices(cols@)[c as int] == cols@[c as int]@);
            assert(is_term(slices(cols@)[c as int]));
            lemma_new_before_mono(slices(cols@), c + 1, cols@.len() as int);
        }
        let items = column_items(cols[c], &mut next_orig);
        out.push(items);
        c += 1;
    }
    assert(lists_of(out@) =~= decoded(slices(cols@)));
    out
}

pub proof fn lemma_new_before_mono(cols: Seq<Seq<u8>>, i: int, j: int)
    requires
        0 <= i <= j,
    ensures
        new_before(cols, i) <= new_before(cols, j),
    decreases j,
{
    if i < j {
        lemma_new_before_mono(cols, i, j - 1);
    }
}

/// The items of the columns in a new order, one column after the other.
pub open spec fn flat(items: Seq<Seq<Item>>, order: Seq<usize>, p: int) -> Seq<Item>
    decreases p,
{
    if p <= 0 {
        Seq::empty()
    } else {
        flat(items, order, p - 1) + items[order[p - 1] as int]
    }
}

/// The variables among the first `k` items, each once, in the order of their first occurrence.
pub open spec fn seen(items: Seq<Item>, k: int) -> Seq<usize>
    decreases k,
{
    if k <= 0 {
        Seq::empty()
    } else {
        match items[k - 1] {
            Item::Var(id) => if seen(items, k - 1).contains(id) {
                seen(items, k - 1)
            } else {
                seen(items, k - 1).push(id)
            },
            Item::Byte(_) => seen(items, k - 1),
        }
    }
}

/// The byte for item `k`: the first occurrence of a variable introduces it, and a later one refers
/// to the number that it got.
pub open spec fn emitted_byte(items: Seq<Item>, k: int) -> u8 {
    match items[k] {
        Item::Byte(b) => b,
        Item::Var(id) => if seen(items, k).contains(id) {
            (0x80 + seen(items, k).index_of(id)) as u8
        } else {
            0xC0
        },
    }
}

/// The fact with its columns in the new order, and its variables renumbered as they occur there.
pub open spec fn re_emitted(cols: Seq<Seq<u8>>, order: Seq<usize>) -> Seq<u8> {
    emitted(flat(decoded(cols), order, order.len() as int))
}

/// The bytes for all items.
pub open spec fn emitted(items: Seq<Item>) -> Seq<u8> {
    Seq::new(items.len(), |k: int| emitted_byte(items, k))
}

/// What is seen early does not depend on what follows.
pub proof fn lemma_seen_take(items: Seq<Item>, more: Seq<Item>, k: int)
    requires
        0 <= k <= items.len(),
        items.len() <= more.len(),
        more.take(items.len() as int) == items,
    ensures
        seen(more, k) == seen(items, k),
    decreases k,
{
    if k > 0 {
        lemma_seen_take(items, more, k - 1);
        assert(more.take(items.len() as int)[k - 1] == more[k - 1]);
    }
}

/// A variable is seen once, and fewer are seen early than late.
pub proof fn lemma_seen_distinct(items: Seq<Item>, k: int)
    ensures
        seen(items, k).no_duplicates(),
    decreases k,
{
    if k > 0 {
        lemma_seen_distinct(items, k - 1);
    }
}

pub proof fn lemma_seen_mono(items: Seq<Item>, i: int, j: int)
    requires
        0 <= i <= j,
    ensures
        seen(items, i).len() <= seen(items, j).len(),
    decreases j,
{
    if i < j {
        lemma_seen_mono(items, i, j - 1);
    }
}

/// The index of `id` in `ids`, if it is there.
fn position_of(ids: &Vec<usize>, id: usize) -> (r: Option<usize>)
    requires
        ids@.no_duplicates(),
    ensures
        match r {
            Some(n) => ids@.contains(id) && n < ids@.len() && n == ids@.index_of(id),
            None => !ids@.contains(id),
        },
{
    let mut n: usize = 0;
    while n < ids.len()
        invariant
            n <= ids@.len(),
            ids@.no_duplicates(),
            forall|m: int| 0 <= m < n ==> ids@[m] != id,
        decreases ids@.len() - n,
    {
        if ids[n] == id {
            assert(ids@.contains(id));
            return Some(n);
        }
        n += 1;
    }
    None
}

/// Re-emit the columns in `new_order`, renumbering variables so that the first occurrence of each
/// introduces it, and later ones refer to its new index.
pub fn emit_reordered(items_by_col: &[Vec<Item>], new_order: &[usize]) -> (out: Vec<u8>)
    requires
        forall|p: int|
            0 <= p < new_order@.len() ==> (#[trigger] new_order@[p]) < items_by_col@.len(),
        seen(
            flat(lists_of(items_by_col@), new_order@, new_order@.len() as int),
            flat(lists_of(items_by_col@), new_order@, new_order@.len() as int).len() as int,
        ).len() <= 64,
    ensures
        out@ == emitted(flat(lists_of(items_by_col@), new_order@, new_order@.len() as int)),
{
    let ghost all = flat(lists_of(items_by_col@), new_order@, new_order@.len() as int);
    let mut out: Vec<u8> = Vec::new();
    let mut renum: Vec<usize> = Vec::new();
    let mut p: usize = 0;
    while p < new_order.len()
        invariant
            p <= new_order@.len(),
            forall|p: int|
                0 <= p < new_order@.len() ==> (#[trigger] new_order@[p]) < items_by_col@.len(),
            all == flat(lists_of(items_by_col@), new_order@, new_order@.len() as int),
            seen(all, all.len() as int).len() <= 64,
            out@.len() == flat(lists_of(items_by_col@), new_order@, p as int).len(),
            out@.len() <= all.len(),
            out@ == emitted(all).take(out@.len() as int),
            renum@ == seen(all, out@.len() as int),
        decreases new_order@.len() - p,
    {
        let c = new_order[p];
        let ghost base = out@.len() as int;
        proof {
            assert(new_order@[p as int] < items_by_col@.len());
            assert(lists_of(items_by_col@)[c as int] == items_by_col@[c as int]@);
            lemma_flat_take(lists_of(items_by_col@), new_order@, p as int, new_order@.len() as int);
            lemma_flat_take(lists_of(items_by_col@), new_order@, p + 1, new_order@.len() as int);
        }
        let mut i: usize = 0;
        while i < items_by_col[c].len()
            invariant
                p < new_order@.len(),
                c == new_order@[p as int],
                c < items_by_col@.len(),
                i <= items_by_col@[c as int]@.len(),
                all == flat(lists_of(items_by_col@), new_order@, new_order@.len() as int),
                seen(all, all.len() as int).len() <= 64,
                base == flat(lists_of(items_by_col@), new_order@, p as int).len(),
                base + items_by_col@[c as int]@.len() <= all.len(),
                lists_of(items_by_col@)[c as int] == items_by_col@[c as int]@,
                flat(lists_of(items_by_col@), new_order@, p + 1) == all.take(
                    base + items_by_col@[c as int]@.len(),
                ),
                out@.len() == base + i,
                out@ == emitted(all).take(out@.len() as int),
                renum@ == seen(all, out@.len() as int),
            decreases items_by_col@[c as int]@.len() - i,
        {
            let ghost k = out@.len() as int;
            proof {
                assert(all[k] == all.take(base + items_by_col@[c as int]@.len())[k]);
                assert(all[k] == items_by_col@[c as int]@[i as int]);
                lemma_seen_distinct(all, k);
                lemma_seen_mono(all, k, all.len() as int);
                assert(emitted(all).take(k + 1) =~= emitted(all).take(k).push(emitted(all)[k]));
            }
            match &items_by_col[c][i] {
                Item::Byte(b) => {
                    out.push(*b);
                },
                Item::Var(orig) => {
                    match position_of(&renum, *orig) {
                        Some(new_id) => {
                            assert(new_id < 64);
                            out.push(0x80 + new_id as u8);
                        },
                        None => {
                            renum.push(*orig);
                            out.push(0xC0);
                        },
                    }
                },
            }
            i += 1;
        }
        p += 1;
    }
    proof {
        assert(emitted(all).take(all.len() as int) =~= emitted(all));
    }
    out
}

/// The first columns come first.
pub proof fn lemma_flat_take(items: Seq<Seq<Item>>, order: Seq<usize>, p: int, n: int)
    requires
        0 <= p <= n,
    ensures
        flat(items, order, p).len() <= flat(items, order, n).len(),
        flat(items, order, p) == flat(items, order, n).take(flat(items, order, p).len() as int),
    decreases n - p,
{
    let a = flat(items, order, p);
    if p == n {
        assert(a =~= a.take(a.len() as int));
    } else {
        lemma_flat_take(items, order, p + 1, n);
        let b = flat(items, order, p + 1);
        assert(a =~= b.take(a.len() as int));
        assert(flat(items, order, n).take(b.len() as int).take(a.len() as int) =~= flat(
            items,
            order,
            n,
        ).take(a.len() as int));
    }
}

/// Every column is a stored variable or a ground value, and there are few enough variables to
/// number them.
pub open spec fn is_simple(cols: Seq<Seq<u8>>) -> bool {
    &&& all_terms(cols)
    &&& forall|j: int| 0 <= j < cols.len() ==> is_wild(#[trigger] cols[j]) || is_ground(cols[j])
    &&& new_vars(cols, cols.len() as int) <= 64
}

/// The order lists every column once.
pub open spec fn is_column_order(order: Seq<usize>, n: nat) -> bool {
    &&& order.len() == n
    &&& order.no_duplicates()
    &&& forall|p: int| 0 <= p < n ==> (#[trigger] order[p]) < n
}

/// The stored variables among the first `p` columns of the new order, each once, in the order of
/// their first occurrence.
pub open spec fn seen_slots(cols: Seq<Seq<u8>>, order: Seq<usize>, p: int) -> Seq<int>
    decreases p,
{
    if p <= 0 {
        Seq::empty()
    } else {
        let before = seen_slots(cols, order, p - 1);
        let c = order[p - 1] as int;
        if is_wild(cols[c]) && !before.contains(slot(cols, c)) {
            before.push(slot(cols, c))
        } else {
            before
        }
    }
}

/// Column `p` in the new order, with its variable renumbered.
pub open spec fn moved_column(cols: Seq<Seq<u8>>, order: Seq<usize>, p: int) -> Seq<u8> {
    let c = order[p] as int;
    let before = seen_slots(cols, order, p);
    if !is_wild(cols[c]) {
        cols[c]
    } else if before.contains(slot(cols, c)) {
        seq![(0x80 + before.index_of(slot(cols, c))) as u8]
    } else {
        seq![0xC0u8]
    }
}

/// The fact with its columns in the new order, and its variables numbered as they occur there.
pub open spec fn reordered(cols: Seq<Seq<u8>>, order: Seq<usize>) -> Seq<Seq<u8>> {
    Seq::new(order.len(), |p: int| moved_column(cols, order, p))
}

/// The variables in the new order.
pub open spec fn permuted(vars: Seq<usize>, order: Seq<usize>) -> Seq<usize> {
    Seq::new(order.len(), |p: int| vars[order[p] as int])
}

proof fn lemma_slot_range(cols: Seq<Seq<u8>>, c: int)
    requires
        is_simple(cols),
        0 <= c < cols.len(),
        is_wild(cols[c]),
    ensures
        0 <= slot(cols, c) < 64,
{
    crate::system::lemma_new_vars_mono(cols, c + 1, cols.len() as int);
}

/// At most 64 variables are seen, each once, and what was seen stays where it was.
pub proof fn lemma_seen_slots(cols: Seq<Seq<u8>>, order: Seq<usize>, p: int)
    requires
        is_simple(cols),
        is_column_order(order, cols.len()),
        0 <= p <= order.len(),
    ensures
        seen_slots(cols, order, p).no_duplicates(),
        seen_slots(cols, order, p).len() <= 64,
        forall|i: int|
            0 <= i < seen_slots(cols, order, p).len() ==> 0 <= #[trigger] seen_slots(
                cols,
                order,
                p,
            )[i] < 64,
    decreases p,
{
    let s = seen_slots(cols, order, p);
    if p > 0 {
        lemma_seen_slots(cols, order, p - 1);
        let c = order[p - 1] as int;
        if is_wild(cols[c]) {
            lemma_slot_range(cols, c);
        }
    }
    s.unique_seq_to_set();
    vstd::set_lib::lemma_int_range(0, 64);
    assert(s.to_set().subset_of(vstd::set_lib::set_int_range(0, 64)));
    vstd::set_lib::lemma_len_subset(s.to_set(), vstd::set_lib::set_int_range(0, 64));
}

proof fn lemma_seen_slots_stay(cols: Seq<Seq<u8>>, order: Seq<usize>, p: int, q: int)
    requires
        0 <= p <= q,
    ensures
        seen_slots(cols, order, p).len() <= seen_slots(cols, order, q).len(),
        seen_slots(cols, order, p) == seen_slots(cols, order, q).take(
            seen_slots(cols, order, p).len() as int,
        ),
    decreases q - p,
{
    let a = seen_slots(cols, order, p);
    if p == q {
        assert(a =~= a.take(a.len() as int));
    } else {
        lemma_seen_slots_stay(cols, order, p + 1, q);
        let b = seen_slots(cols, order, p + 1);
        assert(a =~= b.take(a.len() as int));
        assert(seen_slots(cols, order, q).take(b.len() as int).take(a.len() as int) =~= seen_slots(
            cols,
            order,
            q,
        ).take(a.len() as int));
    }
}

/// The new number of a column's variable is its place among the variables seen.
pub proof fn lemma_moved_slot(cols: Seq<Seq<u8>>, order: Seq<usize>, p: int)
    requires
        is_simple(cols),
        is_column_order(order, cols.len()),
        0 <= p < order.len(),
    ensures
        is_term(reordered(cols, order)[p]),
        is_wild(reordered(cols, order)[p]) == is_wild(cols[order[p] as int]),
        new_vars(reordered(cols, order), p) == seen_slots(cols, order, p).len(),
        is_wild(cols[order[p] as int]) ==> {
            &&& seen_slots(cols, order, p + 1).contains(slot(cols, order[p] as int))
            &&& slot(reordered(cols, order), p) == seen_slots(cols, order, p + 1).index_of(
                slot(cols, order[p] as int),
            )
            &&& 0 <= slot(reordered(cols, order), p) < seen_slots(cols, order, p + 1).len()
            &&& !is_new(reordered(cols, order)[p]) ==> slot(reordered(cols, order), p)
                < seen_slots(cols, order, p).len()
        },
        is_new(reordered(cols, order)[p]) == (is_wild(cols[order[p] as int]) && !seen_slots(
            cols,
            order,
            p,
        ).contains(slot(cols, order[p] as int))),
    decreases p,
{
    let re = reordered(cols, order);
    let c = order[p] as int;
    let before = seen_slots(cols, order, p);
    let after = seen_slots(cols, order, p + 1);
    lemma_seen_slots(cols, order, p);
    lemma_seen_slots(cols, order, p + 1);
    if p > 0 {
        lemma_moved_slot(cols, order, p - 1);
    }
    assert(is_term(cols[c]));
    assert(is_wild(cols[c]) || is_ground(cols[c]));
    if is_wild(cols[c]) {
        let t = slot(cols, c);
        if before.contains(t) {
            let i = before.index_of(t);
            assert(re[p][0] == 0x80 + i);
            lemma_var_is_term(re[p][0]);
        } else {
            lemma_var_is_term(0xC0);
            assert(after[before.len() as int] == t);
            assert(after.index_of(t) == before.len());
        }
    } else {
        assert(!is_new(cols[c]));
    }
}

/// Two columns have the same variable in the new order exactly when they had the same variable.
pub proof fn lemma_same_slot(cols: Seq<Seq<u8>>, order: Seq<usize>, p: int, q: int)
    requires
        is_simple(cols),
        is_column_order(order, cols.len()),
        0 <= p < order.len(),
        0 <= q < order.len(),
        is_wild(cols[order[p] as int]),
        is_wild(cols[order[q] as int]),
    ensures
        (slot(reordered(cols, order), p) == slot(reordered(cols, order), q)) == (slot(
            cols,
            order[p] as int,
        ) == slot(cols, order[q] as int)),
{
    let n = order.len() as int;
    let all = seen_slots(cols, order, n);
    lemma_moved_slot(cols, order, p);
    lemma_moved_slot(cols, order, q);
    lemma_seen_slots_stay(cols, order, p + 1, n);
    lemma_seen_slots_stay(cols, order, q + 1, n);
    lemma_seen_slots(cols, order, n);
    let a = seen_slots(cols, order, p + 1);
    let b = seen_slots(cols, order, q + 1);
    let i = slot(reordered(cols, order), p);
    let j = slot(reordered(cols, order), q);
    assert(a[i] == slot(cols, order[p] as int));
    assert(b[j] == slot(cols, order[q] as int));
    assert(all.take(a.len() as int)[i] == all[i]);
    assert(all.take(b.len() as int)[j] == all[j]);
}

/// Re-indexing keeps what a fact says: the fact in the new column order holds of exactly the
/// assignments that the fact holds of.
pub proof fn lemma_reordered(
    vars: Seq<usize>,
    cols: Seq<Seq<u8>>,
    order: Seq<usize>,
    q: Assignment,
)
    requires
        is_simple(cols),
        is_column_order(order, cols.len()),
        vars.len() == cols.len(),
    ensures
        holds_of(permuted(vars, order), reordered(cols, order), q) == holds_of(vars, cols, q),
        all_terms(reordered(cols, order)),
        well_scoped(reordered(cols, order)),
{
    let re = reordered(cols, order);
    let pv = permuted(vars, order);
    assert forall|p: int| 0 <= p < re.len() implies is_term(#[trigger] re[p]) by {
        lemma_moved_slot(cols, order, p);
    }
    assert forall|p: int| 0 <= p < re.len() implies is_wild(#[trigger] re[p]) || is_ground(re[p]) by {
        lemma_moved_slot(cols, order, p);
        let c = order[p] as int;
        assert(is_wild(cols[c]) || is_ground(cols[c]));
    }
    assert forall|p: int| 0 <= p < re.len() && is_wild(#[trigger] re[p]) && !is_new(re[p]) implies slot(
        re,
        p,
    ) < new_vars(re, p) by {
        lemma_moved_slot(cols, order, p);
    }
    if holds_of(vars, cols, q) {
        assert forall|p: int| 0 <= p < re.len() && !is_wild(#[trigger] re[p]) implies q(
            pv[p] as int,
        ) == re[p] by {
            lemma_moved_slot(cols, order, p);
            assert(cols[order[p] as int] == re[p]);
        }
        assert forall|p: int, r: int, t: int|
            0 <= p < re.len() && 0 <= r < re.len() && #[trigger] names(re, p, t)
                && #[trigger] names(re, r, t) implies q(pv[p] as int) == q(pv[r] as int) by {
            lemma_moved_slot(cols, order, p);
            lemma_moved_slot(cols, order, r);
            lemma_same_slot(cols, order, p, r);
            assert(names(cols, order[p] as int, slot(cols, order[p] as int)));
            assert(names(cols, order[r] as int, slot(cols, order[p] as int)));
        }
    }
    if holds_of(pv, re, q) {
        assert forall|c: int| 0 <= c < cols.len() && !is_wild(#[trigger] cols[c]) implies q(
            vars[c] as int,
        ) == cols[c] by {
            let p = lemma_column_place(order, cols.len(), c);
            lemma_moved_slot(cols, order, p);
            assert(re[p] == cols[c]);
        }
        assert forall|c: int, d: int, t: int|
            0 <= c < cols.len() && 0 <= d < cols.len() && #[trigger] names(cols, c, t)
                && #[trigger] names(cols, d, t) implies q(vars[c] as int) == q(vars[d] as int) by {
            let p = lemma_column_place(order, cols.len(), c);
            let r = lemma_column_place(order, cols.len(), d);
            lemma_moved_slot(cols, order, p);
            lemma_moved_slot(cols, order, r);
            lemma_same_slot(cols, order, p, r);
            assert(names(re, p, slot(re, p)));
            assert(names(re, r, slot(re, p)));
            assert(pv[p] == vars[c] && pv[r] == vars[d]);
        }
    }
}

/// Every column has a place in the new order.
pub proof fn lemma_column_place(order: Seq<usize>, n: nat, c: int) -> (p: int)
    requires
        is_column_order(order, n),
        0 <= c < n,
    ensures
        0 <= p < n,
        order[p] == c,
{
    let ints = order.map_values(|x: usize| x as int);
    assert(ints.no_duplicates()) by {
        assert forall|i: int, j: int| 0 <= i < ints.len() && 0 <= j < ints.len() && i != j implies ints[i]
            != ints[j] by {
            assert(order[i] != order[j]);
        }
    }
    ints.unique_seq_to_set();
    vstd::set_lib::lemma_int_range(0, n as int);
    let all = vstd::set_lib::set_int_range(0, n as int);
    assert(ints.to_set().subset_of(all));
    vstd::set_lib::lemma_subset_equality(ints.to_set(), all);
    assert(ints.to_set().contains(c));
    let p = choose|p: int| 0 <= p < ints.len() && ints[p] == c;
    p
}

pub proof fn lemma_ground_no_new(col: Seq<u8>, i: int)
    requires
        is_ground(col),
        0 <= i <= col.len(),
    ensures
        new_tags(col, i) == 0,
    decreases i,
{
    if i > 0 {
        lemma_ground_no_new(col, i - 1);
        assert(tag_at(col, i - 1) ==> !is_var_tag(col[i - 1]));
    }
}

/// In a simple fact the columns that are variables are numbered as their bytes are.
proof fn lemma_new_before_simple(cols: Seq<Seq<u8>>, c: int)
    requires
        is_simple(cols),
        0 <= c <= cols.len(),
    ensures
        new_before(cols, c) == new_vars(cols, c),
        new_before(cols, c) <= 64,
    decreases c,
{
    crate::system::lemma_new_vars_mono(cols, c, cols.len() as int);
    if c > 0 {
        lemma_new_before_simple(cols, c - 1);
        let col = cols[c - 1];
        if is_wild(col) {
            assert(col.take(0) =~= Seq::<u8>::empty());
            assert(tag_at(col, 0));
            assert(new_tags(col, 1) == if col[0] == 0xC0 {
                1nat
            } else {
                0nat
            }) by {
                reveal_with_fuel(new_tags, 2);
            }
        } else {
            assert(is_ground(cols[c - 1]));
            lemma_ground_no_new(col, col.len() as int);
        }
    }
}

/// More items leave the bytes of the earlier ones alone.
proof fn lemma_emitted_take(items: Seq<Item>, more: Seq<Item>, k: int)
    requires
        0 <= k < items.len(),
        items.len() <= more.len(),
        more.take(items.len() as int) == items,
    ensures
        emitted_byte(more, k) == emitted_byte(items, k),
{
    lemma_seen_take(items, more, k);
    assert(more.take(items.len() as int)[k] == more[k]);
}

/// Literal bytes bring no variable.
proof fn lemma_seen_bytes(items: Seq<Item>, i: int, j: int)
    requires
        0 <= i <= j <= items.len(),
        forall|k: int| i <= k < j ==> #[trigger] items[k] is Byte,
    ensures
        seen(items, j) == seen(items, i),
    decreases j,
{
    if i < j {
        lemma_seen_bytes(items, i, j - 1);
        assert(items[j - 1] is Byte);
    }
}

/// The re-emitted items spell the columns of the fact in the new order.
proof fn lemma_emitted(cols: Seq<Seq<u8>>, order: Seq<usize>, p: int)
    requires
        is_simple(cols),
        is_column_order(order, cols.len()),
        0 <= p <= order.len(),
    ensures
        emitted(flat(decoded(cols), order, p)) == joined(reordered(cols, order).take(p)),
        seen(
            flat(decoded(cols), order, p),
            flat(decoded(cols), order, p).len() as int,
        ).map_values(|x: usize| x as int) == seen_slots(cols, order, p),
    decreases p,
{
    let items = decoded(cols);
    let re = reordered(cols, order);
    let f = flat(items, order, p);
    let to_int = |x: usize| x as int;
    if p == 0 {
        assert(emitted(f) =~= joined(re.take(0)));
        assert(seen(f, 0).map_values(to_int) =~= seen_slots(cols, order, 0));
    } else {
        lemma_emitted(cols, order, p - 1);
        let e = flat(items, order, p - 1);
        let c = order[p - 1] as int;
        let col = cols[c];
        let m = e.len() as int;
        assert(items[c] == items_of(col, new_before(cols, c)));
        assert(f.take(m) =~= e);
        lemma_seen_take(e, f, m);
        lemma_seen_distinct(e, m);
        let sv = seen(e, m);
        let ss = seen_slots(cols, order, p - 1);
        assert(sv.map_values(to_int) == ss);
        assert(sv.len() == ss.len());
        assert forall|i: int| 0 <= i < sv.len() implies ss[i] == #[trigger] sv[i] as int by {
            assert(sv.map_values(to_int)[i] == sv[i] as int);
        }
        lemma_seen_slots(cols, order, p - 1);
        let piece = moved_column(cols, order, p - 1);
        assert(re[p - 1] == piece);
        assert(is_wild(cols[c]) || is_ground(cols[c]));
        if is_wild(col) {
            lemma_new_before_simple(cols, c);
            lemma_slot_range(cols, c);
            assert(col.take(0) =~= Seq::<u8>::empty());
            assert(tag_at(col, 0));
            let id = slot(cols, c) as usize;
            assert(f[m] == item_at(col, new_before(cols, c), 0));
            assert(new_tags(col, 0) == 0);
            assert(f[m] == Item::Var(id));
            assert(f.len() == m + 1);
            assert(sv.contains(id) == ss.contains(slot(cols, c))) by {
                if sv.contains(id) {
                    let i = choose|i: int| 0 <= i < sv.len() && sv[i] == id;
                    assert(ss[i] == slot(cols, c));
                }
                if ss.contains(slot(cols, c)) {
                    let i = choose|i: int| 0 <= i < ss.len() && ss[i] == slot(cols, c);
                    assert(sv[i] == id);
                }
            }
            if sv.contains(id) {
                let i = sv.index_of(id);
                let k = ss.index_of(slot(cols, c));
                assert(ss[i] == slot(cols, c));
                assert(ss[k] == slot(cols, c));
                assert(i == k);
            }
            assert(emitted_byte(f, m) == piece[0]);
            assert(seen(f, f.len() as int).map_values(to_int) =~= seen_slots(cols, order, p));
        } else {
            assert forall|k: int| m <= k < f.len() implies #[trigger] f[k] == Item::Byte(col[k - m]) by {
                assert(f[k] == item_at(col, new_before(cols, c), k - m));
                assert(tag_at(col, k - m) ==> !is_var_tag(col[k - m]));
            }
            lemma_seen_bytes(f, m, f.len() as int);
            assert forall|k: int| m <= k < f.len() implies #[trigger] emitted_byte(f, k) == piece[k
                - m] by {
                assert(f[k] == Item::Byte(col[k - m]));
            }
        }
        assert(emitted(f) =~= emitted(e) + piece) by {
            assert(f.len() == m + piece.len());
            assert forall|k: int| 0 <= k < f.len() implies emitted(f)[k] == (emitted(e) + piece)[k] by {
                if k < m {
                    lemma_emitted_take(e, f, k);
                } else {
                    assert(emitted_byte(f, k) == piece[k - m]);
                }
            }
        }
        assert(re.take(p) =~= re.take(p - 1).push(piece));
        lemma_joined_push(re.take(p - 1), piece);
    }
}

/// A simple fact, re-emitted, spells its columns in the new order.
pub proof fn lemma_simple_emitted(cols: Seq<Seq<u8>>, order: Seq<usize>)
    requires
        is_simple(cols),
        is_column_order(order, cols.len()),
    ensures
        re_emitted(cols, order) == joined(reordered(cols, order)),
{
    lemma_emitted(cols, order, order.len() as int);
    assert(reordered(cols, order).take(order.len() as int) =~= reordered(cols, order));
}

/// The columns are complete, and introduce few enough variables to number them.
pub open spec fn is_numberable(cols: Seq<Seq<u8>>) -> bool {
    all_terms(cols) && new_before(cols, cols.len() as int) <= 64
}

/// Every variable of a fact that can be numbered has a small number.
pub proof fn lemma_small_ids(cols: Seq<Seq<u8>>, c: int, i: int)
    requires
        is_numberable(cols),
        0 <= c < cols.len(),
        0 <= i < cols[c].len(),
    ensures
        match decoded(cols)[c][i] {
            Item::Var(id) => id < 64,
            _ => true,
        },
        tag_at(cols[c], i) && cols[c][i] == 0xC0 ==> new_before(cols, c) + new_tags(cols[c], i) < 64,
{
    lemma_new_before_mono(cols, c + 1, cols.len() as int);
    lemma_new_tags_mono(cols[c], i + 1, cols[c].len() as int);
}

/// Few variables are seen among the items of a fact that can be numbered.
pub proof fn lemma_few_seen(cols: Seq<Seq<u8>>, order: Seq<usize>, k: int)
    requires
        is_numberable(cols),
        is_column_order(order, cols.len()),
        0 <= k <= flat(decoded(cols), order, order.len() as int).len(),
    ensures
        seen(flat(decoded(cols), order, order.len() as int), k).len() <= 64,
{
    lemma_flat_small(cols, order, order.len() as int);
    lemma_small_seen(flat(decoded(cols), order, order.len() as int), k);
}

/// Few variables are seen among items whose variables have small numbers.
pub proof fn lemma_small_seen(f: Seq<Item>, k: int)
    requires
        0 <= k <= f.len(),
        forall|j: int| 0 <= j < f.len() ==> is_small(#[trigger] f[j]),
    ensures
        seen(f, k).len() <= 64,
{
    lemma_seen_small(f, k);
    lemma_seen_distinct(f, k);
    let ids = seen(f, k).map_values(|x: usize| x as int);
    assert(ids.no_duplicates()) by {
        assert forall|i: int, j: int| 0 <= i < ids.len() && 0 <= j < ids.len() && i != j implies ids[i]
            != ids[j] by {
            assert(seen(f, k)[i] != seen(f, k)[j]);
        }
    }
    ids.unique_seq_to_set();
    vstd::set_lib::lemma_int_range(0, 64);
    assert(ids.to_set().subset_of(vstd::set_lib::set_int_range(0, 64)));
    vstd::set_lib::lemma_len_subset(ids.to_set(), vstd::set_lib::set_int_range(0, 64));
}

/// The number of a variable is small.
pub open spec fn is_small(item: Item) -> bool {
    match item {
        Item::Var(id) => id < 64,
        _ => true,
    }
}

proof fn lemma_flat_small(cols: Seq<Seq<u8>>, order: Seq<usize>, p: int)
    requires
        is_numberable(cols),
        is_column_order(order, cols.len()),
        0 <= p <= order.len(),
    ensures
        forall|k: int|
            0 <= k < flat(decoded(cols), order, p).len() ==> is_small(
                #[trigger] flat(decoded(cols), order, p)[k],
            ),
    decreases p,
{
    if p > 0 {
        lemma_flat_small(cols, order, p - 1);
        let e = flat(decoded(cols), order, p - 1);
        let f = flat(decoded(cols), order, p);
        let c = order[p - 1] as int;
        assert forall|k: int| 0 <= k < f.len() implies is_small(#[trigger] f[k]) by {
            if k < e.len() {
                assert(f[k] == e[k]);
            } else {
                assert(f[k] == decoded(cols)[c][k - e.len()]);
                lemma_small_ids(cols, c, k - e.len());
            }
        }
    }
}

proof fn lemma_seen_small(items: Seq<Item>, k: int)
    requires
        0 <= k <= items.len(),
        forall|j: int| 0 <= j < items.len() ==> is_small(#[trigger] items[j]),
    ensures
        forall|i: int| 0 <= i < seen(items, k).len() ==> #[trigger] seen(items, k)[i] < 64,
    decreases k,
{
    if k > 0 {
        lemma_seen_small(items, k - 1);
        assert(is_small(items[k - 1]));
        let before = seen(items, k - 1);
        assert forall|i: int| 0 <= i < seen(items, k).len() implies #[trigger] seen(items, k)[i]
            < 64 by {
            if i < before.len() {
                assert(seen(items, k)[i] == before[i]);
            }
        }
    }
}

/// The order of the columns by the position of their variables; columns of one variable stay in
/// order.
pub open spec fn is_stable_order(order: Seq<usize>, vars: Seq<usize>, pos: Seq<usize>) -> bool {
    &&& is_column_order(order, vars.len())
    &&& forall|p: int, q: int|
        #![trigger order[p], order[q]]
        0 <= p < q < order.len() ==> {
            ||| pos[vars[order[p] as int] as int] < pos[vars[order[q] as int] as int]
            ||| pos[vars[order[p] as int] as int] == pos[vars[order[q] as int] as int] && order[p]
                < order[q]
        }
}

/// Sort the columns by the position of their variables.
fn column_order(vars: &Vec<usize>, var_pos: &[usize]) -> (order: Vec<usize>)
    requires
        forall|c: int| 0 <= c < vars@.len() ==> (#[trigger] vars@[c]) < var_pos@.len(),
    ensures
        is_stable_order(order@, vars@, var_pos@),
{
    let mut order: Vec<usize> = Vec::new();
    let mut c: usize = 0;
    while c < vars.len()
        invariant
            c <= vars@.len(),
            forall|c: int| 0 <= c < vars@.len() ==> (#[trigger] vars@[c]) < var_pos@.len(),
            is_column_order(order@, c as nat),
            forall|p: int, q: int|
                #![trigger order@[p], order@[q]]
                0 <= p < q < order@.len() ==> {
                    ||| var_pos@[vars@[order@[p] as int] as int]
                        < var_pos@[vars@[order@[q] as int] as int]
                    ||| var_pos@[vars@[order@[p] as int] as int]
                        == var_pos@[vars@[order@[q] as int] as int] && order@[p] < order@[q]
                },
        decreases vars@.len() - c,
    {
        let key = var_pos[vars[c]];
        let mut at: usize = order.len();
        while at > 0 && var_pos[vars[order[at - 1]]] > key
            invariant
                at <= order@.len(),
                c < vars@.len(),
                forall|c: int| 0 <= c < vars@.len() ==> (#[trigger] vars@[c]) < var_pos@.len(),
                is_column_order(order@, c as nat),
                forall|p: int|
                    at <= p < order@.len() ==> var_pos@[vars@[#[trigger] order@[p] as int] as int]
                        > key,
            decreases at,
        {
            at -= 1;
        }
        let ghost before = order@;
        order.insert(at, c);
        proof {
            let after = order@;
            assert forall|p: int| 0 <= p < after.len() implies #[trigger] after[p] == if p < at {
                before[p]
            } else if p == at {
                c
            } else {
                before[p - 1]
            } by {}
            assert forall|p: int| 0 <= p < before.len() implies #[trigger] before[p] < c by {}
            assert(after.no_duplicates());
        }
        c += 1;
    }
    order
}

/// `cols` are the first `n` columns that follow `prefix` in `v`.
pub open spec fn starts_with(prefix: Seq<u8>, n: nat, v: Seq<u8>, cols: Seq<Seq<u8>>) -> bool {
    &&& cols.len() == n
    &&& all_terms(cols)
    &&& is_prefix(prefix + joined(cols), v)
}

/// Every value below `prefix` is a fact of `n` simple columns.
pub open spec fn values_simple(values: Set<Seq<u8>>, prefix: Seq<u8>, n: nat) -> bool {
    forall|v: Seq<u8>| #[trigger]
        values.contains(v) && is_prefix(prefix, v) && v != prefix ==> exists|cols: Seq<Seq<u8>>| #[trigger]
            starts_with(prefix, n, v, cols) && is_simple(cols)
}

/// Every value below `prefix` is a fact of `n` columns that can be numbered.
pub open spec fn values_numberable(values: Set<Seq<u8>>, prefix: Seq<u8>, n: nat) -> bool {
    forall|v: Seq<u8>| #[trigger]
        values.contains(v) && is_prefix(prefix, v) && v != prefix ==> exists|cols: Seq<Seq<u8>>| #[trigger]
            starts_with(prefix, n, v, cols) && is_numberable(cols)
}

pub proof fn lemma_simple_numberable(values: Set<Seq<u8>>, prefix: Seq<u8>, n: nat)
    requires
        values_simple(values, prefix, n),
    ensures
        values_numberable(values, prefix, n),
{
    assert forall|v: Seq<u8>| #[trigger]
        values.contains(v) && is_prefix(prefix, v) && v != prefix implies exists|
        cols: Seq<Seq<u8>>,
    | #[trigger]
        starts_with(prefix, n, v, cols) && is_numberable(cols) by {
        let cols = choose|cols: Seq<Seq<u8>>| #[trigger]
            starts_with(prefix, n, v, cols) && is_simple(cols);
        lemma_new_before_simple(cols, cols.len() as int);
        assert(starts_with(prefix, n, v, cols) && is_numberable(cols));
    }
}

/// `key` is a fact below `prefix` with its columns in the new order.
pub open spec fn is_moved_fact(
    values: Set<Seq<u8>>,
    prefix: Seq<u8>,
    order: Seq<usize>,
    key: Seq<u8>,
) -> bool {
    exists|v: Seq<u8>, cols: Seq<Seq<u8>>| #[trigger]
        values.contains(v) && v != prefix && #[trigger] starts_with(prefix, order.len(), v, cols)
            && key == re_emitted(cols, order)
}

/// The values below `prefix` that come no later than `at`.
spec fn visited(values: Set<Seq<u8>>, prefix: Seq<u8>, at: Seq<u8>) -> Set<Seq<u8>> {
    Set::new(|v: Seq<u8>| values.contains(v) && is_prefix(prefix, v) && v != prefix && !lt(at, v))
}

proof fn lemma_visit(values: Set<Seq<u8>>, prefix: Seq<u8>, at: Seq<u8>, v: Seq<u8>)
    requires
        next_value(values, prefix, at, v),
        at == prefix || lt(prefix, at),
    ensures
        visited(values, prefix, v) == visited(values, prefix, at).insert(v),
        !visited(values, prefix, at).contains(v),
        lt(prefix, v),
{
    if at != prefix {
        lemma_lt_trans(prefix, at, v);
    }
    lemma_lt_total(prefix, v);
    lemma_lt_total(v, v);
    assert forall|u: Seq<u8>| visited(values, prefix, v).contains(u) == visited(
        values,
        prefix,
        at,
    ).insert(v).contains(u) by {
        if visited(values, prefix, at).contains(u) && lt(v, u) {
            lemma_lt_trans(at, v, u);
        }
        if visited(values, prefix, v).contains(u) && lt(at, u) {
            assert(u == v || lt(v, u));
        }
    }
    assert(visited(values, prefix, v) =~= visited(values, prefix, at).insert(v));
}

/// Re-emit one fact in the new column order.
fn reorder_fact(bytes: &[u8], order: &Vec<usize>, Ghost(cols): Ghost<Seq<Seq<u8>>>) -> (key: Vec<
    u8,
>)
    requires
        is_numberable(cols),
        is_prefix(joined(cols), bytes@),
        is_column_order(order@, cols.len()),
    ensures
        key@ == re_emitted(cols, order@),
{
    proof {
        lemma_joined_spells(cols);
        lemma_holds_extend(cols.len(), joined(cols), bytes@);
    }
    let split = split_columns(bytes, order.len());
    proof {
        lemma_columns_unique(slices(split@), cols, bytes@);
    }
    let items = columns_to_items(&split);
    proof {
        assert(lists_of(items@).len() == items@.len());
        let f = flat(decoded(cols), order@, order@.len() as int);
        lemma_few_seen(cols, order@, f.len() as int);
    }
    emit_reordered(&items, order)
}

/// Re-index an inverted factor: copy its facts into a fresh set with the columns in the order of
/// their variables, and the stored variables renumbered. Returns that set and the new list of
/// column variables, so that the join seeks it like any other factor.
pub fn build_reindex<T: PathTrie>(map: &T, factor: &Factor, var_pos: &[usize]) -> (r: (
    PathSet,
    Vec<usize>,
))
    requires
        forall|c: int|
            0 <= c < factor.cols@.len() ==> (#[trigger] factor.cols@[c]) < var_pos@.len(),
        values_numberable(map.values(), factor.prefix@, factor.cols@.len()),
    ensures
        is_trie(map.paths()),
        map.values().subset_of(map.paths()),
        exists|order: Seq<usize>| #[trigger]
            is_stable_order(order, factor.cols@, var_pos@) && r.1@ == permuted(factor.cols@, order)
                && forall|key: Seq<u8>| #[trigger]
                r.0@.contains(key) == is_moved_fact(map.values(), factor.prefix@, order, key),
{
    let order = column_order(&factor.cols, var_pos);
    let mut new_cols: Vec<usize> = Vec::new();
    while new_cols.len() < order.len()
        invariant
            is_stable_order(order@, factor.cols@, var_pos@),
            new_cols@.len() <= order@.len(),
            forall|p: int|
                0 <= p < new_cols@.len() ==> #[trigger] new_cols@[p] == permuted(
                    factor.cols@,
                    order@,
                )[p],
        decreases order@.len() - new_cols@.len(),
    {
        let c = order[new_cols.len()];
        new_cols.push(factor.cols[c]);
    }
    assert(new_cols@ =~= permuted(factor.cols@, order@));
    let mut reindex = PathSet::new();
    let plen = factor.prefix.len();
    let ghost values = map.values();
    let ghost prefix = factor.prefix@;
    let ghost n = factor.cols@.len();
    let mut rz = map.read_zipper_at_path(&factor.prefix);
    proof {
        vstd::set_lib::lemma_set_subset_finite(map.paths(), values);
        assert forall|key: Seq<u8>| !#[trigger] is_moved_fact(
            visited(values, prefix, prefix),
            prefix,
            order@,
            key,
        ) by {
            if is_moved_fact(visited(values, prefix, prefix), prefix, order@, key) {
                let (v, cols) = choose|v: Seq<u8>, cols: Seq<Seq<u8>>| #[trigger]
                    visited(values, prefix, prefix).contains(v) && v != prefix
                        && #[trigger] starts_with(prefix, order@.len(), v, cols) && key == re_emitted(
                        cols,
                        order@,
                    );
                assert(v.take(v.len() as int) =~= v);
                assert(lt(prefix, v));
            }
        }
    }
    loop
        invariant
            is_stable_order(order@, factor.cols@, var_pos@),
            is_trie(map.paths()),
            map.values().subset_of(map.paths()),
            values == map.values(),
            values.finite(),
            prefix == factor.prefix@,
            plen == prefix.len(),
            n == factor.cols@.len(),
            values_numberable(values, prefix, n),
            rz.values() == values,
            rz.root() == prefix,
            rz.focus() == prefix || lt(prefix, rz.focus()),
            new_cols@ == permuted(factor.cols@, order@),
            forall|key: Seq<u8>| #[trigger]
                reindex@.contains(key) == is_moved_fact(
                    visited(values, prefix, rz.focus()),
                    prefix,
                    order@,
                    key,
                ),
        decreases values.difference(visited(values, prefix, rz.focus())).len(),
    {
        let ghost at = rz.focus();
        if !rz.to_next_val() {
            proof {
                assert forall|key: Seq<u8>| #[trigger] is_moved_fact(
                    visited(values, prefix, at),
                    prefix,
                    order@,
                    key,
                ) == is_moved_fact(values, prefix, order@, key) by {
                    lemma_moved_values(values, visited(values, prefix, at), prefix, order@, key);
                }
            }
            return (reindex, new_cols);
        }
        let ghost v = rz.focus();
        proof {
            lemma_visit(values, prefix, at, v);
            assert(values.difference(visited(values, prefix, v)) =~= values.difference(
                visited(values, prefix, at),
            ).remove(v));
        }
        let full = rz.origin_path();
        let rest = slice_subrange(full, plen, full.len());
        let ghost cols = choose|cols: Seq<Seq<u8>>| #[trigger]
            starts_with(prefix, n, v, cols) && is_numberable(cols);
        proof {
            assert(rest@ =~= v.skip(plen as int));
            lemma_rest_prefix(prefix, joined(cols), v);
        }
        let key = reorder_fact(rest, &order, Ghost(cols));
        let ghost before = reindex@;
        reindex.insert(&key);
        proof {
            assert forall|k: Seq<u8>| #[trigger] reindex@.contains(k) == is_moved_fact(
                visited(values, prefix, v),
                prefix,
                order@,
                k,
            ) by {
                lemma_moved_more(visited(values, prefix, at), v, prefix, order@, cols, k);
            }
        }
    }
}

/// The columns that follow a prefix in a value come first in the rest of it.
pub proof fn lemma_rest_prefix(prefix: Seq<u8>, cols: Seq<u8>, v: Seq<u8>)
    requires
        is_prefix(prefix + cols, v),
    ensures
        prefix.len() <= v.len(),
        is_prefix(cols, v.skip(prefix.len() as int)),
        is_prefix(prefix, v),
{
    let all = prefix + cols;
    assert(all =~= v.take(all.len() as int));
    assert(prefix =~= all.take(prefix.len() as int));
    assert(cols =~= all.skip(prefix.len() as int));
    assert(cols =~= v.skip(prefix.len() as int).take(cols.len() as int));
    assert(prefix =~= v.take(prefix.len() as int));
}

/// One more fact.
proof fn lemma_moved_more(
    values: Set<Seq<u8>>,
    v: Seq<u8>,
    prefix: Seq<u8>,
    order: Seq<usize>,
    cols: Seq<Seq<u8>>,
    key: Seq<u8>,
)
    requires
        v != prefix,
        starts_with(prefix, order.len(), v, cols),
    ensures
        is_moved_fact(values.insert(v), prefix, order, key) == (is_moved_fact(
            values,
            prefix,
            order,
            key,
        ) || key == re_emitted(cols, order)),
{
    if is_moved_fact(values.insert(v), prefix, order, key) {
        let (u, other) = choose|u: Seq<u8>, other: Seq<Seq<u8>>| #[trigger]
            values.insert(v).contains(u) && u != prefix && #[trigger] starts_with(
                prefix,
                order.len(),
                u,
                other,
            ) && key == re_emitted(other, order);
        if u == v {
            lemma_rest_prefix(prefix, joined(other), v);
            lemma_rest_prefix(prefix, joined(cols), v);
            lemma_columns_unique(other, cols, v.skip(prefix.len() as int));
        } else {
            assert(values.contains(u));
        }
    }
    if is_moved_fact(values, prefix, order, key) {
        let (u, other) = choose|u: Seq<u8>, other: Seq<Seq<u8>>| #[trigger]
            values.contains(u) && u != prefix && #[trigger] starts_with(
                prefix,
                order.len(),
                u,
                other,
            ) && key == re_emitted(other, order);
        assert(values.insert(v).contains(u));
    }
    assert(values.insert(v).contains(v));
}

/// Only the values below the prefix count.
proof fn lemma_moved_values(
    values: Set<Seq<u8>>,
    under: Set<Seq<u8>>,
    prefix: Seq<u8>,
    order: Seq<usize>,
    key: Seq<u8>,
)
    requires
        forall|v: Seq<u8>| #[trigger] under.contains(v) ==> values.contains(v),
        forall|v: Seq<u8>| #[trigger]
            values.contains(v) && is_prefix(prefix, v) && v != prefix ==> under.contains(v),
    ensures
        is_moved_fact(under, prefix, order, key) == is_moved_fact(values, prefix, order, key),
{
    if is_moved_fact(values, prefix, order, key) {
        let (v, cols) = choose|v: Seq<u8>, cols: Seq<Seq<u8>>| #[trigger]
            values.contains(v) && v != prefix && #[trigger] starts_with(
                prefix,
                order.len(),
                v,
                cols,
            ) && key == re_emitted(cols, order);
        lemma_rest_prefix(prefix, joined(cols), v);
        assert(under.contains(v));
    }
    if is_moved_fact(under, prefix, order, key) {
        let (v, cols) = choose|v: Seq<u8>, cols: Seq<Seq<u8>>| #[trigger]
            under.contains(v) && v != prefix && #[trigger] starts_with(
                prefix,
                order.len(),
                v,
                cols,
            ) && key == re_emitted(cols, order);
        assert(values.contains(v));
    }
}

} // verus!
