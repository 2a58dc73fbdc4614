//! Re-indexing in plain terms: how a fact is split into columns, decoded, and spelled out again in
//! another order.

use vstd::prelude::*;
use crate::answers::{
    holds_facts, introductions, is_plain_fact, lemma_facts_plain, lemma_introductions,
    lemma_plain_scoped, lemma_spells_columns, spells_columns,
};
use crate::fact::{is_new, is_wild, new_vars, slot, well_scoped};
use crate::factor::{all_terms, joined, lemma_columns_unique, lemma_joined_spells, Factor};
use crate::meaning::{
    lemma_ground_args, lemma_ground_bytes, lemma_joined_flat, lemma_tag_later, lemma_term_bytes,
};
use crate::order::is_prefix;
use crate::reemit::lemma_seen_index;
use crate::reindex::{
    build_reindex, columns_to_items, emit_reordered, emitted, emitted_byte, flat, is_column_order,
    is_inverted, is_moved_fact, is_simple, is_stable_order, item_at, items_of,
    lemma_ground_no_new, lemma_moved_slot, lemma_reordered, lemma_rest_prefix, lemma_same_slot,
    lemma_seen_distinct, lemma_seen_slots, lemma_simple_emitted, lemma_simple_numberable, lists_of,
    moved_column, new_before, new_tags, permuted, re_emitted, reordered, seen, seen_slots, slices,
    split_columns, starts_with, Item,
};
use crate::path_set::PathSet;
use crate::system::lemma_new_vars_mono;
use crate::term::{is_ground, is_term, is_var_tag, lemma_holds_extend, run, tag_at};
use crate::trie::PathTrie;
use crate::walking::is_stored_variable;

verus! {

/// Splitting a string of `n` terms, and whatever follows them, gives the `n` terms.
pub proof fn lemma_split(
    bytes: &[u8],
    cols: Seq<Seq<u8>>,
    rest: Seq<u8>,
    n: usize,
    out: Vec<&[u8]>,
)
    requires
        cols.len() == n,
        forall|j: int| 0 <= j < cols.len() ==> is_term(#[trigger] cols[j]),
        bytes@ == cols.flatten() + rest,
        call_ensures(split_columns, (bytes, n), out),
    ensures
        call_requires(split_columns, (bytes, n)),
        out@.len() == n,
        forall|j: int| 0 <= j < n ==> (#[trigger] out@[j])@ == cols[j],
{
    lemma_joined_flat(cols);
    lemma_joined_spells(cols);
    assert(joined(cols) =~= bytes@.take(joined(cols).len() as int));
    assert(is_prefix(joined(cols), bytes@));
    lemma_holds_extend(n as nat, joined(cols), bytes@);
    let got = slices(out@);
    lemma_columns_unique(got, cols, bytes@);
    assert forall|j: int| 0 <= j < n implies (#[trigger] out@[j])@ == cols[j] by {
        assert(got[j] == out@[j]@);
    }
}

/// A factor is inverted exactly when some later column's variable comes earlier in the order.
pub proof fn lemma_inverted(factor: &Factor, var_pos: &[usize], r: bool)
    requires
        call_ensures(is_inverted, (factor, var_pos), r),
    ensures
        r <==> exists|a: int, b: int|
            0 <= a < b < factor.cols@.len() && var_pos@[(#[trigger] factor.cols@[b]) as int]
                < var_pos@[(#[trigger] factor.cols@[a]) as int],
{
}

/// The items of the columns in the new order.
pub open spec fn in_new_order(items: Seq<Vec<Item>>, order: Seq<usize>) -> Seq<Item> {
    order.map_values(|c: usize| items[c as int]@).flatten()
}

proof fn lemma_flat_plain(items: Seq<Vec<Item>>, order: Seq<usize>, p: int)
    requires
        0 <= p <= order.len(),
        forall|q: int| 0 <= q < order.len() ==> (#[trigger] order[q]) < items.len(),
    ensures
        flat(lists_of(items), order, p) == in_new_order(items, order.take(p)),
    decreases p,
{
    let lists = order.take(p).map_values(|c: usize| items[c as int]@);
    if p == 0 {
        assert(lists.flatten() =~= Seq::<Item>::empty());
    } else {
        lemma_flat_plain(items, order, p - 1);
        let front = order.take(p - 1).map_values(|c: usize| items[c as int]@);
        let last = items[order[p - 1] as int]@;
        assert(order[p - 1] < items.len());
        assert(lists =~= front.push(last));
        front.lemma_flatten_push(last);
    }
}

/// How many of the first `k` items are variables that the bytes introduce.
pub open spec fn introduced(items: Seq<Item>, bytes: Seq<u8>, k: int) -> nat {
    Seq::new(k as nat, |i: int| items[i] is Var && bytes[i] == 0xC0).filter(|new: bool| new).len()
}

/// Item `j` is the first that is the variable `id`.
pub open spec fn is_first(items: Seq<Item>, id: usize, j: int) -> bool {
    &&& 0 <= j < items.len()
    &&& items[j] == Item::Var(id)
    &&& forall|i: int| 0 <= i < j ==> #[trigger] items[i] != Item::Var(id)
}

proof fn lemma_seen_contains(items: Seq<Item>, k: int, id: usize)
    requires
        0 <= k <= items.len(),
    ensures
        seen(items, k).contains(id) <==> exists|i: int|
            0 <= i < k && #[trigger] items[i] == Item::Var(id),
    decreases k,
{
    if k > 0 {
        lemma_seen_contains(items, k - 1, id);
        let before = seen(items, k - 1);
        let here = seen(items, k);
        if exists|i: int| 0 <= i < k && #[trigger] items[i] == Item::Var(id) {
            let i = choose|i: int| 0 <= i < k && #[trigger] items[i] == Item::Var(id);
            if i == k - 1 {
                if !before.contains(id) {
                    assert(here[before.len() as int] == id);
                }
            } else {
                assert(before.contains(id));
                let n = before.index_of(id);
                assert(here[n] == id);
            }
        }
        if here.contains(id) && !before.contains(id) {
            let n = choose|n: int| 0 <= n < here.len() && here[n] == id;
            if n < before.len() {
                assert(before[n] == id);
            }
            assert(items[k - 1] == Item::Var(id));
        }
    }
}

/// No more variables are seen than there are.
proof fn lemma_seen_within(items: Seq<Item>, ids: Set<usize>, k: int)
    requires
        0 <= k <= items.len(),
        ids.finite(),
        forall|j: int|
            0 <= j < items.len() ==> match #[trigger] items[j] {
                Item::Var(id) => ids.contains(id),
                Item::Byte(_) => true,
            },
    ensures
        seen(items, k).len() <= ids.len(),
{
    let s = seen(items, k);
    lemma_seen_distinct(items, k);
    s.unique_seq_to_set();
    assert forall|id: usize| s.to_set().contains(id) implies ids.contains(id) by {
        lemma_seen_contains(items, k, id);
        assert(s.contains(id));
        let i = choose|i: int| 0 <= i < k && #[trigger] items[i] == Item::Var(id);
        assert(ids.contains(id));
    }
    vstd::set_lib::lemma_len_subset(s.to_set(), ids);
}

proof fn lemma_introduced(items: Seq<Item>, ids: Set<usize>, k: int)
    requires
        0 <= k <= items.len(),
        ids.finite(),
        ids.len() <= 64,
        forall|j: int|
            0 <= j < items.len() ==> match #[trigger] items[j] {
                Item::Var(id) => ids.contains(id),
                Item::Byte(_) => true,
            },
    ensures
        introduced(items, emitted(items), k) == seen(items, k).len(),
    decreases k,
{
    reveal(Seq::filter);
    let bytes = emitted(items);
    let flags = Seq::new(k as nat, |i: int| items[i] is Var && bytes[i] == 0xC0);
    if k > 0 {
        lemma_introduced(items, ids, k - 1);
        let front = Seq::new((k - 1) as nat, |i: int| items[i] is Var && bytes[i] == 0xC0);
        assert(flags.drop_last() =~= front);
        assert(flags.last() == (items[k - 1] is Var && bytes[k - 1] == 0xC0));
        assert(bytes[k - 1] == emitted_byte(items, k - 1));
        match items[k - 1] {
            Item::Var(id) => {
                if seen(items, k - 1).contains(id) {
                    lemma_seen_index(items, k - 1, id);
                    lemma_seen_within(items, ids, k - 1);
                }
            },
            Item::Byte(b) => {},
        }
    }
}

/// What is emitted for the items of the columns in the new order, one byte for each: a literal byte
/// is itself, the first occurrence of a variable is `0xC0`, and a later one is `0x80 + n`, where `n`
/// variables were introduced before this one was. The variables, `ids`, are at most as many as a
/// reference can tell apart.
pub proof fn lemma_emitted_bytes(
    items_by_col: &[Vec<Item>],
    new_order: &[usize],
    ids: Set<usize>,
    out: Vec<u8>,
)
    requires
        forall|p: int|
            0 <= p < new_order@.len() ==> (#[trigger] new_order@[p]) < items_by_col@.len(),
        forall|k: int|
            0 <= k < in_new_order(items_by_col@, new_order@).len() ==> match #[trigger] in_new_order(
                items_by_col@,
                new_order@,
            )[k] {
                Item::Var(id) => ids.contains(id),
                Item::Byte(_) => true,
            },
        ids.finite(),
        ids.len() <= 64,
        call_ensures(emit_reordered, (items_by_col, new_order), out),
    ensures
        call_requires(emit_reordered, (items_by_col, new_order)),
        out@.len() == in_new_order(items_by_col@, new_order@).len(),
        forall|k: int|
            0 <= k < out@.len() ==> match #[trigger] in_new_order(items_by_col@, new_order@)[k] {
                Item::Byte(b) => out@[k] == b,
                Item::Var(id) => is_first(in_new_order(items_by_col@, new_order@), id, k) ==> out@[k]
                    == 0xC0,
            },
        forall|j: int, k: int, id: usize|
            0 <= j < k < out@.len() && #[trigger] is_first(
                in_new_order(items_by_col@, new_order@),
                id,
                j,
            ) && #[trigger] in_new_order(items_by_col@, new_order@)[k] == Item::Var(id) ==> out@[k]
                == 0x80 + introduced(in_new_order(items_by_col@, new_order@), out@, j),
{
    let all = in_new_order(items_by_col@, new_order@);
    let n = new_order@.len() as int;
    lemma_flat_plain(items_by_col@, new_order@, n);
    assert(new_order@.take(n) =~= new_order@);
    assert(flat(lists_of(items_by_col@), new_order@, n) == all);
    lemma_seen_within(all, ids, all.len() as int);
    assert(out@ == emitted(all));
    assert forall|k: int| 0 <= k < out@.len() implies match #[trigger] all[k] {
        Item::Byte(b) => out@[k] == b,
        Item::Var(id) => is_first(all, id, k) ==> out@[k] == 0xC0,
    } by {
        assert(out@[k] == emitted_byte(all, k));
        match all[k] {
            Item::Byte(b) => {},
            Item::Var(id) => {
                lemma_seen_contains(all, k, id);
            },
        }
    }
    assert forall|j: int, k: int, id: usize|
        0 <= j < k < out@.len() && #[trigger] is_first(all, id, j) && #[trigger] all[k] == Item::Var(
            id,
        ) implies out@[k] == 0x80 + introduced(all, out@, j) by {
        assert(out@[k] == emitted_byte(all, k));
        lemma_seen_contains(all, k, id);
        lemma_seen_contains(all, j, id);
        assert(all[j] == Item::Var(id));
        let here = seen(all, j + 1);
        let before = seen(all, j);
        assert(here == before.push(id));
        assert(here[before.len() as int] == id);
        assert(here.contains(id));
        lemma_seen_index(all, j + 1, id);
        lemma_seen_index(all, k, id);
        lemma_seen_distinct(all, j + 1);
        assert(here.index_of(id) == before.len());
        lemma_seen_within(all, ids, k);
        lemma_introduced(all, ids, j);
    }
}

/// How many variables a term introduces.
pub open spec fn introduced_in(col: Seq<u8>) -> nat {
    new_tags(col, col.len() as int)
}

/// Within a compound term, the items and introductions of its argument `k` are the argument's own,
/// numbered after those of the arguments before it.
proof fn lemma_argument_items(w: Seq<u8>, args: Seq<Seq<u8>>, base: nat, k: int)
    requires
        w.len() > 0,
        w[0] < 0x40,
        args.len() == w[0],
        all_terms(args),
        w == seq![w[0]] + joined(args),
        0 <= k <= args.len(),
        base + w.len() <= usize::MAX,
    ensures
        1 + joined(args.take(k)).len() <= w.len(),
        new_tags(w, 1 + joined(args.take(k)).len() as int) == new_before(args, k),
        k < args.len() ==> 1 + joined(args.take(k)).len() + args[k].len() <= w.len(),
        forall|i: int|
            #![trigger args[k][i]]
            k < args.len() && 0 <= i < args[k].len() ==> items_of(w, base)[1 + joined(
                args.take(k),
            ).len() + i] == items_of(args[k], base + new_before(args, k))[i],
    decreases k,
{
    let tag = seq![w[0]];
    let start = 1 + joined(args.take(k)).len() as int;
    assert(is_prefix(tag + joined(args.take(k)), w)) by {
        lemma_ground_args(w, args, k);
    }
    if k == 0 {
        assert(joined(args.take(0)) =~= Seq::<u8>::empty());
        assert(w.take(0) =~= Seq::<u8>::empty());
        assert(new_tags(w, 0) == 0);
        assert(new_tags(w, 1) == 0);
    } else {
        lemma_argument_items(w, args, base, k - 1);
        let prev = joined(args.take(k - 1));
        let t = args[k - 1];
        assert(args.take(k).drop_last() =~= args.take(k - 1));
        assert(args.take(k).last() == t);
        lemma_argument_tags(w, args, k - 1, t.len() as int);
    }
    if k < args.len() {
        let t = args[k];
        assert(is_prefix(tag + joined(args.take(k + 1)), w)) by {
            lemma_ground_args(w, args, k + 1);
        }
        assert(args.take(k + 1).drop_last() =~= args.take(k));
        assert(args.take(k + 1).last() == t);
        assert forall|i: int|
            #![trigger args[k][i]]
            0 <= i < args[k].len() implies items_of(w, base)[start + i] == items_of(
            args[k],
            base + new_before(args, k),
        )[i] by {
            lemma_argument_tags(w, args, k, i);
            lemma_argument_at(w, args, k, i);
        }
    }
}

/// Byte `i` of argument `k`, and whether it is a tag.
proof fn lemma_argument_at(w: Seq<u8>, args: Seq<Seq<u8>>, k: int, i: int)
    requires
        w.len() > 0,
        w[0] < 0x40,
        args.len() == w[0],
        all_terms(args),
        w == seq![w[0]] + joined(args),
        0 <= k < args.len(),
        0 <= i < args[k].len(),
    ensures
        1 + joined(args.take(k)).len() + i < w.len(),
        w[1 + joined(args.take(k)).len() + i] == args[k][i],
        tag_at(w, 1 + joined(args.take(k)).len() + i) == tag_at(args[k], i),
{
    let tag = seq![w[0]];
    let t = args[k];
    let start = tag + joined(args.take(k));
    let left = (args.len() - k) as nat;
    assert(run((1, 0), start) == (left, 0nat) && is_prefix(start, w)) by {
        lemma_ground_args(w, args, k);
    }
    assert(is_prefix(tag + joined(args.take(k + 1)), w)) by {
        lemma_ground_args(w, args, k + 1);
    }
    assert(args.take(k + 1).drop_last() =~= args.take(k));
    assert(args.take(k + 1).last() == t);
    let all = start + t;
    assert(tag + joined(args.take(k + 1)) =~= all);
    assert(all =~= w.take(all.len() as int));
    assert(start =~= w.take(start.len() as int));
    assert(t =~= w.subrange(start.len() as int, (start.len() + t.len()) as int)) by {
        assert forall|j: int| 0 <= j < t.len() implies t[j] == w[start.len() + j] by {
            assert(all[start.len() + j] == t[j]);
        }
    }
    assert(all[start.len() + i] == t[i]);
    lemma_tag_later(w, (args.len() - k - 1) as nat, start, t, i);
}

/// The introductions up to byte `i` of argument `k`, given those up to its start.
proof fn lemma_argument_tags(w: Seq<u8>, args: Seq<Seq<u8>>, k: int, i: int)
    requires
        w.len() > 0,
        w[0] < 0x40,
        args.len() == w[0],
        all_terms(args),
        w == seq![w[0]] + joined(args),
        0 <= k < args.len(),
        0 <= i <= args[k].len(),
        new_tags(w, 1 + joined(args.take(k)).len() as int) == new_before(args, k),
    ensures
        new_tags(w, 1 + joined(args.take(k)).len() + i) == new_before(args, k) + new_tags(args[k], i),
    decreases i,
{
    if i > 0 {
        lemma_argument_tags(w, args, k, i - 1);
        lemma_argument_at(w, args, k, i - 1);
    }
}

/// The items of a term, one for each byte, by its first byte. A symbol's are its bytes. An
/// introduction is the variable `base`, and `0x80 + n` is variable `n`. A compound term's are its
/// arity and then those of its arguments, each numbered after the arguments before it.
pub proof fn lemma_item_shape(col: Seq<u8>, args: Seq<Seq<u8>>, base: nat)
    requires
        is_term(col),
        base + col.len() <= usize::MAX,
    ensures
        items_of(col, base).len() == col.len(),
        col[0] >= 0xC1 || 0x40 <= col[0] < 0x80 ==> introduced_in(col) == 0 && forall|i: int|
            0 <= i < col.len() ==> #[trigger] items_of(col, base)[i] == Item::Byte(col[i]),
        col[0] == 0xC0 ==> items_of(col, base) == seq![Item::Var(base as usize)] && introduced_in(
            col,
        ) == 1,
        0x80 <= col[0] < 0xC0 ==> items_of(col, base) == seq![Item::Var((col[0] - 0x80) as usize)]
            && introduced_in(col) == 0,
        col[0] < 0x40 && args.len() == col[0] && (forall|i: int|
            0 <= i < args.len() ==> is_term(#[trigger] args[i])) && col == seq![col[0]]
            + args.flatten() ==> {
            &&& items_of(col, base)[0] == Item::Byte(col[0])
            &&& introduced_in(col) == new_before(args, args.len() as int)
            &&& forall|k: int, i: int|
                0 <= k < args.len() && 0 <= i < args[k].len() ==> items_of(col, base)[1
                    + args.take(k).flatten().len() + i] == #[trigger] items_of(
                    args[k],
                    base + new_before(args, k),
                )[i]
        },
{
    lemma_term_bytes(col);
    lemma_ground_bytes(col, args);
    assert(col.take(0) =~= Seq::<u8>::empty());
    assert(tag_at(col, 0));
    if col[0] >= 0xC1 || 0x40 <= col[0] < 0x80 {
        lemma_ground_no_new(col, col.len() as int);
        assert forall|i: int| 0 <= i < col.len() implies #[trigger] items_of(col, base)[i]
            == Item::Byte(col[i]) by {
            assert(tag_at(col, i) ==> !is_var_tag(col[i]));
        }
    } else if 0x80 <= col[0] <= 0xC0 {
        assert(new_tags(col, 0) == 0);
        assert(introduced_in(col) == if col[0] == 0xC0 {
            1nat
        } else {
            0nat
        });
        assert(items_of(col, base)[0] == item_at(col, base, 0));
        assert(items_of(col, base) =~= seq![item_at(col, base, 0)]);
    } else if args.len() == col[0] && (forall|i: int|
        0 <= i < args.len() ==> is_term(#[trigger] args[i])) && col == seq![col[0]]
        + args.flatten() {
        lemma_joined_flat(args);
        let n = args.len() as int;
        lemma_argument_items(col, args, base, n);
        assert(args.take(n) =~= args);
        assert forall|k: int, i: int| 0 <= k < args.len() && 0 <= i < args[k].len() implies items_of(
            col,
            base,
        )[1 + args.take(k).flatten().len() + i] == #[trigger] items_of(
            args[k],
            base + new_before(args, k),
        )[i] by {
            lemma_argument_items(col, args, base, k);
            lemma_joined_flat(args.take(k));
        }
    }
}

/// Decoding gives the items of every column, with the variables numbered on from column to column.
pub proof fn lemma_decoded(cols: &[&[u8]], out: Vec<Vec<Item>>)
    requires
        call_ensures(columns_to_items, (cols,), out),
    ensures
        out@.len() == cols@.len(),
        forall|c: int|
            0 <= c < out@.len() ==> (#[trigger] out@[c])@ == items_of(
                cols@[c]@,
                new_before(slices(cols@), c),
            ),
        new_before(slices(cols@), 0) == 0,
        forall|c: int|
            0 <= c < cols@.len() ==> #[trigger] new_before(slices(cols@), c + 1) == new_before(
                slices(cols@),
                c,
            ) + introduced_in(cols@[c]@),
{
    assert(lists_of(out@).len() == out@.len());
    assert forall|c: int| 0 <= c < out@.len() implies (#[trigger] out@[c])@ == items_of(
        cols@[c]@,
        new_before(slices(cols@), c),
    ) by {
        assert(lists_of(out@)[c] == out@[c]@);
        assert(slices(cols@)[c] == cols@[c]@);
    }
    assert forall|c: int| 0 <= c < cols@.len() implies #[trigger] new_before(slices(cols@), c + 1)
        == new_before(slices(cols@), c) + introduced_in(cols@[c]@) by {
        assert(slices(cols@)[c] == cols@[c]@);
    }
}


/// The number of the variable that column `j` is: each `0xC0` is a new one, numbered in the order in
/// which they stand in the fact, and `0x80 + n` is variable `n`.
pub open spec fn variable_of(cols: Seq<Seq<u8>>, j: int) -> int {
    if cols[j] == seq![0xC0u8] {
        introductions(cols.take(j)) as int
    } else {
        cols[j][0] - 0x80
    }
}

/// The fact `other` is the fact `cols` with its columns in another order: a value is kept, a variable
/// stays a variable, and two columns are the same variable in the one exactly when they are in the
/// other.
pub open spec fn is_reordered(
    cols: Seq<Seq<u8>>,
    order: Seq<usize>,
    other: Seq<Seq<u8>>,
) -> bool {
    &&& other.len() == order.len()
    &&& is_plain_fact(other)
    &&& forall|p: int|
        0 <= p < other.len() ==> if is_stored_variable(cols[order[p] as int]) {
            is_stored_variable(#[trigger] other[p])
        } else {
            other[p] == cols[order[p] as int]
        }
    &&& forall|p: int, q: int|
        #![trigger other[p], other[q]]
        0 <= p < other.len() && 0 <= q < other.len() && is_stored_variable(other[p])
            && is_stored_variable(other[q]) ==> (variable_of(other, p) == variable_of(other, q)
            <==> variable_of(cols, order[p] as int) == variable_of(cols, order[q] as int))
}

proof fn lemma_variable_of(cols: Seq<Seq<u8>>, j: int)
    requires
        0 <= j < cols.len(),
        is_stored_variable(cols[j]),
    ensures
        variable_of(cols, j) == slot(cols, j),
        is_new(cols[j]) == (cols[j] == seq![0xC0u8]),
        is_wild(cols[j]),
{
    lemma_introductions(cols, j);
    if is_new(cols[j]) {
        assert(cols[j] =~= seq![0xC0u8]);
    }
}

/// Each of the first `n` variables of a fact was introduced.
proof fn lemma_introducer(cols: Seq<Seq<u8>>, p: int, n: int) -> (q: int)
    requires
        0 <= p <= cols.len(),
        0 <= n < new_vars(cols, p),
    ensures
        0 <= q < p,
        is_new(cols[q]),
        slot(cols, q) == n,
    decreases p,
{
    if is_new(cols[p - 1]) && n == new_vars(cols, p - 1) {
        p - 1
    } else {
        lemma_introducer(cols, p - 1, n)
    }
}

/// The number of a variable is below the count of the introductions up to its column.
proof fn lemma_number_below(cols: Seq<Seq<u8>>, q: int, p: int)
    requires
        well_scoped(cols),
        0 <= q < p <= cols.len(),
        is_wild(cols[q]),
    ensures
        slot(cols, q) < new_vars(cols, p),
{
    lemma_new_vars_mono(cols, q + 1, p);
}

/// A fact has only one form with its columns in a given order.
proof fn lemma_one_form(cols: Seq<Seq<u8>>, order: Seq<usize>, a: Seq<Seq<u8>>, b: Seq<Seq<u8>>, p: int)
    requires
        is_reordered(cols, order, a),
        is_reordered(cols, order, b),
        0 <= p <= order.len(),
    ensures
        a.take(p) == b.take(p),
    decreases p,
{
    if p > 0 {
        let k = p - 1;
        lemma_one_form(cols, order, a, b, k);
        lemma_plain_scoped(a);
        lemma_plain_scoped(b);
        assert(a.take(p) =~= a.take(k).push(a[k]));
        assert(b.take(p) =~= b.take(k).push(b[k]));
        assert forall|i: int| 0 <= i < k implies #[trigger] a[i] == b[i] by {
            assert(a.take(k)[i] == b.take(k)[i]);
        }
        if is_stored_variable(cols[order[k] as int]) {
            assert(is_stored_variable(a[k]) && is_stored_variable(b[k]));
            lemma_new_vars_same(a, b, k);
            if a[k] == seq![0xC0u8] {
                lemma_new_stays_new(cols, order, a, b, k);
            } else if b[k] == seq![0xC0u8] {
                lemma_new_vars_same(b, a, k);
                lemma_new_stays_new(cols, order, b, a, k);
            } else {
                lemma_variable_of(a, k);
                lemma_variable_of(b, k);
                let n = slot(a, k);
                assert(is_wild(a[k]) && !is_new(a[k]));
                let q = lemma_introducer(a, k, n);
                assert(a[q] == a.take(k)[q] && b[q] == b.take(k)[q]);
                assert(is_stored_variable(a[q]) && is_stored_variable(b[q]));
                lemma_variable_of(a, q);
                lemma_variable_of(b, q);
                lemma_new_vars_same(a, b, q);
                assert(variable_of(a, k) == variable_of(a, q));
                assert(variable_of(b, k) == variable_of(b, q));
                assert(a[k] =~= b[k]);
            }
        } else {
            assert(a[k] == b[k]);
        }
    }
}

proof fn lemma_new_vars_same(a: Seq<Seq<u8>>, b: Seq<Seq<u8>>, k: int)
    requires
        0 <= k,
        k <= a.len(),
        k <= b.len(),
        forall|i: int| 0 <= i < k ==> #[trigger] a[i] == b[i],
    ensures
        new_vars(a, k) == new_vars(b, k),
    decreases k,
{
    if k > 0 {
        lemma_new_vars_same(a, b, k - 1);
        assert(a[k - 1] == b[k - 1]);
    }
}

/// A column that is new in one form of a fact is new in the other.
proof fn lemma_new_stays_new(
    cols: Seq<Seq<u8>>,
    order: Seq<usize>,
    a: Seq<Seq<u8>>,
    b: Seq<Seq<u8>>,
    k: int,
)
    requires
        is_reordered(cols, order, a),
        is_reordered(cols, order, b),
        0 <= k < order.len(),
        a.take(k) == b.take(k),
        is_stored_variable(a[k]),
        is_stored_variable(b[k]),
        a[k] == seq![0xC0u8],
    ensures
        b[k] == seq![0xC0u8],
{
    lemma_plain_scoped(a);
    lemma_plain_scoped(b);
    lemma_variable_of(a, k);
    lemma_variable_of(b, k);
    if b[k] != seq![0xC0u8] {
        let n = slot(b, k);
        assert(is_wild(b[k]) && !is_new(b[k]));
        let q = lemma_introducer(b, k, n);
        assert(a[q] == a.take(k)[q] && b[q] == b.take(k)[q]);
        assert(is_stored_variable(a[q]) && is_stored_variable(b[q]));
        lemma_variable_of(a, q);
        lemma_variable_of(b, q);
        assert(variable_of(b, k) == variable_of(b, q));
        assert(variable_of(a, k) == variable_of(a, q));
        lemma_number_below(a, q, k);
    }
}

/// A plain fact re-emitted is the fact with its columns in the new order, and nothing else is.
proof fn lemma_reordered_form(cols: Seq<Seq<u8>>, order: Seq<usize>)
    requires
        is_plain_fact(cols),
        all_terms(cols),
        is_column_order(order, cols.len()),
    ensures
        is_reordered(cols, order, reordered(cols, order)),
        re_emitted(cols, order) == reordered(cols, order).flatten(),
        forall|other: Seq<Seq<u8>>| #[trigger]
            is_reordered(cols, order, other) ==> other == reordered(cols, order),
{
    let re = reordered(cols, order);
    lemma_plain_scoped(cols);
    lemma_simple_emitted(cols, order);
    lemma_joined_flat(re);
    let vars = Seq::new(cols.len(), |c: int| c as usize);
    lemma_reordered(vars, cols, order, |x: int| Seq::empty());
    assert forall|p: int| 0 <= p < re.len() implies if is_stored_variable(cols[order[p] as int]) {
        is_stored_variable(#[trigger] re[p])
    } else {
        re[p] == cols[order[p] as int]
    } by {
        lemma_moved_slot(cols, order, p);
    }
    assert forall|p: int, q: int|
        #![trigger re[p], re[q]]
        0 <= p < re.len() && 0 <= q < re.len() && is_stored_variable(re[p]) && is_stored_variable(
            re[q],
        ) implies (variable_of(re, p) == variable_of(re, q) <==> variable_of(cols, order[p] as int)
        == variable_of(cols, order[q] as int)) by {
        lemma_moved_slot(cols, order, p);
        lemma_moved_slot(cols, order, q);
        lemma_variable_of(re, p);
        lemma_variable_of(re, q);
        lemma_variable_of(cols, order[p] as int);
        lemma_variable_of(cols, order[q] as int);
        lemma_same_slot(cols, order, p, q);
    }
    lemma_scoped_plain(cols, order);
    assert forall|other: Seq<Seq<u8>>| #[trigger] is_reordered(cols, order, other) implies other
        == re by {
        let n = order.len() as int;
        lemma_one_form(cols, order, other, re, n);
        assert(other.take(n) =~= other);
        assert(re.take(n) =~= re);
    }
}

proof fn lemma_scoped_plain(cols: Seq<Seq<u8>>, order: Seq<usize>)
    requires
        is_simple(cols),
        is_column_order(order, cols.len()),
        well_scoped(reordered(cols, order)),
    ensures
        is_plain_fact(reordered(cols, order)),
{
    let re = reordered(cols, order);
    let n = re.len() as int;
    assert forall|j: int| 0 <= j < re.len() implies {
        ||| is_ground(#[trigger] re[j])
        ||| re[j] == seq![0xC0u8]
        ||| re[j].len() == 1 && 0x80 <= re[j][0] < 0x80 + introductions(re.take(j)) && re[j][0]
            < 0xC0
    } by {
        lemma_introductions(re, j);
        if is_wild(re[j]) {
            lemma_variable_of(re, j);
        }
    }
    assert(re.take(n) =~= re);
    lemma_introductions(re, n);
    assert(new_vars(re, n) <= 64) by {
        if n > 0 {
            lemma_moved_slot(cols, order, n - 1);
            lemma_seen_slots(cols, order, n);
            lemma_seen_slots(cols, order, n - 1);
            lemma_new_seen(cols, order, n);
        }
    }
}

proof fn lemma_new_seen(cols: Seq<Seq<u8>>, order: Seq<usize>, p: int)
    requires
        is_simple(cols),
        is_column_order(order, cols.len()),
        0 <= p <= order.len(),
    ensures
        new_vars(reordered(cols, order), p) == seen_slots(cols, order, p).len(),
{
    let re = reordered(cols, order);
    if p > 0 {
        lemma_moved_slot(cols, order, p - 1);
        let k = p - 1;
        let before = seen_slots(cols, order, k);
        let c = order[k] as int;
        assert(re[k] == moved_column(cols, order, k));
        if is_wild(cols[c]) {
            if before.contains(slot(cols, c)) {
                lemma_seen_slots(cols, order, k);
                assert(before.index_of(slot(cols, c)) < 64);
                assert(!is_new(re[k]));
            } else {
                assert(is_new(re[k]));
            }
        } else {
            assert(!is_wild(re[k]));
        }
    }
}

/// The key is the fact of some value, with its columns in the new order.
pub open spec fn is_reordered_value(
    values: Set<Seq<u8>>,
    prefix: Seq<u8>,
    order: Seq<usize>,
    key: Seq<u8>,
) -> bool {
    exists|v: Seq<u8>, cols: Seq<Seq<u8>>, other: Seq<Seq<u8>>|
        values.contains(v) && v != prefix && #[trigger] spells_columns(prefix, order.len(), v, cols)
            && #[trigger] is_reordered(cols, order, other) && key == other.flatten()
}

/// The set and the columns are those of the factor's facts, with the columns in the order `order`.
pub open spec fn is_reindexed(
    values: Set<Seq<u8>>,
    factor: Factor,
    var_pos: Seq<usize>,
    order: Seq<usize>,
    keys: Set<Seq<u8>>,
    cols: Seq<usize>,
) -> bool {
    &&& order.len() == factor.cols@.len()
    &&& order.no_duplicates()
    &&& forall|p: int| 0 <= p < order.len() ==> (#[trigger] order[p]) < factor.cols@.len()
    &&& forall|p: int, q: int|
        #![trigger order[p], order[q]]
        0 <= p < q < order.len() ==> {
            ||| var_pos[factor.cols@[order[p] as int] as int]
                < var_pos[factor.cols@[order[q] as int] as int]
            ||| var_pos[factor.cols@[order[p] as int] as int]
                == var_pos[factor.cols@[order[q] as int] as int] && order[p] < order[q]
        }
    &&& cols.len() == order.len()
    &&& forall|p: int|
        0 <= p < cols.len() ==> #[trigger] cols[p] == factor.cols@[order[p] as int]
    &&& forall|key: Seq<u8>| #[trigger]
        keys.contains(key) <==> is_reordered_value(values, factor.prefix@, order, key)
}

/// Re-indexing copies exactly the facts below the factor's prefix, each with its columns in the order
/// of the variables, columns of one variable staying in order, and says which variable each column of
/// the copy is.
pub proof fn lemma_reindexed<T: PathTrie>(
    map: &T,
    factor: &Factor,
    var_pos: &[usize],
    r: (PathSet, Vec<usize>),
)
    requires
        holds_facts(map.values(), factor.prefix@, factor.cols@.len()),
        call_ensures(build_reindex::<T>, (map, factor, var_pos), r),
    ensures
        (forall|c: int|
            0 <= c < factor.cols@.len() ==> (#[trigger] factor.cols@[c]) < var_pos@.len())
            ==> call_requires(build_reindex::<T>, (map, factor, var_pos)),
        exists|order: Seq<usize>| #[trigger]
            is_reindexed(map.values(), *factor, var_pos@, order, r.0@, r.1@),
{
    let values = map.values();
    let prefix = factor.prefix@;
    lemma_facts_plain(values, prefix, factor.cols@.len());
    lemma_simple_numberable(values, prefix, factor.cols@.len());
    let order = choose|order: Seq<usize>| #[trigger]
        is_stable_order(order, factor.cols@, var_pos@) && r.1@ == permuted(factor.cols@, order)
            && forall|key: Seq<u8>| #[trigger]
            r.0@.contains(key) == is_moved_fact(values, prefix, order, key);
    assert forall|key: Seq<u8>| #[trigger]
        r.0@.contains(key) <==> is_reordered_value(values, prefix, order, key) by {
        lemma_moved_value(values, prefix, order, key);
    }
    assert(is_reindexed(values, *factor, var_pos@, order, r.0@, r.1@));
}

proof fn lemma_moved_value(values: Set<Seq<u8>>, prefix: Seq<u8>, order: Seq<usize>, key: Seq<u8>)
    requires
        holds_facts(values, prefix, order.len()),
        is_column_order(order, order.len()),
    ensures
        is_moved_fact(values, prefix, order, key) == is_reordered_value(values, prefix, order, key),
{
    let n = order.len();
    if is_moved_fact(values, prefix, order, key) {
        let (v, cols) = choose|v: Seq<u8>, cols: Seq<Seq<u8>>| #[trigger]
            values.contains(v) && v != prefix && #[trigger] starts_with(prefix, n, v, cols) && key
                == re_emitted(cols, order);
        lemma_spells_columns(prefix, n, v, cols);
        lemma_value_plain(values, prefix, n, v, cols);
        lemma_reordered_form(cols, order);
        assert(spells_columns(prefix, n, v, cols) && is_reordered(
            cols,
            order,
            reordered(cols, order),
        ));
    }
    if is_reordered_value(values, prefix, order, key) {
        let (v, cols, other) = choose|v: Seq<u8>, cols: Seq<Seq<u8>>, other: Seq<Seq<u8>>|
            values.contains(v) && v != prefix && #[trigger] spells_columns(prefix, n, v, cols)
                && #[trigger] is_reordered(cols, order, other) && key == other.flatten();
        lemma_spells_columns(prefix, n, v, cols);
        lemma_value_plain(values, prefix, n, v, cols);
        lemma_reordered_form(cols, order);
        assert(values.contains(v) && v != prefix && starts_with(prefix, n, v, cols) && key
            == re_emitted(cols, order));
    }
}

/// The columns of a stored fact are plain.
proof fn lemma_value_plain(
    values: Set<Seq<u8>>,
    prefix: Seq<u8>,
    n: nat,
    v: Seq<u8>,
    cols: Seq<Seq<u8>>,
)
    requires
        holds_facts(values, prefix, n),
        values.contains(v),
        spells_columns(prefix, n, v, cols),
    ensures
        is_plain_fact(cols),
        all_terms(cols),
{
    reveal(holds_facts);
    let flat = prefix + cols.flatten();
    assert(prefix.is_prefix_of(v)) by {
        assert(prefix =~= flat.subrange(0, prefix.len() as int));
        assert(flat =~= v.subrange(0, flat.len() as int));
        assert(prefix =~= v.subrange(0, prefix.len() as int));
    }
    let fact = choose|fact: Seq<Seq<u8>>| #[trigger]
        spells_columns(prefix, n, v, fact) && is_plain_fact(fact);
    lemma_spells_columns(prefix, n, v, cols);
    lemma_spells_columns(prefix, n, v, fact);
    lemma_rest_prefix(prefix, joined(cols), v);
    lemma_rest_prefix(prefix, joined(fact), v);
    lemma_columns_unique(cols, fact, v.skip(prefix.len() as int));
}


/// Decoding the columns of a fact and emitting them in a new order gives the fact re-emitted.
pub proof fn lemma_decode_emit(
    cols: &[&[u8]],
    items: Vec<Vec<Item>>,
    all: &[Vec<Item>],
    new_order: &[usize],
    out: Vec<u8>,
)
    requires
        call_ensures(columns_to_items, (cols,), items),
        all@ == items@,
        call_ensures(emit_reordered, (all, new_order), out),
    ensures
        out@ == re_emitted(slices(cols@), new_order@),
{
}

/// Whatever facts there are below the factor's prefix, with variables inside their columns or
/// without, re-indexing copies exactly these, each re-emitted in the order of the variables.
pub proof fn lemma_reindexed_any<T: PathTrie>(
    map: &T,
    factor: &Factor,
    var_pos: &[usize],
    r: (PathSet, Vec<usize>),
)
    requires
        call_ensures(build_reindex::<T>, (map, factor, var_pos), r),
    ensures
        exists|order: Seq<usize>|
            is_stable_order(order, factor.cols@, var_pos@) && forall|key: Seq<u8>| #[trigger]
                r.0@.contains(key) <==> is_re_emitted_value(
                    map.values(),
                    factor.prefix@,
                    order,
                    key,
                ),
{
    let values = map.values();
    let prefix = factor.prefix@;
    let order = choose|order: Seq<usize>| #[trigger]
        is_stable_order(order, factor.cols@, var_pos@) && r.1@ == permuted(factor.cols@, order)
            && forall|key: Seq<u8>| #[trigger]
            r.0@.contains(key) == is_moved_fact(values, prefix, order, key);
    assert forall|key: Seq<u8>| #[trigger]
        r.0@.contains(key) <==> is_re_emitted_value(values, prefix, order, key) by {
        if is_moved_fact(values, prefix, order, key) {
            let (v, cols) = choose|v: Seq<u8>, cols: Seq<Seq<u8>>| #[trigger]
                values.contains(v) && v != prefix && #[trigger] starts_with(
                    prefix,
                    order.len(),
                    v,
                    cols,
                ) && key == re_emitted(cols, order);
            lemma_spells_columns(prefix, order.len(), v, cols);
            assert(values.contains(v) && spells_columns(prefix, order.len(), v, cols));
        }
        if is_re_emitted_value(values, prefix, order, key) {
            let (v, cols) = choose|v: Seq<u8>, cols: Seq<Seq<u8>>| #[trigger]
                values.contains(v) && v != prefix && #[trigger] spells_columns(
                    prefix,
                    order.len(),
                    v,
                    cols,
                ) && key == re_emitted(cols, order);
            lemma_spells_columns(prefix, order.len(), v, cols);
            assert(values.contains(v) && starts_with(prefix, order.len(), v, cols));
        }
    }
    assert(is_stable_order(order, factor.cols@, var_pos@));
}

/// The key is the fact of some value, re-emitted in the new order.
pub open spec fn is_re_emitted_value(
    values: Set<Seq<u8>>,
    prefix: Seq<u8>,
    order: Seq<usize>,
    key: Seq<u8>,
) -> bool {
    exists|v: Seq<u8>, cols: Seq<Seq<u8>>| #[trigger]
        values.contains(v) && v != prefix && #[trigger] spells_columns(
            prefix,
            order.len(),
            v,
            cols,
        ) && key == re_emitted(cols, order)
}


} // verus!
