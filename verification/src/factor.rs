//! Query factors, and the facts that a trie holds for them.

use vstd::prelude::*;
use crate::cursor::{has_child, is_dead_end, is_subterm, is_visible, lands, lemma_none_before};
use crate::order::{
    is_prefix, lemma_prefix_of_prefix, lemma_prefix_refl, lemma_prefixes_comparable, lt,
};
use crate::term::{
    holds, is_term, lemma_holds_fewer, lemma_holds_rest, lemma_prefix_free, lemma_spells_concat,
    spells,
};
use crate::trie::{below, prefix_closed};

verus! {

/// A query factor: its relation prefix in the trie, and the global variable index bound at each of
/// its argument columns, in syntactic column order.
#[derive(Clone, Debug)]
pub struct Factor {
    pub prefix: Vec<u8>,
    pub cols: Vec<usize>,
}

/// The columns are in the order of the variables.
pub open spec fn is_forward(cols: Seq<usize>, pos: Seq<usize>) -> bool {
    forall|a: int, b: int|
        #![trigger cols[a], cols[b]]
        0 <= a < b < cols.len() ==> pos[cols[a] as int] <= pos[cols[b] as int]
}

/// Byte strings, one after the other.
pub open spec fn joined(cols: Seq<Seq<u8>>) -> Seq<u8>
    decreases cols.len(),
{
    if cols.len() == 0 {
        Seq::empty()
    } else {
        joined(cols.drop_last()) + cols.last()
    }
}

/// Every string is a complete subterm.
pub open spec fn all_terms(cols: Seq<Seq<u8>>) -> bool {
    forall|j: int| 0 <= j < cols.len() ==> is_term(#[trigger] cols[j])
}

/// The columns in `cols` follow `prefix` along a path.
pub open spec fn columns_at(paths: Set<Seq<u8>>, prefix: Seq<u8>, cols: Seq<Seq<u8>>) -> bool {
    all_terms(cols) && paths.contains(prefix + joined(cols))
}

/// Below `prefix` every path goes on until `n` columns are complete.
pub open spec fn has_columns(paths: Set<Seq<u8>>, prefix: Seq<u8>, n: nat) -> bool {
    forall|w: Seq<u8>| #[trigger]
        paths.contains(prefix + w) && !holds(n, w) ==> has_child(paths, prefix + w)
}

/// A branch in which a search meets no dead end on its way to a subterm.
pub open spec fn is_clear(branch: Set<Seq<u8>>) -> bool {
    forall|d: Seq<u8>, k: Seq<u8>| #[trigger]
        is_dead_end(branch, d) ==> !#[trigger] is_subterm(branch, k)
}

/// In a clear branch a search that lands nowhere has nothing to find.
pub proof fn lemma_clear_lands(
    branch: Set<Seq<u8>>,
    wanted: spec_fn(Seq<u8>) -> bool,
    at: Option<Seq<u8>>,
)
    requires
        is_clear(branch),
        lands(branch, wanted, at),
    ensures
        match at {
            Some(k) => {
                &&& is_subterm(branch, k)
                &&& wanted(k)
                &&& forall|s: Seq<u8>| #[trigger]
                    is_subterm(branch, s) && wanted(s) ==> s == k || lt(k, s)
            },
            None => forall|k: Seq<u8>| #[trigger] is_subterm(branch, k) ==> !wanted(k),
        },
{
    match at {
        Some(k) => {
            assert forall|s: Seq<u8>| #[trigger] is_subterm(branch, s) && wanted(s) implies s == k
                || lt(k, s) by {
                assert(crate::cursor::is_stop(branch, s));
            }
        },
        None => {},
    }
}

/// In a clear branch every subterm is visible.
pub proof fn lemma_clear_visible(branch: Set<Seq<u8>>)
    requires
        is_clear(branch),
    ensures
        forall|k: Seq<u8>| #[trigger] is_visible(branch, k) == is_subterm(branch, k),
{
    assert forall|k: Seq<u8>| #[trigger] is_visible(branch, k) == is_subterm(branch, k) by {
        lemma_none_before(k);
    }
}

/// A walk down the trie comes to every column: in its branch each lies before the first dead end.
pub open spec fn walked(paths: Set<Seq<u8>>, prefix: Seq<u8>, cols: Seq<Seq<u8>>) -> bool {
    forall|c: int|
        0 <= c < cols.len() ==> is_visible(
            below(paths, prefix + joined(cols.take(c))),
            #[trigger] cols[c],
        )
}

/// Where `n` columns follow a prefix, a walk comes to all of them.
pub proof fn lemma_whole_walked(
    paths: Set<Seq<u8>>,
    prefix: Seq<u8>,
    cols: Seq<Seq<u8>>,
)
    requires
        prefix_closed(paths),
        has_columns(paths, prefix, cols.len()),
        columns_at(paths, prefix, cols),
    ensures
        walked(paths, prefix, cols),
{
    assert forall|c: int| 0 <= c < cols.len() implies is_visible(
        below(paths, prefix + joined(cols.take(c))),
        #[trigger] cols[c],
    ) by {
        let front = cols.take(c);
        lemma_columns_take(paths, prefix, cols, c);
        lemma_columns_take(paths, prefix, cols, c + 1);
        assert(cols.take(c + 1) =~= front.push(cols[c]));
        lemma_columns_push(paths, prefix, front, cols[c]);
        lemma_column_clear(paths, prefix, cols.len(), front);
        lemma_clear_visible(below(paths, prefix + joined(front)));
        assert(is_visible(below(paths, prefix + joined(front)), cols[c]));
    }
}

pub proof fn lemma_joined_push(cols: Seq<Seq<u8>>, k: Seq<u8>)
    ensures
        joined(cols.push(k)) == joined(cols) + k,
{
    assert(cols.push(k).drop_last() =~= cols);
}

/// The first columns are spelled first.
pub proof fn lemma_joined_take(cols: Seq<Seq<u8>>, m: int)
    requires
        0 <= m <= cols.len(),
    ensures
        is_prefix(joined(cols.take(m)), joined(cols)),
    decreases cols.len() - m,
{
    if m == cols.len() {
        assert(cols.take(m) =~= cols);
        lemma_prefix_refl(joined(cols));
    } else {
        lemma_joined_take(cols, m + 1);
        assert(cols.take(m + 1) =~= cols.take(m).push(cols[m]));
        lemma_joined_push(cols.take(m), cols[m]);
        let a = joined(cols.take(m));
        let b = joined(cols.take(m + 1));
        assert(is_prefix(a, b)) by {
            assert(a =~= b.take(a.len() as int));
        }
        lemma_prefix_of_prefix(a, b, joined(cols));
    }
}

/// Complete columns one after the other are complete.
pub proof fn lemma_joined_spells(cols: Seq<Seq<u8>>)
    requires
        all_terms(cols),
    ensures
        spells(cols.len(), joined(cols)),
    decreases cols.len(),
{
    if cols.len() > 0 {
        let init = cols.drop_last();
        assert forall|j: int| 0 <= j < init.len() implies is_term(#[trigger] init[j]) by {
            assert(init[j] == cols[j]);
        }
        lemma_joined_spells(init);
        assert(is_term(cols[cols.len() - 1]));
        lemma_spells_concat(init.len(), 1, joined(init), cols.last());
    }
}

/// A string starts with at most one list of `n` columns.
pub proof fn lemma_columns_unique(a: Seq<Seq<u8>>, b: Seq<Seq<u8>>, w: Seq<u8>)
    requires
        all_terms(a),
        all_terms(b),
        a.len() == b.len(),
        is_prefix(joined(a), w),
        is_prefix(joined(b), w),
    ensures
        a == b,
    decreases a.len(),
{
    if a.len() == 0 {
        assert(a =~= b);
    } else {
        let n = a.len() - 1;
        let a0 = a.drop_last();
        let b0 = b.drop_last();
        assert(a0 =~= a.take(n));
        assert(b0 =~= b.take(n));
        lemma_joined_take(a, n);
        lemma_joined_take(b, n);
        lemma_prefix_of_prefix(joined(a0), joined(a), w);
        lemma_prefix_of_prefix(joined(b0), joined(b), w);
        assert forall|j: int| 0 <= j < a0.len() implies is_term(#[trigger] a0[j]) by {
            assert(a0[j] == a[j]);
        }
        assert forall|j: int| 0 <= j < b0.len() implies is_term(#[trigger] b0[j]) by {
            assert(b0[j] == b[j]);
        }
        lemma_columns_unique(a0, b0, w);
        lemma_joined_spells(a);
        lemma_joined_spells(b);
        if joined(a).len() <= joined(b).len() {
            lemma_prefixes_comparable(joined(a), joined(b), w);
            lemma_prefix_free(a.len(), joined(a), joined(b));
        } else {
            lemma_prefixes_comparable(joined(b), joined(a), w);
            lemma_prefix_free(a.len(), joined(b), joined(a));
        }
        let m = joined(a0).len() as int;
        assert(a.last() =~= joined(a).skip(m));
        assert(b.last() =~= joined(b).skip(m));
        assert(a =~= a0.push(a.last()));
        assert(b =~= b0.push(b.last()));
    }
}

/// A path with some columns has any first few of them.
pub proof fn lemma_columns_take(
    paths: Set<Seq<u8>>,
    prefix: Seq<u8>,
    cols: Seq<Seq<u8>>,
    m: int,
)
    requires
        prefix_closed(paths),
        columns_at(paths, prefix, cols),
        0 <= m <= cols.len(),
    ensures
        columns_at(paths, prefix, cols.take(m)),
{
    lemma_joined_take(cols, m);
    let a = prefix + joined(cols.take(m));
    let b = prefix + joined(cols);
    assert(is_prefix(a, b)) by {
        assert(a =~= b.take(a.len() as int)) by {
            assert forall|i: int| 0 <= i < a.len() implies a[i] == b[i] by {
                if i >= prefix.len() {
                    let j = i - prefix.len();
                    assert(joined(cols.take(m))[j] == joined(cols).take(
                        joined(cols.take(m)).len() as int,
                    )[j]);
                }
            }
        }
    }
    assert forall|j: int| 0 <= j < m implies is_term(#[trigger] cols.take(m)[j]) by {
        assert(cols.take(m)[j] == cols[j]);
    }
}

/// One more column is one more subterm below the columns so far.
pub proof fn lemma_columns_push(
    paths: Set<Seq<u8>>,
    prefix: Seq<u8>,
    cols: Seq<Seq<u8>>,
    k: Seq<u8>,
)
    requires
        all_terms(cols),
    ensures
        columns_at(paths, prefix, cols.push(k)) == is_subterm(
            below(paths, prefix + joined(cols)),
            k,
        ),
{
    lemma_joined_push(cols, k);
    assert(prefix + joined(cols.push(k)) =~= (prefix + joined(cols)) + k);
    let more = cols.push(k);
    if is_term(k) {
        assert forall|j: int| 0 <= j < more.len() implies is_term(#[trigger] more[j]) by {
            if j < cols.len() {
                assert(more[j] == cols[j]);
            }
        }
    }
    if all_terms(more) {
        assert(is_term(more[cols.len() as int]));
    }
}

/// Where `n` columns follow a prefix, the next column after fewer than `n` is clear.
pub proof fn lemma_column_clear(
    paths: Set<Seq<u8>>,
    prefix: Seq<u8>,
    n: nat,
    cols: Seq<Seq<u8>>,
)
    requires
        prefix_closed(paths),
        has_columns(paths, prefix, n),
        all_terms(cols),
        cols.len() < n,
    ensures
        is_clear(below(paths, prefix + joined(cols))),
{
    let floor = prefix + joined(cols);
    let t = below(paths, floor);
    assert forall|d: Seq<u8>, k: Seq<u8>| #[trigger]
        is_dead_end(t, d) implies !#[trigger] is_subterm(t, k) by {
        if is_subterm(t, k) {
            assert(floor + d =~= prefix + (joined(cols) + d));
            assert(paths.contains(floor + d)) by {
                if d.len() == 0 {
                    assert(floor + d =~= floor);
                    assert(floor =~= (floor + k).take(floor.len() as int));
                    assert(is_prefix(floor, floor + k));
                }
            }
            lemma_joined_spells(cols);
            let m = (n - cols.len()) as nat;
            lemma_holds_rest(cols.len(), m, joined(cols), d);
            if holds(m, d) {
                lemma_holds_fewer(1, (m - 1) as nat, d);
            }
            assert(has_child(paths, floor + d));
            let b = choose|b: u8| paths.contains(#[trigger] (floor + d).push(b));
            assert(floor + d.push(b) =~= (floor + d).push(b));
            assert(t.contains(d.push(b)));
        }
    }
}

} // verus!
