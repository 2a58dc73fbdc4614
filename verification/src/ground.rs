//! The ground join: factors joined on equal subterms.

use vstd::prelude::*;
use crate::candidate::lemma_sought_value;
use crate::cursor::{is_subterm, is_visible, SubtermCursor};
use crate::factor::{
    all_terms, columns_at, has_columns, joined, lemma_columns_push, lemma_joined_push,
    lemma_whole_walked, walked, Factor,
};
use crate::leapfrog::{all_visible, cursors_wf, intersect, is_common, listed, strictly_ascending};
use crate::lists::{copy_indices, empty_strings, zeros};
use crate::order::{bytes_eq, is_prefix, lemma_prefix_of_prefix, lemma_prefix_refl, lt, to_vec};
use crate::term::{is_term, lemma_term_nonempty};
use crate::trie::{below, prefix_closed, PathTrie, Zipper};

verus! {

/// The bytes of each string.
pub open spec fn bytes_of(vals: Seq<Vec<u8>>) -> Seq<Seq<u8>> {
    vals.map_values(|v: Vec<u8>| v@)
}

/// Variable `v` is one of the first `i` variables of the order.
pub open spec fn ordered_before(var_order: Seq<usize>, i: int, v: usize) -> bool {
    exists|j: int| 0 <= j < i && #[trigger] var_order[j] == v
}

/// Factor `f` leads with its column `c` at position `i` of the order: the column is that variable,
/// and the columns before it are earlier variables.
pub open spec fn leads(
    factors: Seq<Factor>,
    var_order: Seq<usize>,
    i: int,
    f: int,
    c: int,
) -> bool {
    &&& 0 <= f < factors.len()
    &&& 0 <= c < factors[f].cols@.len()
    &&& factors[f].cols@[c] == var_order[i]
    &&& forall|b: int|
        0 <= b < c ==> ordered_before(var_order, i, #[trigger] factors[f].cols@[b])
}

/// Some factor leads at position `i` of the order.
pub open spec fn is_led(factors: Seq<Factor>, var_order: Seq<usize>, i: int) -> bool {
    exists|f: int, c: int| #[trigger] leads(factors, var_order, i, f, c)
}

/// Some factor leads at every position: the order can be followed forward. An order that lists
/// every variable after those of the earlier columns, in each factor, is such an order.
pub open spec fn can_follow(factors: Seq<Factor>, var_order: Seq<usize>) -> bool {
    forall|i: int| 0 <= i < var_order.len() ==> #[trigger] is_led(factors, var_order, i)
}

/// The order lists variables below `nvars`, each once, and every variable that a factor names.
pub open spec fn lists_vars(factors: Seq<Factor>, var_order: Seq<usize>, nvars: nat) -> bool {
    &&& forall|i: int| 0 <= i < var_order.len() ==> #[trigger] var_order[i] < nvars
    &&& forall|i: int, j: int|
        #![trigger var_order[i], var_order[j]]
        0 <= i < j < var_order.len() ==> var_order[i] != var_order[j]
    &&& forall|f: int, c: int|
        #![trigger factors[f].cols@[c]]
        0 <= f < factors.len() && 0 <= c < factors[f].cols@.len() ==> ordered_before(
            var_order,
            var_order.len() as int,
            factors[f].cols@[c],
        )
}

/// Whether `v` is one of the first `i` variables of the order.
fn is_ordered_before(var_order: &[usize], i: usize, v: usize) -> (r: bool)
    requires
        i <= var_order@.len(),
    ensures
        r == ordered_before(var_order@, i as int, v),
{
    let mut j: usize = 0;
    while j < i
        invariant
            j <= i <= var_order@.len(),
            forall|k: int| 0 <= k < j ==> #[trigger] var_order@[k] != v,
        decreases i - j,
    {
        if var_order[j] == v {
            assert(var_order@[j as int] == v);
            return true;
        }
        j += 1;
    }
    false
}

/// Whether the order lists variables below `nvars`, each once, and every variable that a factor
/// names.
pub fn is_query(factors: &[Factor], var_order: &[usize], nvars: usize) -> (r: bool)
    ensures
        r == lists_vars(factors@, var_order@, nvars as nat),
{
    let mut i: usize = 0;
    while i < var_order.len()
        invariant
            i <= var_order@.len(),
            forall|k: int| 0 <= k < i ==> #[trigger] var_order@[k] < nvars,
            forall|k: int, j: int|
                #![trigger var_order@[k], var_order@[j]]
                0 <= k < j < i ==> var_order@[k] != var_order@[j],
        decreases var_order@.len() - i,
    {
        if var_order[i] >= nvars {
            assert(!(var_order@[i as int] < nvars));
            return false;
        }
        if is_ordered_before(var_order, i, var_order[i]) {
            proof {
                let j = choose|j: int| 0 <= j < i && #[trigger] var_order@[j] == var_order@[i as int];
                assert(var_order@[j] == var_order@[i as int]);
            }
            return false;
        }
        i += 1;
    }
    let mut f: usize = 0;
    while f < factors.len()
        invariant
            f <= factors@.len(),
            forall|g: int, c: int|
                #![trigger factors@[g].cols@[c]]
                0 <= g < f && 0 <= c < factors@[g].cols@.len() ==> ordered_before(
                    var_order@,
                    var_order@.len() as int,
                    factors@[g].cols@[c],
                ),
        decreases factors@.len() - f,
    {
        let mut c: usize = 0;
        while c < factors[f].cols.len()
            invariant
                f < factors@.len(),
                c <= factors@[f as int].cols@.len(),
                forall|d: int|
                    0 <= d < c ==> ordered_before(
                        var_order@,
                        var_order@.len() as int,
                        #[trigger] factors@[f as int].cols@[d],
                    ),
            decreases factors@[f as int].cols@.len() - c,
        {
            if !is_ordered_before(var_order, var_order.len(), factors[f].cols[c]) {
                assert(!ordered_before(
                    var_order@,
                    var_order@.len() as int,
                    factors@[f as int].cols@[c as int],
                ));
                return false;
            }
            c += 1;
        }
        f += 1;
    }
    true
}

/// The paths make a trie, and every path under a factor's prefix goes on until all the factor's
/// columns are complete.
pub open spec fn factors_fit(paths: Set<Seq<u8>>, factors: Seq<Factor>) -> bool {
    &&& prefix_closed(paths)
    &&& forall|f: int|
        0 <= f < factors.len() ==> has_columns(
            paths,
            (#[trigger] factors[f]).prefix@,
            factors[f].cols@.len(),
        )
}

/// Every factor without columns has its fact.
pub open spec fn all_present(paths: Set<Seq<u8>>, factors: Seq<Factor>) -> bool {
    forall|f: int|
        0 <= f < factors.len() && (#[trigger] factors[f]).cols@.len() == 0 ==> paths.contains(
            factors[f].prefix@,
        )
}

/// Whether every factor without columns has its fact: there is no column to seek, so the prefix is
/// looked up.
pub fn facts_present<T: PathTrie>(map: &T, factors: &[Factor]) -> (r: bool)
    ensures
        r == all_present(map.paths(), factors@),
{
    let mut f: usize = 0;
    while f < factors.len()
        invariant
            f <= factors@.len(),
            all_present(map.paths(), factors@.take(f as int)),
        decreases factors@.len() - f,
    {
        let ghost done = factors@.take(f as int);
        let ghost more = factors@.take(f + 1);
        if factors[f].cols.len() == 0 {
            let z = map.read_zipper_at_path(&factors[f].prefix);
            if !z.path_exists() {
                return false;
            }
        }
        proof {
            assert forall|g: int|
                0 <= g < more.len() && (#[trigger] more[g]).cols@.len()
                    == 0 implies map.paths().contains(more[g].prefix@) by {
                if g < f {
                    assert(done[g] == more[g]);
                }
            }
        }
        f += 1;
    }
    assert(factors@.take(factors@.len() as int) =~= factors@);
    true
}

/// The values that `row` gives to the variables in `cols`.
pub open spec fn picked(cols: Seq<usize>, row: Seq<Seq<u8>>) -> Seq<Seq<u8>> {
    Seq::new(cols.len(), |c: int| row[cols[c] as int])
}

/// A walk down the trie comes to every fact that `row` spells: in its branch each column lies before
/// the first dead end.
pub open spec fn row_walked(
    paths: Set<Seq<u8>>,
    factors: Seq<Factor>,
    row: Seq<Seq<u8>>,
) -> bool {
    forall|f: int|
        0 <= f < factors.len() ==> walked(
            paths,
            (#[trigger] factors[f]).prefix@,
            picked(factors[f].cols@, row),
        )
}

/// `row` answers the conjunction of the factors: every ordered variable is bound to a complete
/// subterm, every factor has the fact that the row spells, and the variables outside the order stay
/// empty.
pub open spec fn is_answer(
    paths: Set<Seq<u8>>,
    factors: Seq<Factor>,
    var_order: Seq<usize>,
    nvars: nat,
    row: Seq<Seq<u8>>,
) -> bool {
    &&& row.len() == nvars
    &&& forall|v: usize|
        #![trigger row[v as int]]
        v < nvars ==> if ordered_before(var_order, var_order.len() as int, v) {
            is_term(row[v as int])
        } else {
            row[v as int].len() == 0
        }
    &&& forall|f: int|
        0 <= f < factors.len() ==> columns_at(
            paths,
            (#[trigger] factors[f]).prefix@,
            picked(factors[f].cols@, row),
        )
}

/// `a` comes before `b` when the first variable of the order on which they differ is smaller.
pub open spec fn row_before(var_order: Seq<usize>, a: Seq<Seq<u8>>, b: Seq<Seq<u8>>) -> bool {
    exists|i: int| #[trigger] row_before_at(var_order, a, b, i)
}

/// `a` and `b` agree on the first `i` variables of the order, and `a` is smaller on the next.
pub open spec fn row_before_at(
    var_order: Seq<usize>,
    a: Seq<Seq<u8>>,
    b: Seq<Seq<u8>>,
    i: int,
) -> bool {
    &&& 0 <= i < var_order.len()
    &&& forall|j: int|
        0 <= j < i ==> a[(#[trigger] var_order[j]) as int] == b[var_order[j] as int]
    &&& lt(a[var_order[i] as int], b[var_order[i] as int])
}

/// `row` is one of the rows from index `from` on.
pub open spec fn row_found(rows: Seq<Vec<Vec<u8>>>, from: int, row: Seq<Seq<u8>>) -> bool {
    exists|n: int| from <= n < rows.len() && bytes_of((#[trigger] rows[n])@) == row
}

/// The rows from index `from` on are strictly ascending in the order of the variables.
pub open spec fn rows_ascend(var_order: Seq<usize>, rows: Seq<Vec<Vec<u8>>>, from: int) -> bool {
    forall|m: int, n: int|
        #![trigger rows[m], rows[n]]
        from <= m < n < rows.len() ==> row_before(
            var_order,
            bytes_of(rows[m]@),
            bytes_of(rows[n]@),
        )
}

/// A copy of a row.
fn copy_row(row: &Vec<Vec<u8>>) -> (r: Vec<Vec<u8>>)
    ensures
        bytes_of(r@) == bytes_of(row@),
{
    let mut r: Vec<Vec<u8>> = Vec::new();
    let mut i: usize = 0;
    while i < row.len()
        invariant
            i <= row@.len(),
            r@.len() == i,
            forall|j: int| 0 <= j < i ==> (#[trigger] r@[j])@ == row@[j]@,
        decreases row@.len() - i,
    {
        r.push(to_vec(&row[i]));
        i += 1;
    }
    assert(bytes_of(r@) =~= bytes_of(row@));
    r
}

/// The state of a ground join: how far each factor has descended, and what is bound so far.
struct GroundJoin<'a, T> {
    map: &'a T,
    factors: &'a [Factor],
    var_order: &'a [usize],
    /// The bytes of each factor's bound columns.
    bound: Vec<Vec<u8>>,
    /// How many columns of each factor are bound.
    next_col: Vec<usize>,
    binding: Vec<Vec<u8>>,
    out: Vec<Vec<Vec<u8>>>,
}

impl<'a, T: PathTrie> GroundJoin<'a, T> {
    spec fn prefix(&self, f: int) -> Seq<u8> {
        self.factors@[f].prefix@
    }

    spec fn cols(&self, f: int) -> Seq<usize> {
        self.factors@[f].cols@
    }

    /// The variable of the next column of factor `f`.
    spec fn next_var(&self, f: int) -> int {
        self.cols(f)[self.next_col@[f] as int] as int
    }

    /// The bound columns of factor `f`.
    spec fn taken(&self, f: int) -> Seq<Seq<u8>> {
        Seq::new(self.next_col@[f] as nat, |c: int| self.binding@[self.cols(f)[c] as int]@)
    }

    spec fn factor_ok(&self, f: int) -> bool {
        &&& self.next_col@[f] <= self.cols(f).len()
        &&& self.bound@[f]@ == joined(self.taken(f))
        &&& all_terms(self.taken(f))
        &&& self.next_col@[f] > 0 ==> self.map.paths().contains(self.prefix(f) + self.bound@[f]@)
    }

    spec fn query_ok(&self) -> bool {
        &&& lists_vars(self.factors@, self.var_order@, self.binding@.len())
        &&& all_present(self.map.paths(), self.factors@)
        &&& self.bound@.len() == self.factors@.len()
        &&& self.next_col@.len() == self.factors@.len()
    }

    /// An answer that no dead end keeps the search from.
    spec fn due(&self, row: Seq<Seq<u8>>) -> bool {
        self.answers(row) && row_walked(self.map.paths(), self.factors@, row)
    }

    spec fn factors_ok(&self) -> bool {
        forall|f: int| 0 <= f < self.factors@.len() ==> #[trigger] self.factor_ok(f)
    }

    /// Exactly the first `i` variables of the order are bound.
    spec fn bound_upto(&self, i: int) -> bool {
        forall|v: usize|
            #![trigger self.binding@[v as int]]
            v < self.binding@.len() ==> if ordered_before(self.var_order@, i, v) {
                is_term(self.binding@[v as int]@)
            } else {
                self.binding@[v as int]@.len() == 0
            }
    }

    /// The next column of factor `f` is not among the first `i` variables.
    spec fn waits(&self, f: int, i: int) -> bool {
        self.next_col@[f] < self.cols(f).len() ==> !ordered_before(
            self.var_order@,
            i,
            self.cols(f)[self.next_col@[f] as int],
        )
    }

    spec fn inv(&self, i: int) -> bool {
        &&& self.query_ok()
        &&& self.factors_ok()
        &&& self.bound_upto(i)
        &&& forall|f: int| 0 <= f < self.factors@.len() ==> #[trigger] self.waits(f, i)
        &&& forall|j: int|
            0 <= j < i ==> #[trigger] is_led(self.factors@, self.var_order@, j)
        &&& 0 <= i <= self.var_order@.len()
    }

    spec fn same_query(&self, other: &Self) -> bool {
        &&& self.map == other.map
        &&& self.factors == other.factors
        &&& self.var_order == other.var_order
        &&& self.bound@.len() == other.bound@.len()
        &&& self.next_col@.len() == other.next_col@.len()
        &&& self.binding@.len() == other.binding@.len()
    }

    /// The same position, whatever the rows found.
    spec fn same_place(&self, other: &Self) -> bool {
        &&& self.same_query(other)
        &&& self.next_col@ == other.next_col@
        &&& forall|f: int| 0 <= f < self.bound@.len() ==> (#[trigger] self.bound@[f])@ == other.bound@[f]@
        &&& forall|v: int|
            0 <= v < self.binding@.len() ==> (#[trigger] self.binding@[v])@ == other.binding@[v]@
    }

    spec fn answers(&self, row: Seq<Seq<u8>>) -> bool {
        can_follow(self.factors@, self.var_order@) && is_answer(
            self.map.paths(),
            self.factors@,
            self.var_order@,
            self.binding@.len(),
            row,
        )
    }

    /// `row` gives the first `i` variables the values that are bound now.
    spec fn agrees(&self, i: int, row: Seq<Seq<u8>>) -> bool {
        forall|j: int|
            0 <= j < i ==> row[(#[trigger] self.var_order@[j]) as int]
                == self.binding@[self.var_order@[j] as int]@
    }

    proof fn lemma_same_place(&self, other: &Self, i: int)
        requires
            self.same_place(other),
            other.inv(i),
        ensures
            self.inv(i),
            forall|row: Seq<Seq<u8>>| #[trigger] self.answers(row) == other.answers(row),
            forall|row: Seq<Seq<u8>>| #[trigger] self.agrees(i, row) == other.agrees(i, row),
    {
        assert forall|f: int| 0 <= f < self.factors@.len() implies #[trigger] self.factor_ok(f) by {
            assert(other.factor_ok(f));
            other.lemma_cols_bounded(f);
            assert(self.taken(f) =~= other.taken(f));
        }
        assert forall|f: int| 0 <= f < self.factors@.len() implies #[trigger] self.waits(f, i) by {
            assert(other.waits(f, i));
        }
        assert forall|v: usize|
            #![trigger self.binding@[v as int]]
            v < self.binding@.len() implies if ordered_before(self.var_order@, i, v) {
            is_term(self.binding@[v as int]@)
        } else {
            self.binding@[v as int]@.len() == 0
        } by {
            assert(self.binding@[v as int]@ == other.binding@[v as int]@);
        }
        assert forall|row: Seq<Seq<u8>>| #[trigger] self.agrees(i, row) == other.agrees(i, row) by {
            assert forall|j: int| 0 <= j < i implies self.binding@[(#[trigger] self.var_order@[j]) as int]@
                == other.binding@[other.var_order@[j] as int]@ by {
                assert(self.var_order@[j] < self.binding@.len());
            }
        }
    }

    /// Every variable that a factor names is below the number of variables.
    proof fn lemma_cols_bounded(&self, f: int)
        requires
            lists_vars(self.factors@, self.var_order@, self.binding@.len()),
            0 <= f < self.factors@.len(),
        ensures
            forall|c: int|
                0 <= c < self.cols(f).len() ==> #[trigger] self.cols(f)[c] < self.binding@.len(),
    {
        assert forall|c: int| 0 <= c < self.cols(f).len() implies #[trigger] self.cols(f)[c]
            < self.binding@.len() by {
            assert(ordered_before(
                self.var_order@,
                self.var_order@.len() as int,
                self.factors@[f].cols@[c],
            ));
        }
    }

    /// The factors whose next column is variable `v`.
    fn participants(&self, v: usize) -> (parts: Vec<usize>)
        requires
            self.query_ok(),
        ensures
            forall|p: int| 0 <= p < parts@.len() ==> #[trigger] parts@[p] < self.factors@.len(),
            forall|p: int, q: int|
                #![trigger parts@[p], parts@[q]]
                0 <= p < q < parts@.len() ==> parts@[p] < parts@[q],
            forall|f: usize|
                #![trigger parts@.contains(f)]
                f < self.factors@.len() ==> parts@.contains(f) == (self.next_col@[f as int]
                    < self.cols(f as int).len() && self.cols(f as int)[self.next_col@[f as int] as int] == v),
    {
        let mut parts: Vec<usize> = Vec::new();
        let mut f: usize = 0;
        while f < self.factors.len()
            invariant
                self.query_ok(),
                f <= self.factors@.len(),
                forall|p: int| 0 <= p < parts@.len() ==> #[trigger] parts@[p] < f,
                forall|p: int, q: int|
                    #![trigger parts@[p], parts@[q]]
                    0 <= p < q < parts@.len() ==> parts@[p] < parts@[q],
                forall|g: usize|
                    #![trigger parts@.contains(g)]
                    g < f ==> parts@.contains(g) == (self.next_col@[g as int] < self.cols(
                        g as int,
                    ).len() && self.cols(g as int)[self.next_col@[g as int] as int] == v),
            decreases self.factors@.len() - f,
        {
            let nc = self.next_col[f];
            let ghost parts0 = parts@;
            if nc < self.factors[f].cols.len() && self.factors[f].cols[nc] == v {
                parts.push(f);
                proof {
                    assert forall|g: usize|
                        #![trigger parts@.contains(g)]
                        g < f + 1 implies parts@.contains(g) == (parts0.contains(g) || g == f) by {
                        if parts0.contains(g) {
                            let p = choose|p: int| 0 <= p < parts0.len() && parts0[p] == g;
                            assert(parts@[p] == g);
                        }
                        assert(parts@[parts0.len() as int] == f);
                    }
                }
            }
            f += 1;
        }
        parts
    }

    /// A cursor over the next column of factor `f`.
    fn column(&self, f: usize) -> (c: SubtermCursor<T::ReadZipper<'a>>)
        requires
            self.query_ok(),
            f < self.factors@.len(),
            self.factor_ok(f as int),
            self.next_col@[f as int] < self.cols(f as int).len(),
        ensures
            c.wf(),
            c.branch() == below(
                self.map.paths(),
                self.prefix(f as int) + self.bound@[f as int]@,
            ),
    {
        let mut path = to_vec(&self.factors[f].prefix);
        path.extend_from_slice(&self.bound[f]);
        assert(path@ =~= self.prefix(f as int) + self.bound@[f as int]@);
        SubtermCursor::new(self.map.read_zipper_at_path(&path))
    }

    /// The subterms that every factor of `parts` has as its next column.
    fn column_values(&self, parts: &Vec<usize>) -> (vals: Vec<Vec<u8>>)
        requires
            self.query_ok(),
            forall|p: int|
                0 <= p < parts@.len() ==> {
                    &&& #[trigger] parts@[p] < self.factors@.len()
                    &&& self.factor_ok(parts@[p] as int)
                    &&& self.next_col@[parts@[p] as int] < self.cols(parts@[p] as int).len()
                },
        ensures
            strictly_ascending(vals@),
            forall|k: Seq<u8>| #[trigger]
                listed(vals@, k) ==> parts@.len() > 0 && self.all_continue(parts@, k),
            parts@.len() > 0 ==> forall|k: Seq<u8>| #[trigger]
                self.all_shown(parts@, k) ==> listed(vals@, k),
    {
        let mut cursors: Vec<SubtermCursor<T::ReadZipper<'a>>> = Vec::new();
        let mut p: usize = 0;
        while p < parts.len()
            invariant
                self.query_ok(),
                p <= parts@.len(),
                forall|p: int|
                    0 <= p < parts@.len() ==> {
                        &&& #[trigger] parts@[p] < self.factors@.len()
                        &&& self.factor_ok(parts@[p] as int)
                        &&& self.next_col@[parts@[p] as int] < self.cols(parts@[p] as int).len()
                    },
                cursors@.len() == p,
                cursors_wf(cursors@),
                forall|q: int|
                    0 <= q < p ==> (#[trigger] cursors@[q]).branch() == below(
                        self.map.paths(),
                        self.prefix(parts@[q] as int) + self.bound@[parts@[q] as int]@,
                    ),
            decreases parts@.len() - p,
        {
            let c = self.column(parts[p]);
            cursors.push(c);
            p += 1;
        }
        let ghost opened = cursors@;
        let vals = intersect(&mut cursors);
        proof {
            assert forall|k: Seq<u8>| #[trigger] self.all_continue(parts@, k) == is_common(
                opened,
                k,
            ) by {
                if is_common(opened, k) {
                    assert forall|p: int| 0 <= p < parts@.len() implies self.continues(
                        #[trigger] parts@[p] as int,
                        k,
                    ) by {
                        assert(is_subterm(opened[p].branch(), k));
                    }
                }
                if self.all_continue(parts@, k) {
                    assert forall|c: int| 0 <= c < opened.len() implies is_subterm(
                        (#[trigger] opened[c]).branch(),
                        k,
                    ) by {
                        assert(self.continues(parts@[c] as int, k));
                    }
                }
            }
            assert forall|k: Seq<u8>| #[trigger] self.all_shown(parts@, k) implies all_visible(
                opened,
                k,
            ) by {
                assert forall|c: int| 0 <= c < opened.len() implies is_visible(
                    (#[trigger] opened[c]).branch(),
                    k,
                ) by {
                    assert(self.shows(parts@[c] as int, k));
                }
            }
            assert forall|k: Seq<u8>| #[trigger] listed(vals@, k) implies parts@.len() > 0
                && self.all_continue(parts@, k) by {
                assert(is_common(opened, k));
            }
        }
        vals
    }

    /// `k` is a next column of every factor of `parts`.
    spec fn all_continue(&self, parts: Seq<usize>, k: Seq<u8>) -> bool {
        forall|p: int| 0 <= p < parts.len() ==> self.continues(#[trigger] parts[p] as int, k)
    }

    /// `k` is a next column of factor `f`, before the first dead end.
    spec fn shows(&self, f: int, k: Seq<u8>) -> bool {
        is_visible(below(self.map.paths(), self.prefix(f) + self.bound@[f]@), k)
    }

    /// `k` is a next column of every factor of `parts`, before the first dead end.
    spec fn all_shown(&self, parts: Seq<usize>, k: Seq<u8>) -> bool {
        forall|p: int| 0 <= p < parts.len() ==> self.shows(#[trigger] parts[p] as int, k)
    }

    /// `k` is a next column of factor `f`.
    spec fn continues(&self, f: int, k: Seq<u8>) -> bool {
        is_subterm(below(self.map.paths(), self.prefix(f) + self.bound@[f]@), k)
    }

    /// Factor `f` takes the value of its next variable as its next column.
    fn advance(&mut self, f: usize, val: &[u8])
        requires
            old(self).query_ok(),
            f < old(self).factors@.len(),
            old(self).factor_ok(f as int),
            old(self).next_col@[f as int] < old(self).cols(f as int).len(),
            val@ == old(self).binding@[old(self).next_var(f as int)]@,
            old(self).continues(f as int, val@),
        ensures
            final(self).same_query(old(self)),
            final(self).binding@ == old(self).binding@,
            final(self).out@ == old(self).out@,
            final(self).factor_ok(f as int),
            final(self).next_col@ == old(self).next_col@.update(
                f as int,
                (old(self).next_col@[f as int] + 1) as usize,
            ),
            final(self).bound@.len() == old(self).bound@.len(),
            final(self).bound@[f as int]@ == old(self).bound@[f as int]@ + val@,
            forall|g: int|
                0 <= g < old(self).factors@.len() && g != f ==> #[trigger] final(self).same_factor(
                    old(self),
                    g,
                ),
    {
        let ghost before = *self;
        let ncols = self.factors[f].cols.len();
        self.bound[f].extend_from_slice(val);
        assert(self.next_col@[f as int] < ncols);
        self.next_col[f] = self.next_col[f] + 1;
        proof {
            assert(self.bound@[f as int]@ =~= before.bound@[f as int]@ + val@);
            assert(self.taken(f as int) =~= before.taken(f as int).push(val@));
            lemma_columns_push(
                self.map.paths(),
                self.prefix(f as int),
                before.taken(f as int),
                val@,
            );
            lemma_joined_push(before.taken(f as int), val@);
        }
    }

    spec fn same_factor(&self, other: &Self, f: int) -> bool {
        self.bound@[f] == other.bound@[f] && self.next_col@[f] == other.next_col@[f]
    }

    /// Factors other than `f` stay as they were.
    proof fn lemma_others(&self, before: &Self, f: int)
        requires
            self.same_query(before),
            before.query_ok(),
            self.binding@ == before.binding@,
            0 <= f < self.factors@.len(),
            forall|g: int|
                0 <= g < self.factors@.len() && g != f ==> #[trigger] self.same_factor(before, g),
        ensures
            forall|g: int|
                0 <= g < self.factors@.len() && g != f ==> #[trigger] self.factor_ok(g)
                    == before.factor_ok(g),
            forall|g: int, k: Seq<u8>|
                0 <= g < self.factors@.len() && g != f ==> #[trigger] self.continues(g, k)
                    == before.continues(g, k),
            forall|g: int, i: int|
                0 <= g < self.factors@.len() && g != f ==> #[trigger] self.waits(g, i)
                    == before.waits(g, i),
    {
        assert forall|g: int|
            0 <= g < self.factors@.len() && g != f implies #[trigger] self.factor_ok(g)
            == before.factor_ok(g) by {
            assert(self.same_factor(before, g));
            assert(self.taken(g) =~= before.taken(g));
        }
        assert forall|g: int, k: Seq<u8>|
            0 <= g < self.factors@.len() && g != f implies #[trigger] self.continues(g, k)
            == before.continues(g, k) by {
            assert(self.same_factor(before, g));
        }
        assert forall|g: int, i: int|
            0 <= g < self.factors@.len() && g != f implies #[trigger] self.waits(g, i)
            == before.waits(g, i) by {
            assert(self.same_factor(before, g));
        }
    }

    /// An answer that is due, and agrees with what is bound, goes on with the next column of every
    /// factor.
    proof fn lemma_row_continues(&self, i: int, f: int, row: Seq<Seq<u8>>)
        requires
            self.query_ok(),
            self.factor_ok(f),
            self.bound_upto(i),
            0 <= f < self.factors@.len(),
            self.next_col@[f] < self.cols(f).len(),
            self.due(row),
            self.agrees(i, row),
        ensures
            self.shows(f, row[self.next_var(f)]),
            self.continues(f, row[self.next_var(f)]),
    {
        let nc = self.next_col@[f] as int;
        let all = picked(self.cols(f), row);
        self.lemma_cols_bounded(f);
        assert(walked(
            self.map.paths(),
            self.factors@[f].prefix@,
            picked(self.factors@[f].cols@, row),
        ));
        assert(all.take(nc) =~= self.taken(f)) by {
            assert forall|c: int| 0 <= c < nc implies all[c] == #[trigger] self.taken(f)[c] by {
                let v = self.cols(f)[c];
                assert(is_term(self.taken(f)[c]));
                lemma_term_nonempty(self.taken(f)[c]);
                assert(self.binding@[v as int]@.len() > 0);
                assert(ordered_before(self.var_order@, i, v));
                let j = choose|j: int| 0 <= j < i && #[trigger] self.var_order@[j] == v;
                assert(row[self.var_order@[j] as int]
                    == self.binding@[self.var_order@[j] as int]@);
            }
        }
        assert(all[nc] == row[self.next_var(f)]);
        assert(is_visible(
            below(self.map.paths(), self.prefix(f) + joined(all.take(nc))),
            all[nc],
        ));
    }

    /// Whether `target` is a next column of factor `f`.
    fn has_next(&self, f: usize, target: &[u8]) -> (r: bool)
        requires
            self.query_ok(),
            f < self.factors@.len(),
            self.factor_ok(f as int),
            self.next_col@[f as int] < self.cols(f as int).len(),
            is_term(target@),
        ensures
            r == self.continues(f as int, target@),
    {
        let mut c = self.column(f);
        let ghost branch = c.branch();
        c.seek(target);
        proof {
            lemma_sought_value(branch, target@, c.current());
        }
        match c.key() {
            Some(k) => bytes_eq(k, target),
            None => false,
        }
    }

    /// Factor `f` takes every further column whose variable is bound already. False if the trie
    /// does not have the bound value there.
    fn catch_up(&mut self, f: usize, Ghost(i): Ghost<int>) -> (ok: bool)
        requires
            old(self).query_ok(),
            old(self).factors_ok(),
            old(self).bound_upto(i),
            f < old(self).factors@.len(),
        ensures
            final(self).same_query(old(self)),
            final(self).binding@ == old(self).binding@,
            final(self).out@ == old(self).out@,
            final(self).factors_ok(),
            final(self).grown_from(old(self)),
            forall|g: int|
                0 <= g < old(self).factors@.len() && g != f ==> #[trigger] final(self).same_factor(
                    old(self),
                    g,
                ),
            ok ==> final(self).waits(f as int, i),
            !ok ==> forall|row: Seq<Seq<u8>>|
                old(self).agrees(i, row) ==> !#[trigger] old(self).due(row),
    {
        let ghost start = *self;
        let ncols = self.factors[f].cols.len();
        proof {
            self.lemma_grown_refl();
        }
        loop
            invariant
                start == *old(self),
                start.bound_upto(i),
                self.same_query(&start),
                self.binding@ == start.binding@,
                self.out@ == start.out@,
                self.query_ok(),
                self.factors_ok(),
                self.grown_from(&start),
                f < self.factors@.len(),
                ncols == self.cols(f as int).len(),
                forall|g: int|
                    0 <= g < start.factors@.len() && g != f ==> #[trigger] self.same_factor(
                        &start,
                        g,
                    ),
            decreases ncols - self.next_col@[f as int],
        {
            assert(self.factor_ok(f as int));
            let nc = self.next_col[f];
            if nc >= ncols {
                return true;
            }
            let cv = self.factors[f].cols[nc];
            proof {
                self.lemma_cols_bounded(f as int);
                assert(self.bound_upto(i));
            }
            if self.binding[cv].len() == 0 {
                proof {
                    if ordered_before(self.var_order@, i, cv) {
                        lemma_term_nonempty(self.binding@[cv as int]@);
                    }
                }
                return true;
            }
            let target = to_vec(&self.binding[cv]);
            assert(is_term(self.binding@[cv as int]@));
            if !self.has_next(f, &target) {
                proof {
                    assert forall|row: Seq<Seq<u8>>|
                        start.agrees(i, row) implies !#[trigger] start.due(row) by {
                        if start.due(row) {
                            assert(self.due(row));
                            assert(self.agrees(i, row));
                            self.lemma_row_continues(i, f as int, row);
                            let j = choose|j: int| 0 <= j < i && #[trigger] self.var_order@[j] == cv;
                            assert(row[self.var_order@[j] as int]
                                == self.binding@[self.var_order@[j] as int]@);
                        }
                    }
                }
                return false;
            }
            let ghost before = *self;
            self.advance(f, &target);
            proof {
                self.lemma_others(&before, f as int);
                assert forall|g: int| 0 <= g < self.factors@.len() implies #[trigger] self.factor_ok(g) by {
                    if g != f {
                        assert(before.factor_ok(g));
                    }
                }
                assert(before.bound@[f as int]@ =~= self.bound@[f as int]@.take(
                    before.bound@[f as int]@.len() as int,
                ));
                self.lemma_grown(&before, &start, f as int);
                assert forall|g: int| 0 <= g < start.factors@.len() && g != f implies #[trigger] self.same_factor(
                    &start,
                    g,
                ) by {
                    assert(before.same_factor(&start, g));
                    assert(self.same_factor(&before, g));
                }
            }
        }
    }

    /// What every factor had bound in `base` is still bound first.
    spec fn grown_from(&self, base: &Self) -> bool {
        forall|f: int|
            0 <= f < base.factors@.len() ==> is_prefix(base.bound@[f]@, #[trigger] self.bound@[f]@)
    }

    proof fn lemma_grown_refl(&self)
        ensures
            self.grown_from(self),
    {
        assert forall|f: int| 0 <= f < self.factors@.len() implies is_prefix(
            self.bound@[f]@,
            #[trigger] self.bound@[f]@,
        ) by {
            lemma_prefix_refl(self.bound@[f]@);
        }
    }

    proof fn lemma_grown(&self, before: &Self, base: &Self, f: int)
        requires
            self.same_query(before),
            before.same_query(base),
            before.query_ok(),
            before.grown_from(base),
            0 <= f < before.factors@.len(),
            is_prefix(before.bound@[f]@, self.bound@[f]@),
            forall|g: int|
                0 <= g < before.factors@.len() && g != f ==> #[trigger] self.same_factor(before, g),
        ensures
            self.grown_from(base),
    {
        assert forall|g: int| 0 <= g < base.factors@.len() implies is_prefix(
            base.bound@[g]@,
            #[trigger] self.bound@[g]@,
        ) by {
            assert(is_prefix(base.bound@[g]@, before.bound@[g]@));
            if g != f {
                assert(self.same_factor(before, g));
            } else {
                lemma_prefix_of_prefix(base.bound@[f]@, before.bound@[f]@, self.bound@[f]@);
            }
        }
    }

    /// Every factor forgets the columns it took since it had bound `lens` bytes in `cols` columns.
    fn rewind(&mut self, lens: &Vec<usize>, cols: &Vec<usize>)
        requires
            old(self).query_ok(),
            lens@.len() == old(self).factors@.len(),
            cols@.len() == old(self).factors@.len(),
            forall|f: int|
                0 <= f < lens@.len() ==> #[trigger] lens@[f] <= old(self).bound@[f]@.len(),
        ensures
            final(self).same_query(old(self)),
            final(self).binding@ == old(self).binding@,
            final(self).out@ == old(self).out@,
            final(self).next_col@ == cols@,
            forall|f: int|
                0 <= f < lens@.len() ==> (#[trigger] final(self).bound@[f])@
                    == old(self).bound@[f]@.take(lens@[f] as int),
    {
        let ghost start = *self;
        let mut f: usize = 0;
        while f < self.factors.len()
            invariant
                f <= self.factors@.len(),
                start == *old(self),
                self.same_query(&start),
                start.query_ok(),
                self.binding@ == start.binding@,
                self.out@ == start.out@,
                lens@.len() == start.factors@.len(),
                cols@.len() == start.factors@.len(),
                forall|g: int| 0 <= g < lens@.len() ==> #[trigger] lens@[g] <= start.bound@[g]@.len(),
                forall|g: int|
                    0 <= g < f ==> (#[trigger] self.bound@[g])@ == start.bound@[g]@.take(
                        lens@[g] as int,
                    ),
                forall|g: int| 0 <= g < f ==> #[trigger] self.next_col@[g] == cols@[g],
                forall|g: int|
                    f <= g < self.factors@.len() ==> #[trigger] self.bound@[g] == start.bound@[g],
            decreases self.factors@.len() - f,
        {
            assert(lens@[f as int] <= start.bound@[f as int]@.len());
            let len = lens[f];
            self.bound[f].truncate(len);
            self.next_col[f] = cols[f];
            f += 1;
        }
        proof {
            assert(self.next_col@ =~= cols@);
        }
    }

    /// Every factor of `parts` takes `val`, the value of its next variable `v`.
    fn advance_all(&mut self, parts: &Vec<usize>, val: &[u8], Ghost(v): Ghost<usize>)
        requires
            old(self).query_ok(),
            old(self).factors_ok(),
            v < old(self).binding@.len(),
            val@ == old(self).binding@[v as int]@,
            forall|p: int|
                0 <= p < parts@.len() ==> {
                    &&& #[trigger] parts@[p] < old(self).factors@.len()
                    &&& old(self).next_is(parts@[p] as int, v)
                    &&& old(self).continues(parts@[p] as int, val@)
                },
            forall|p: int, q: int|
                #![trigger parts@[p], parts@[q]]
                0 <= p < q < parts@.len() ==> parts@[p] < parts@[q],
        ensures
            final(self).same_query(old(self)),
            final(self).binding@ == old(self).binding@,
            final(self).out@ == old(self).out@,
            final(self).factors_ok(),
            final(self).grown_from(old(self)),
            forall|g: usize|
                g < old(self).factors@.len() && !parts@.contains(g)
                    ==> #[trigger] final(self).same_factor(old(self), g as int),
    {
        let ghost start = *self;
        proof {
            self.lemma_grown_refl();
        }
        let mut p: usize = 0;
        while p < parts.len()
            invariant
                p <= parts@.len(),
                start == *old(self),
                self.same_query(&start),
                self.binding@ == start.binding@,
                self.out@ == start.out@,
                self.query_ok(),
                self.factors_ok(),
                self.grown_from(&start),
                v < self.binding@.len(),
                val@ == self.binding@[v as int]@,
                forall|p: int|
                    0 <= p < parts@.len() ==> {
                        &&& #[trigger] parts@[p] < start.factors@.len()
                        &&& start.next_is(parts@[p] as int, v)
                        &&& start.continues(parts@[p] as int, val@)
                    },
                forall|p: int, q: int|
                    #![trigger parts@[p], parts@[q]]
                    0 <= p < q < parts@.len() ==> parts@[p] < parts@[q],
                forall|q: int|
                    p <= q < parts@.len() ==> self.same_factor(&start, #[trigger] parts@[q] as int),
                forall|g: usize|
                    g < start.factors@.len() && !parts@.contains(g) ==> #[trigger] self.same_factor(
                        &start,
                        g as int,
                    ),
            decreases parts@.len() - p,
        {
            let f = parts[p];
            let ghost before = *self;
            assert(self.same_factor(&start, f as int));
            assert(self.factor_ok(f as int));
            self.advance(f, val);
            proof {
                self.lemma_others(&before, f as int);
                assert forall|g: int| 0 <= g < self.factors@.len() implies #[trigger] self.factor_ok(g) by {
                    if g != f {
                        assert(before.factor_ok(g));
                    }
                }
                assert(before.bound@[f as int]@ =~= self.bound@[f as int]@.take(
                    before.bound@[f as int]@.len() as int,
                ));
                self.lemma_grown(&before, &start, f as int);
                assert forall|q: int| p < q < parts@.len() implies self.same_factor(
                    &start,
                    #[trigger] parts@[q] as int,
                ) by {
                    assert(parts@[p as int] < parts@[q]);
                    assert(before.same_factor(&start, parts@[q] as int));
                    assert(self.same_factor(&before, parts@[q] as int));
                }
                assert forall|g: usize|
                    g < start.factors@.len() && !parts@.contains(g) implies #[trigger] self.same_factor(
                    &start,
                    g as int,
                ) by {
                    assert(parts@[p as int] != g);
                    assert(before.same_factor(&start, g as int));
                    assert(self.same_factor(&before, g as int));
                }
            }
            p += 1;
        }
    }

    /// The next column of factor `f` is variable `v`.
    spec fn next_is(&self, f: int, v: usize) -> bool {
        self.next_col@[f] < self.cols(f).len() && self.cols(f)[self.next_col@[f] as int] == v
    }

    /// The factors of `parts` take every further column whose variable is bound already. False if
    /// the trie does not have a bound value where a factor needs it.
    fn catch_up_all(&mut self, parts: &Vec<usize>, Ghost(i): Ghost<int>) -> (ok: bool)
        requires
            old(self).query_ok(),
            old(self).factors_ok(),
            old(self).bound_upto(i),
            forall|p: int| 0 <= p < parts@.len() ==> #[trigger] parts@[p] < old(self).factors@.len(),
            forall|g: usize|
                g < old(self).factors@.len() && !parts@.contains(g) ==> #[trigger] old(self).waits(
                    g as int,
                    i,
                ),
        ensures
            final(self).same_query(old(self)),
            final(self).binding@ == old(self).binding@,
            final(self).out@ == old(self).out@,
            final(self).factors_ok(),
            final(self).grown_from(old(self)),
            ok ==> forall|g: int|
                0 <= g < old(self).factors@.len() ==> #[trigger] final(self).waits(g, i),
            !ok ==> forall|row: Seq<Seq<u8>>|
                old(self).agrees(i, row) ==> !#[trigger] old(self).due(row),
    {
        let ghost start = *self;
        proof {
            self.lemma_grown_refl();
        }
        let mut p: usize = 0;
        while p < parts.len()
            invariant
                p <= parts@.len(),
                start == *old(self),
                start.bound_upto(i),
                self.same_query(&start),
                self.binding@ == start.binding@,
                self.out@ == start.out@,
                self.query_ok(),
                self.factors_ok(),
                self.grown_from(&start),
                forall|p: int| 0 <= p < parts@.len() ==> #[trigger] parts@[p] < start.factors@.len(),
                forall|g: usize|
                    g < start.factors@.len() && (!parts@.contains(g) || parts@.take(p as int).contains(
                        g,
                    )) ==> #[trigger] self.waits(g as int, i),
            decreases parts@.len() - p,
        {
            let f = parts[p];
            let ghost before = *self;
            assert(before.bound_upto(i));
            let ok = self.catch_up(f, Ghost(i));
            proof {
                assert forall|g: int| 0 <= g < start.factors@.len() implies is_prefix(
                    start.bound@[g]@,
                    #[trigger] self.bound@[g]@,
                ) by {
                    assert(is_prefix(start.bound@[g]@, before.bound@[g]@));
                    lemma_prefix_of_prefix(start.bound@[g]@, before.bound@[g]@, self.bound@[g]@);
                }
            }
            if !ok {
                proof {
                    assert forall|row: Seq<Seq<u8>>|
                        start.agrees(i, row) implies !#[trigger] start.due(row) by {
                        assert(before.agrees(i, row));
                        assert(!before.due(row));
                    }
                }
                return false;
            }
            proof {
                self.lemma_others(&before, f as int);
                assert forall|g: usize|
                    g < start.factors@.len() && (!parts@.contains(g) || parts@.take(
                        (p + 1) as int,
                    ).contains(g)) implies #[trigger] self.waits(g as int, i) by {
                    if g != f {
                        if parts@.contains(g) {
                            let done = parts@.take((p + 1) as int);
                            let q = choose|q: int| 0 <= q < done.len() && done[q] == g;
                            assert(parts@[q] == g);
                            assert(q < p);
                            assert(parts@.take(p as int)[q] == g);
                        }
                        assert(before.waits(g as int, i));
                    }
                }
            }
            p += 1;
        }
        let _nfactors: usize = self.factors.len();
        proof {
            assert(parts@.take(parts@.len() as int) =~= parts@);
            assert forall|g: int| 0 <= g < start.factors@.len() implies #[trigger] self.waits(g, i) by {
                assert(self.waits((g as usize) as int, i));
            }
        }
        true
    }

    /// Binding the next variable keeps the state in order.
    proof fn lemma_bind(&self, before: &Self, i: int, val: Seq<u8>)
        requires
            before.inv(i),
            i < before.var_order@.len(),
            is_term(val),
            self.same_query(before),
            self.bound@ == before.bound@,
            self.next_col@ == before.next_col@,
            self.binding@[before.var_order@[i] as int]@ == val,
            forall|w: int|
                0 <= w < before.binding@.len() && w != before.var_order@[i]
                    ==> #[trigger] self.binding@[w] == before.binding@[w],
        ensures
            self.query_ok(),
            self.factors_ok(),
            self.bound_upto(i + 1),
            forall|f: int|
                0 <= f < self.factors@.len() && !before.next_is(f, before.var_order@[i])
                    ==> #[trigger] self.waits(f, i + 1),
            forall|f: int, k: Seq<u8>|
                0 <= f < self.factors@.len() ==> #[trigger] self.continues(f, k)
                    == before.continues(f, k),
            forall|f: int, w: usize|
                0 <= f < self.factors@.len() ==> #[trigger] self.next_is(f, w)
                    == before.next_is(f, w),
            forall|row: Seq<Seq<u8>>| #[trigger]
                self.agrees(i + 1, row) == (before.agrees(i, row)
                    && row[before.var_order@[i] as int] == val),
    {
        let v = before.var_order@[i];
        let vo = before.var_order@;
        assert(!ordered_before(vo, i, v));
        assert forall|f: int| 0 <= f < self.factors@.len() implies #[trigger] self.factor_ok(f) by {
            assert(before.factor_ok(f));
            before.lemma_cols_bounded(f);
            assert(self.taken(f) =~= before.taken(f)) by {
                assert forall|c: int| 0 <= c < before.next_col@[f] implies self.taken(f)[c]
                    == #[trigger] before.taken(f)[c] by {
                    assert(is_term(before.taken(f)[c]));
                    lemma_term_nonempty(before.taken(f)[c]);
                    assert(before.binding@[before.cols(f)[c] as int]@.len() > 0);
                    assert(before.binding@[v as int]@.len() == 0);
                }
            }
        }
        assert forall|w: usize|
            #![trigger self.binding@[w as int]]
            w < self.binding@.len() implies if ordered_before(self.var_order@, i + 1, w) {
            is_term(self.binding@[w as int]@)
        } else {
            self.binding@[w as int]@.len() == 0
        } by {
            if w == v {
                assert(vo[i] == w);
            } else {
                assert(self.binding@[w as int] == before.binding@[w as int]);
                assert(ordered_before(vo, i + 1, w) == ordered_before(vo, i, w));
            }
        }
        assert forall|f: int|
            0 <= f < self.factors@.len() && !before.next_is(f, v) implies #[trigger] self.waits(
            f,
            i + 1,
        ) by {
            assert(before.waits(f, i));
        }
        assert forall|row: Seq<Seq<u8>>| #[trigger]
            self.agrees(i + 1, row) == (before.agrees(i, row) && row[v as int] == val) by {
            if self.agrees(i + 1, row) {
                assert(row[self.var_order@[i] as int] == self.binding@[self.var_order@[i] as int]@);
                assert forall|j: int| 0 <= j < i implies row[(#[trigger] before.var_order@[j]) as int]
                    == before.binding@[before.var_order@[j] as int]@ by {
                    assert(row[self.var_order@[j] as int]
                        == self.binding@[self.var_order@[j] as int]@);
                    assert(vo[j] != vo[i]);
                }
            }
            if before.agrees(i, row) && row[v as int] == val {
                assert forall|j: int| 0 <= j < i + 1 implies row[(#[trigger] self.var_order@[j]) as int]
                    == self.binding@[self.var_order@[j] as int]@ by {
                    if j < i {
                        assert(row[before.var_order@[j] as int]
                            == before.binding@[before.var_order@[j] as int]@);
                        assert(vo[j] != vo[i]);
                    }
                }
            }
        }
    }

    /// A factor takes part at position `i` exactly when some factor leads there.
    proof fn lemma_led(&self, i: int)
        requires
            self.inv(i),
            i < self.var_order@.len(),
        ensures
            is_led(self.factors@, self.var_order@, i) == exists|f: int|
                0 <= f < self.factors@.len() && #[trigger] self.next_is(f, self.var_order@[i]),
    {
        let vo = self.var_order@;
        let v = vo[i];
        assert(!ordered_before(vo, i, v));
        if is_led(self.factors@, vo, i) {
            let (f, c) = choose|f: int, c: int| #[trigger] leads(self.factors@, vo, i, f, c);
            assert(self.factor_ok(f));
            assert(self.waits(f, i));
            self.lemma_cols_bounded(f);
            let nc = self.next_col@[f] as int;
            if nc < c {
                assert(ordered_before(vo, i, self.factors@[f].cols@[nc]));
            }
            if nc > c {
                assert(is_term(self.taken(f)[c]));
                lemma_term_nonempty(self.taken(f)[c]);
                assert(self.binding@[self.cols(f)[c] as int]@.len() > 0);
            }
            assert(self.next_is(f, v));
        }
        if exists|f: int| 0 <= f < self.factors@.len() && #[trigger] self.next_is(f, v) {
            let f = choose|f: int| 0 <= f < self.factors@.len() && #[trigger] self.next_is(f, v);
            let c = self.next_col@[f] as int;
            self.lemma_cols_bounded(f);
            assert(self.factor_ok(f));
            assert forall|b: int| 0 <= b < c implies ordered_before(
                vo,
                i,
                #[trigger] self.factors@[f].cols@[b],
            ) by {
                assert(is_term(self.taken(f)[b]));
                lemma_term_nonempty(self.taken(f)[b]);
                assert(self.binding@[self.cols(f)[b] as int]@.len() > 0);
            }
            assert(leads(self.factors@, vo, i, f, c));
        }
    }

    /// When every variable is bound, the binding is the only answer that agrees with it.
    proof fn lemma_complete(&self)
        requires
            self.inv(self.var_order@.len() as int),
            self.binding@.len() <= usize::MAX,
        ensures
            forall|row: Seq<Seq<u8>>| #[trigger]
                self.answers(row) && self.agrees(self.var_order@.len() as int, row) <==> row
                    == bytes_of(self.binding@),
    {
        let vo = self.var_order@;
        let n = vo.len() as int;
        let all = bytes_of(self.binding@);
        assert forall|f: int| 0 <= f < self.factors@.len() implies columns_at(
            self.map.paths(),
            (#[trigger] self.factors@[f]).prefix@,
            picked(self.factors@[f].cols@, all),
        ) by {
            assert(self.factor_ok(f));
            assert(self.waits(f, n));
            self.lemma_cols_bounded(f);
            let nc = self.next_col@[f] as int;
            if nc < self.cols(f).len() {
                assert(ordered_before(vo, n, self.factors@[f].cols@[nc]));
            }
            assert(picked(self.cols(f), all) =~= self.taken(f));
            assert(self.prefix(f) + Seq::<u8>::empty() =~= self.prefix(f));
        }
        assert forall|v: usize|
            #![trigger all[v as int]]
            v < self.binding@.len() implies if ordered_before(vo, n, v) {
            is_term(all[v as int])
        } else {
            all[v as int].len() == 0
        } by {
            assert(all[v as int] == self.binding@[v as int]@);
        }
        assert forall|row: Seq<Seq<u8>>| #[trigger] self.answers(row) && self.agrees(
            n,
            row,
        ) implies row == all by {
            assert(row =~= all) by {
                assert forall|w: int| 0 <= w < row.len() implies row[w] == all[w] by {
                    assert(all[w] == self.binding@[w]@);
                    let v = w as usize;
                    assert(row[v as int] == row[w]);
                    assert(self.binding@[v as int] == self.binding@[w]);
                    if ordered_before(vo, n, v) {
                        let j = choose|j: int| 0 <= j < n && #[trigger] vo[j] == v;
                        assert(row[self.var_order@[j] as int]
                            == self.binding@[self.var_order@[j] as int]@);
                    } else {
                        assert(row[w] =~= all[w]);
                    }
                }
            }
        }
    }

    /// Find the answers that agree with the first `i` variables as they are bound now.
    fn recurse(&mut self, i: usize)
        requires
            old(self).inv(i as int),
        ensures
            final(self).same_place(old(self)),
            old(self).out@.len() <= final(self).out@.len(),
            final(self).out@.take(old(self).out@.len() as int) == old(self).out@,
            rows_ascend(old(self).var_order@, final(self).out@, old(self).out@.len() as int),
            forall|row: Seq<Seq<u8>>| #[trigger]
                row_found(final(self).out@, old(self).out@.len() as int, row)
                    ==> old(self).answers(row) && old(self).agrees(i as int, row),
            forall|row: Seq<Seq<u8>>| #[trigger]
                old(self).due(row) && old(self).agrees(i as int, row) ==> row_found(
                    final(self).out@,
                    old(self).out@.len() as int,
                    row,
                ),
        decreases old(self).var_order@.len() - i,
    {
        let ghost start = *self;
        if i == self.var_order.len() {
            let _nvars: usize = self.binding.len();
            let row = copy_row(&self.binding);
            self.out.push(row);
            proof {
                start.lemma_complete();
                assert forall|r: Seq<Seq<u8>>| #[trigger]
                    row_found(self.out@, start.out@.len() as int, r) <==> start.answers(r)
                        && start.agrees(i as int, r) by {
                    let n = start.out@.len() as int;
                    if r == bytes_of(start.binding@) {
                        assert(bytes_of(self.out@[n]@) == r);
                    }
                    if row_found(self.out@, n, r) {
                        let m = choose|m: int|
                            n <= m < self.out@.len() && bytes_of((#[trigger] self.out@[m])@) == r;
                        assert(m == n);
                    }
                }
                assert(self.out@.take(start.out@.len() as int) =~= start.out@);
            }
            return ;
        }
        let v = self.var_order[i];
        let parts = self.participants(v);
        proof {
            assert forall|p: int| 0 <= p < parts@.len() implies {
                &&& #[trigger] parts@[p] < self.factors@.len()
                &&& self.factor_ok(parts@[p] as int)
                &&& self.next_is(parts@[p] as int, v)
            } by {
                assert(parts@.contains(parts@[p]));
            }
        }
        let vals = self.column_values(&parts);
        let lens = self.lengths();
        let cols = copy_indices(&self.next_col);
        let ghost from = start.out@.len() as int;
        let mut k: usize = 0;
        while k < vals.len()
            invariant
                k <= vals@.len(),
                start == *old(self),
                start.inv(i as int),
                i < start.var_order@.len(),
                v == start.var_order@[i as int],
                from == start.out@.len(),
                self.same_place(&start),
                lens@.len() == start.factors@.len(),
                forall|f: int| 0 <= f < lens@.len() ==> #[trigger] lens@[f] == start.bound@[f]@.len(),
                cols@ == start.next_col@,
                strictly_ascending(vals@),
                forall|p: int|
                    0 <= p < parts@.len() ==> {
                        &&& #[trigger] parts@[p] < start.factors@.len()
                        &&& start.next_is(parts@[p] as int, v)
                    },
                forall|p: int, q: int|
                    #![trigger parts@[p], parts@[q]]
                    0 <= p < q < parts@.len() ==> parts@[p] < parts@[q],
                forall|f: usize|
                    f < start.factors@.len() && !parts@.contains(f) ==> !#[trigger] start.next_is(
                        f as int,
                        v,
                    ),
                forall|w: Seq<u8>| #[trigger]
                    listed(vals@, w) ==> parts@.len() > 0 && start.all_continue(parts@, w),
                parts@.len() > 0 ==> forall|w: Seq<u8>| #[trigger]
                    start.all_shown(parts@, w) ==> listed(vals@, w),
                from <= self.out@.len(),
                self.out@.take(from) == start.out@,
                rows_ascend(start.var_order@, self.out@, from),
                start.rows_exact(self.out@, from, i as int, vals@.take(k as int)),
            decreases vals@.len() - k,
        {
            let ghost level = *self;
            let _nordered: usize = self.var_order.len();
            proof {
                level.lemma_same_place(&start, i as int);
                assert(listed(vals@, vals@[k as int]@));
                assert(start.continues(parts@[0] as int, vals@[k as int]@));
                assert(is_term(vals@[k as int]@));
                start.lemma_led(i as int);
            }
            self.binding[v] = to_vec(&vals[k]);
            let ghost bind = *self;
            proof {
                bind.lemma_bind(&level, i as int, vals@[k as int]@);
                assert forall|p: int| 0 <= p < parts@.len() implies {
                    &&& #[trigger] parts@[p] < self.factors@.len()
                    &&& self.next_is(parts@[p] as int, v)
                    &&& self.continues(parts@[p] as int, vals@[k as int]@)
                } by {
                    let f = parts@[p] as int;
                    assert(start.continues(f, vals@[k as int]@));
                    assert(level.bound@[f]@ == start.bound@[f]@);
                    assert(level.continues(f, vals@[k as int]@));
                    assert(level.next_is(f, v));
                }
            }
            self.advance_all(&parts, &vals[k], Ghost(v));
            let ghost adv = *self;
            proof {
                assert forall|g: usize|
                    g < self.factors@.len() && !parts@.contains(g) implies #[trigger] self.waits(
                    g as int,
                    i + 1,
                ) by {
                    assert(self.same_factor(&bind, g as int));
                    assert(!start.next_is(g as int, v));
                    assert(!level.next_is(g as int, v));
                    assert(bind.waits(g as int, i + 1));
                }
                assert(self.bound_upto(i + 1));
            }
            let ok = self.catch_up_all(&parts, Ghost(i + 1));
            let ghost caught = *self;
            if ok {
                proof {
                    assert(self.bound_upto(i + 1));
                    assert forall|j: int| 0 <= j < i + 1 implies #[trigger] is_led(
                        self.factors@,
                        self.var_order@,
                        j,
                    ) by {
                        assert(start.next_is(parts@[0] as int, v));
                    }
                }
                self.recurse(i + 1);
            }
            let ghost deep = *self;
            proof {
                let one = seq![vals@[k as int]];
                assert forall|w: Seq<u8>| #[trigger] listed(one, w) == (w == vals@[k as int]@) by {
                    assert(one[0] == vals@[k as int]);
                }
                assert forall|row: Seq<Seq<u8>>| {
                    &&& #[trigger] row_found(deep.out@, level.out@.len() as int, row)
                        ==> start.answers(row) && start.agrees(i as int, row) && listed(
                        one,
                        row[v as int],
                    )
                    &&& start.due(row) && start.agrees(i as int, row) && listed(
                        one,
                        row[v as int],
                    ) ==> row_found(deep.out@, level.out@.len() as int, row)
                } by {
                    assert(bind.agrees(i + 1, row) == (level.agrees(i as int, row) && row[v as int]
                        == vals@[k as int]@));
                    assert(adv.agrees(i + 1, row) == bind.agrees(i + 1, row));
                    assert(caught.agrees(i + 1, row) == bind.agrees(i + 1, row));
                    assert(caught.answers(row) == start.answers(row));
                    assert(adv.due(row) == start.due(row));
                    assert(caught.due(row) == start.due(row));
                    assert(level.agrees(i as int, row) == start.agrees(i as int, row));
                }
                assert forall|f: int| 0 <= f < lens@.len() implies {
                    &&& #[trigger] lens@[f] <= deep.bound@[f]@.len()
                    &&& deep.bound@[f]@.take(lens@[f] as int) == start.bound@[f]@
                } by {
                    assert(level.bound@[f]@ == start.bound@[f]@);
                    assert(is_prefix(bind.bound@[f]@, adv.bound@[f]@));
                    assert(is_prefix(adv.bound@[f]@, caught.bound@[f]@));
                    lemma_prefix_of_prefix(bind.bound@[f]@, adv.bound@[f]@, caught.bound@[f]@);
                    assert(deep.bound@[f]@ == caught.bound@[f]@);
                }
            }
            self.rewind(&lens, &cols);
            self.binding[v].clear();
            proof {
                assert(self.same_place(&start)) by {
                    assert forall|f: int| 0 <= f < self.bound@.len() implies (
                    #[trigger] self.bound@[f])@ == start.bound@[f]@ by {
                        assert(lens@[f] <= deep.bound@[f]@.len());
                    }
                    assert forall|w: int| 0 <= w < self.binding@.len() implies (
                    #[trigger] self.binding@[w])@ == start.binding@[w]@ by {
                        assert(level.binding@[w]@ == start.binding@[w]@);
                        if w == v {
                            assert(!ordered_before(start.var_order@, i as int, v));
                            assert(start.binding@[v as int]@.len() == 0);
                            assert(self.binding@[w]@ =~= start.binding@[w]@);
                        } else {
                            assert(bind.binding@[w] == level.binding@[w]);
                            assert(deep.binding@[w]@ == caught.binding@[w]@);
                        }
                    }
                }
                assert(self.out@ == deep.out@);
                assert(self.out@.take(level.out@.len() as int) =~= level.out@);
                assert(level.out@.take(from) == start.out@);
                start.lemma_group(i as int, from, level.out@, self.out@, vals@, k as int);
            }
            k += 1;
        }
        let _nfactors: usize = self.factors.len();
        proof {
            assert(vals@.take(vals@.len() as int) =~= vals@);
            assert forall|row: Seq<Seq<u8>>|
                #[trigger] start.due(row) && start.agrees(i as int, row) implies listed(vals@, row[v as int]) by {
                start.lemma_led(i as int);
                assert(is_led(start.factors@, start.var_order@, i as int));
                let f = choose|f: int|
                    0 <= f < start.factors@.len() && #[trigger] start.next_is(f, v);
                assert(start.next_is((f as usize) as int, v));
                assert(parts@.contains(f as usize));
                assert forall|p: int| 0 <= p < parts@.len() implies start.shows(
                    #[trigger] parts@[p] as int,
                    row[v as int],
                ) by {
                    start.lemma_row_continues(i as int, parts@[p] as int, row);
                }
                assert(start.all_shown(parts@, row[v as int]));
            }
        }
    }

    /// How many bytes each factor has bound.
    fn lengths(&self) -> (lens: Vec<usize>)
        requires
            self.query_ok(),
        ensures
            lens@.len() == self.factors@.len(),
            forall|f: int| 0 <= f < lens@.len() ==> #[trigger] lens@[f] == self.bound@[f]@.len(),
    {
        let mut lens: Vec<usize> = Vec::new();
        while lens.len() < self.factors.len()
            invariant
                self.query_ok(),
                lens@.len() <= self.factors@.len(),
                forall|f: int| 0 <= f < lens@.len() ==> #[trigger] lens@[f] == self.bound@[f]@.len(),
            decreases self.factors@.len() - lens@.len(),
        {
            let len = self.bound[lens.len()].len();
            lens.push(len);
        }
        lens
    }

    /// The rows from index `from` on are answers that agree with what is bound and have one of the
    /// `vals` for variable `var_order[i]`, and all of those that are due.
    spec fn rows_exact(
        &self,
        rows: Seq<Vec<Vec<u8>>>,
        from: int,
        i: int,
        vals: Seq<Vec<u8>>,
    ) -> bool {
        &&& forall|row: Seq<Seq<u8>>| #[trigger]
            row_found(rows, from, row) ==> self.answers(row) && self.agrees(i, row) && listed(
                vals,
                row[self.var_order@[i] as int],
            )
        &&& forall|row: Seq<Seq<u8>>| #[trigger]
            self.due(row) && self.agrees(i, row) && listed(
                vals,
                row[self.var_order@[i] as int],
            ) ==> row_found(rows, from, row)
    }

    /// The rows of one more value come after those of the smaller values.
    proof fn lemma_group(
        &self,
        i: int,
        from: int,
        before: Seq<Vec<Vec<u8>>>,
        after: Seq<Vec<Vec<u8>>>,
        vals: Seq<Vec<u8>>,
        k: int,
    )
        requires
            0 <= i < self.var_order@.len(),
            0 <= k < vals.len(),
            0 <= from <= before.len() <= after.len(),
            after.take(before.len() as int) == before,
            strictly_ascending(vals),
            rows_ascend(self.var_order@, before, from),
            rows_ascend(self.var_order@, after, before.len() as int),
            self.rows_exact(before, from, i, vals.take(k)),
            self.rows_exact(after, before.len() as int, i, seq![vals[k]]),
        ensures
            after.take(from) == before.take(from),
            rows_ascend(self.var_order@, after, from),
            self.rows_exact(after, from, i, vals.take(k + 1)),
    {
        let v = self.var_order@[i] as int;
        let mid = before.len() as int;
        assert(after.take(from) =~= before.take(from)) by {
            assert(after.take(mid).take(from) =~= after.take(from));
        }
        assert forall|n: int| 0 <= n < mid implies before[n] == #[trigger] after[n] by {
            assert(after.take(mid)[n] == after[n]);
        }
        assert forall|m: int, n: int|
            #![trigger after[m], after[n]]
            from <= m < n < after.len() implies row_before(
            self.var_order@,
            bytes_of(after[m]@),
            bytes_of(after[n]@),
        ) by {
            let a = bytes_of(after[m]@);
            let b = bytes_of(after[n]@);
            if n < mid {
                assert(before[m] == after[m] && before[n] == after[n]);
            } else if m >= mid {
            } else {
                assert(before[m] == after[m]);
                assert(row_found(before, from, a));
                assert(row_found(after, mid, b));
                let j = choose|j: int|
                    0 <= j < vals.take(k).len() && (#[trigger] vals.take(k)[j])@ == a[v];
                assert(vals[j]@ == a[v]);
                assert(lt(vals[j]@, vals[k]@));
                assert forall|e: int| 0 <= e < i implies a[(#[trigger] self.var_order@[e]) as int]
                    == b[self.var_order@[e] as int] by {}
                assert(row_before_at(self.var_order@, a, b, i));
            }
        }
        let one = seq![vals[k]];
        assert forall|row: Seq<Seq<u8>>| {
            &&& #[trigger] row_found(after, from, row) ==> self.answers(row) && self.agrees(i, row)
                && listed(vals.take(k + 1), row[v])
            &&& self.due(row) && self.agrees(i, row) && listed(
                vals.take(k + 1),
                row[v],
            ) ==> row_found(after, from, row)
        } by {
            if row_found(after, from, row) {
                let n = choose|n: int|
                    from <= n < after.len() && bytes_of((#[trigger] after[n])@) == row;
                if n < mid {
                    assert(before[n] == after[n]);
                    assert(row_found(before, from, row));
                    let j = choose|j: int|
                        0 <= j < vals.take(k).len() && (#[trigger] vals.take(k)[j])@ == row[v];
                    assert(vals.take(k + 1)[j]@ == row[v]);
                } else {
                    assert(row_found(after, mid, row));
                    assert(listed(one, row[v]));
                    assert(vals.take(k + 1)[k]@ == row[v]);
                }
            }
            if self.due(row) && self.agrees(i, row) && listed(
                vals.take(k + 1),
                row[v],
            ) {
                let j = choose|j: int|
                    0 <= j < vals.take(k + 1).len() && (#[trigger] vals.take(k + 1)[j])@ == row[v];
                if j < k {
                    assert(vals.take(k)[j]@ == row[v]);
                    assert(row_found(before, from, row));
                    let n = choose|n: int|
                        from <= n < before.len() && bytes_of((#[trigger] before[n])@) == row;
                    assert(before[n] == after[n]);
                } else {
                    assert(one[0]@ == row[v]);
                    assert(listed(one, row[v]));
                    assert(row_found(after, mid, row));
                }
            }
        }
    }
}

/// Where every fact is whole, a walk comes to every fact.
pub proof fn lemma_fit_walked(paths: Set<Seq<u8>>, factors: Seq<Factor>, row: Seq<Seq<u8>>)
    requires
        factors_fit(paths, factors),
        forall|f: int|
            0 <= f < factors.len() ==> columns_at(
                paths,
                (#[trigger] factors[f]).prefix@,
                picked(factors[f].cols@, row),
            ),
    ensures
        row_walked(paths, factors, row),
{
    assert forall|f: int| 0 <= f < factors.len() implies walked(
        paths,
        (#[trigger] factors[f]).prefix@,
        picked(factors[f].cols@, row),
    ) by {
        lemma_whole_walked(paths, factors[f].prefix@, picked(factors[f].cols@, row));
    }
}

/// Ground worst-case-optimal join: every factor's columns are subterms of the trie, found by seeking
/// on the trie itself, and a variable has the same subterm wherever it occurs. `var_order` lists the
/// variables in binding order. It should be compatible with every factor's column order; where some
/// position of the order has no factor to lead it, there are no rows.
///
/// The result has one row per answer: `row[v]` holds the bytes bound to variable `v`. The rows are
/// in ascending order of the variables in `var_order`. Where the trie breaks off within a factor's
/// column, answers beyond that dead end may be missing; an answer whose columns all lie before the
/// first dead end is not.
pub fn ground_join<T: PathTrie>(
    map: &T,
    factors: &[Factor],
    var_order: &[usize],
    nvars: usize,
) -> (rows: Vec<Vec<Vec<u8>>>)
    requires
        lists_vars(factors@, var_order@, nvars as nat),
    ensures
        rows_ascend(var_order@, rows@, 0),
        forall|row: Seq<Seq<u8>>| #[trigger]
            row_found(rows@, 0, row) ==> can_follow(factors@, var_order@) && is_answer(
                map.paths(),
                factors@,
                var_order@,
                nvars as nat,
                row,
            ),
        can_follow(factors@, var_order@) ==> forall|row: Seq<Seq<u8>>|
            is_answer(map.paths(), factors@, var_order@, nvars as nat, row) && row_walked(
                map.paths(),
                factors@,
                row,
            ) ==> #[trigger] row_found(rows@, 0, row),
        factors_fit(map.paths(), factors@) && can_follow(factors@, var_order@) ==> forall|
            row: Seq<Seq<u8>>,
        |
            is_answer(map.paths(), factors@, var_order@, nvars as nat, row)
                ==> #[trigger] row_found(rows@, 0, row),
{
    if !facts_present(map, factors) {
        proof {
            let f = choose|f: int|
                0 <= f < factors@.len() && (#[trigger] factors@[f]).cols@.len() == 0
                    && !map.paths().contains(factors@[f].prefix@);
            assert forall|row: Seq<Seq<u8>>| !is_answer(
                map.paths(),
                factors@,
                var_order@,
                nvars as nat,
                row,
            ) by {
                assert(joined(picked(factors@[f].cols@, row)) =~= Seq::<u8>::empty());
                assert(factors@[f].prefix@ + Seq::<u8>::empty() =~= factors@[f].prefix@);
            }
        }
        return Vec::new();
    }
    let mut state = GroundJoin {
        map,
        factors,
        var_order,
        bound: empty_strings(factors.len()),
        next_col: zeros(factors.len()),
        binding: empty_strings(nvars),
        out: Vec::new(),
    };
    proof {
        assert forall|f: int| 0 <= f < factors@.len() implies #[trigger] state.factor_ok(f) by {
            assert(state.taken(f) =~= Seq::empty());
            assert(state.bound@[f]@ =~= joined(state.taken(f)));
        }
        assert(state.inv(0));
    }
    let ghost start = state;
    state.recurse(0);
    proof {
        assert forall|row: Seq<Seq<u8>>| {
            &&& #[trigger] row_found(state.out@, 0, row) ==> start.answers(row)
            &&& start.due(row) ==> row_found(state.out@, 0, row)
            &&& factors_fit(map.paths(), factors@) && start.answers(row) ==> start.due(row)
        } by {
            assert(start.agrees(0, row));
            if factors_fit(map.paths(), factors@) && start.answers(row) {
                lemma_fit_walked(map.paths(), factors@, row);
            }
            assert(start.answers(row) == (can_follow(factors@, var_order@) && is_answer(
                map.paths(),
                factors@,
                var_order@,
                nvars as nat,
                row,
            )));
        }
    }
    state.out
}

} // verus!
