//! What stored facts say of the query variables, and what a conjunction of facts answers.
//!
//! A column of a fact is a value to be equal to, or a stored variable. A stored variable stands for
//! anything, but for the same thing wherever the fact names it again.

use vstd::prelude::*;
use crate::cursor::{is_subterm, is_visible};
use crate::env::Assignment;
use crate::factor::{all_terms, columns_at, has_columns, joined, walked};
use crate::term::{is_ground, is_var_tag};
use crate::trie::{below, prefix_closed};

verus! {

/// The column is a stored variable: one byte, which introduces it or refers back to it.
pub open spec fn is_wild(k: Seq<u8>) -> bool {
    k.len() == 1 && is_var_tag(k[0])
}

/// The column introduces a stored variable.
pub open spec fn is_new(k: Seq<u8>) -> bool {
    k.len() == 1 && k[0] == 0xC0
}

/// How many of the first `j` columns introduce a stored variable.
pub open spec fn new_vars(cols: Seq<Seq<u8>>, j: int) -> nat
    decreases j,
{
    if j <= 0 {
        0
    } else if is_new(cols[j - 1]) {
        new_vars(cols, j - 1) + 1
    } else {
        new_vars(cols, j - 1)
    }
}

/// Which of the fact's variables column `j` is. Variables are numbered as they are introduced, and
/// a reference names the number.
pub open spec fn slot(cols: Seq<Seq<u8>>, j: int) -> int {
    if is_new(cols[j]) {
        new_vars(cols, j) as int
    } else {
        cols[j][0] - 0x80
    }
}

/// Column `j` names variable `s` of the fact.
pub open spec fn names(cols: Seq<Seq<u8>>, j: int, s: int) -> bool {
    is_wild(cols[j]) && slot(cols, j) == s
}

/// Every column is a stored variable or a ground value, and a column that refers back to a variable
/// comes after the column that introduces it. A variable inside a compound value would be numbered
/// too, so facts with one are left out.
pub open spec fn well_scoped(cols: Seq<Seq<u8>>) -> bool {
    &&& forall|j: int| 0 <= j < cols.len() ==> is_wild(#[trigger] cols[j]) || is_ground(cols[j])
    &&& forall|j: int|
        0 <= j < cols.len() && is_wild(#[trigger] cols[j]) && !is_new(cols[j]) ==> slot(cols, j)
            < new_vars(cols, j)
}

/// The fact `cols` holds of the values that `q` gives to `vars`: a column that is a value equals
/// it, and two columns that name the same stored variable are equal.
pub open spec fn holds_of(vars: Seq<usize>, cols: Seq<Seq<u8>>, q: Assignment) -> bool {
    &&& forall|j: int|
        0 <= j < cols.len() && !is_wild(#[trigger] cols[j]) ==> q(vars[j] as int) == cols[j]
    &&& forall|j: int, k: int, s: int|
        0 <= j < cols.len() && 0 <= k < cols.len() && #[trigger] names(cols, j, s)
            && #[trigger] names(cols, k, s) ==> q(vars[j] as int) == q(vars[k] as int)
}

/// The facts of one factor: those with `vars.len()` columns after `prefix`.
pub ghost struct Relation {
    pub paths: Set<Seq<u8>>,
    pub prefix: Seq<u8>,
    pub vars: Seq<usize>,
}

/// In every fact a column is a ground value or a stored variable, and refers back only to a variable
/// that an earlier column introduced.
pub open spec fn is_scoped(r: Relation) -> bool {
    forall|cols: Seq<Seq<u8>>|
        cols.len() <= r.vars.len() && #[trigger] columns_at(r.paths, r.prefix, cols) ==> well_scoped(
            cols,
        )
}

/// Every fact is whole: below the prefix every path goes on until all columns are complete.
pub open spec fn is_whole(r: Relation) -> bool {
    prefix_closed(r.paths) && has_columns(r.paths, r.prefix, r.vars.len())
}

/// One fact for each relation.
pub open spec fn is_choice(rels: Seq<Relation>, choice: Seq<Seq<Seq<u8>>>) -> bool {
    &&& choice.len() == rels.len()
    &&& forall|f: int|
        0 <= f < rels.len() ==> (#[trigger] choice[f]).len() == rels[f].vars.len() && columns_at(
            rels[f].paths,
            rels[f].prefix,
            choice[f],
        )
}

/// `q` satisfies every chosen fact.
pub open spec fn solves(rels: Seq<Relation>, choice: Seq<Seq<Seq<u8>>>, q: Assignment) -> bool {
    forall|f: int| 0 <= f < rels.len() ==> holds_of(rels[f].vars, #[trigger] choice[f], q)
}

/// Every assignment that satisfies the chosen facts gives variable `v` the value `g`.
pub open spec fn forces(
    rels: Seq<Relation>,
    choice: Seq<Seq<Seq<u8>>>,
    v: int,
    g: Seq<u8>,
) -> bool {
    forall|q: Assignment| #[trigger] solves(rels, choice, q) ==> q(v) == g
}

/// `val` is the value that the chosen facts force on variable `v`, or `None` if they force none.
pub open spec fn settles(
    rels: Seq<Relation>,
    choice: Seq<Seq<Seq<u8>>>,
    v: int,
    val: Option<Seq<u8>>,
) -> bool {
    match val {
        Some(g) => forces(rels, choice, v, g),
        None => forall|g: Seq<u8>| !forces(rels, choice, v, g),
    }
}

/// The chosen facts can be satisfied together, and `row` holds the value of each variable that they
/// force, and `None` for one that stays free.
pub open spec fn gives(
    rels: Seq<Relation>,
    choice: Seq<Seq<Seq<u8>>>,
    nvars: nat,
    row: Seq<Option<Seq<u8>>>,
) -> bool {
    &&& exists|q: Assignment| #[trigger] solves(rels, choice, q)
    &&& row.len() == nvars
    &&& forall|v: int|
        0 <= v < nvars ==> settles(rels, choice, v, #[trigger] row[v])
}

/// `row` answers the conjunction of the relations: some choice of one fact each gives it.
pub open spec fn is_unifier_row(
    rels: Seq<Relation>,
    nvars: nat,
    row: Seq<Option<Seq<u8>>>,
) -> bool {
    exists|choice: Seq<Seq<Seq<u8>>>| #[trigger]
        is_choice(rels, choice) && gives(rels, choice, nvars, row)
}

/// The choice goes on from the columns `taken` so far.
pub open spec fn goes_on(taken: Seq<Seq<Seq<u8>>>, choice: Seq<Seq<Seq<u8>>>) -> bool {
    &&& choice.len() == taken.len()
    &&& forall|f: int|
        0 <= f < taken.len() ==> (#[trigger] taken[f]).len() <= choice[f].len() && choice[f].take(
            taken[f].len() as int,
        ) == taken[f]
}

/// `row` comes of a choice that goes on from the columns `taken` so far.
pub open spec fn reaches(
    rels: Seq<Relation>,
    taken: Seq<Seq<Seq<u8>>>,
    nvars: nat,
    row: Seq<Option<Seq<u8>>>,
) -> bool {
    exists|choice: Seq<Seq<Seq<u8>>>| #[trigger]
        is_choice(rels, choice) && goes_on(taken, choice) && gives(rels, choice, nvars, row)
}

/// A walk comes to every column of every chosen fact.
pub open spec fn choice_walked(rels: Seq<Relation>, choice: Seq<Seq<Seq<u8>>>) -> bool {
    forall|f: int|
        0 <= f < rels.len() ==> walked(rels[f].paths, rels[f].prefix, #[trigger] choice[f])
}

/// `row` comes of a choice that goes on from the columns `taken` so far, and that a walk comes to.
pub open spec fn reaches_walked(
    rels: Seq<Relation>,
    taken: Seq<Seq<Seq<u8>>>,
    nvars: nat,
    row: Seq<Option<Seq<u8>>>,
) -> bool {
    exists|choice: Seq<Seq<Seq<u8>>>| #[trigger]
        is_choice(rels, choice) && goes_on(taken, choice) && gives(rels, choice, nvars, row)
            && choice_walked(rels, choice)
}

pub proof fn lemma_new_vars_take(cols: Seq<Seq<u8>>, m: int, j: int)
    requires
        0 <= j <= m <= cols.len(),
    ensures
        new_vars(cols.take(m), j) == new_vars(cols, j),
    decreases j,
{
    if j > 0 {
        lemma_new_vars_take(cols, m, j - 1);
        assert(cols.take(m)[j - 1] == cols[j - 1]);
    }
}

/// A fact that holds, holds column by column: whatever satisfies it satisfies its first columns.
pub proof fn lemma_holds_of_take(vars: Seq<usize>, cols: Seq<Seq<u8>>, m: int, q: Assignment)
    requires
        0 <= m <= cols.len(),
        holds_of(vars, cols, q),
    ensures
        holds_of(vars, cols.take(m), q),
{
    let front = cols.take(m);
    assert forall|j: int| 0 <= j < m && !is_wild(#[trigger] front[j]) implies q(vars[j] as int)
        == front[j] by {
        assert(front[j] == cols[j]);
    }
    assert forall|j: int, k: int, s: int|
        0 <= j < front.len() && 0 <= k < front.len() && #[trigger] names(front, j, s)
            && #[trigger] names(front, k, s) implies q(vars[j] as int) == q(vars[k] as int) by {
        lemma_new_vars_take(cols, m, j);
        lemma_new_vars_take(cols, m, k);
        assert(front[j] == cols[j] && front[k] == cols[k]);
        assert(names(cols, j, s) && names(cols, k, s));
    }
}

/// Whatever satisfies a choice satisfies the columns that it goes on from: a conflict among the
/// columns taken so far rules out every choice that goes on from them.
pub proof fn lemma_solves_taken(
    rels: Seq<Relation>,
    taken: Seq<Seq<Seq<u8>>>,
    choice: Seq<Seq<Seq<u8>>>,
    q: Assignment,
)
    requires
        taken.len() == rels.len(),
        goes_on(taken, choice),
        solves(rels, choice, q),
    ensures
        solves(rels, taken, q),
{
    assert forall|f: int| 0 <= f < rels.len() implies holds_of(
        rels[f].vars,
        #[trigger] taken[f],
        q,
    ) by {
        assert(holds_of(rels[f].vars, choice[f], q));
        lemma_holds_of_take(rels[f].vars, choice[f], taken[f].len() as int, q);
    }
}

/// A choice gives at most one row.
pub proof fn lemma_gives_unique(
    rels: Seq<Relation>,
    choice: Seq<Seq<Seq<u8>>>,
    nvars: nat,
    a: Seq<Option<Seq<u8>>>,
    b: Seq<Option<Seq<u8>>>,
)
    requires
        gives(rels, choice, nvars, a),
        gives(rels, choice, nvars, b),
    ensures
        a == b,
{
    let q = choose|q: Assignment| #[trigger] solves(rels, choice, q);
    assert(a =~= b) by {
        assert forall|v: int| 0 <= v < nvars implies a[v] == b[v] by {
            match (a[v], b[v]) {
                (Some(x), Some(y)) => {
                    assert(q(v) == x && q(v) == y);
                },
                (Some(x), None) => {
                    assert(!forces(rels, choice, v, x));
                },
                (None, Some(y)) => {
                    assert(!forces(rels, choice, v, y));
                },
                (None, None) => {},
            }
        }
    }
}

/// A choice that goes on from `taken` goes on by one more column of factor `f`.
pub proof fn lemma_reaches_split(
    rels: Seq<Relation>,
    taken: Seq<Seq<Seq<u8>>>,
    f: int,
    nvars: nat,
    row: Seq<Option<Seq<u8>>>,
)
    requires
        taken.len() == rels.len(),
        0 <= f < rels.len(),
        taken[f].len() < rels[f].vars.len(),
        all_terms(taken[f]),
    ensures
        reaches_walked(rels, taken, nvars, row) ==> exists|k: Seq<u8>|
            is_visible(below(rels[f].paths, rels[f].prefix + joined(taken[f])), k)
                && reaches_walked(
                rels,
                #[trigger] taken.update(f, taken[f].push(k)),
                nvars,
                row,
            ),
        (exists|k: Seq<u8>|
            is_subterm(below(rels[f].paths, rels[f].prefix + joined(taken[f])), k) && reaches(
                rels,
                #[trigger] taken.update(f, taken[f].push(k)),
                nvars,
                row,
            )) ==> reaches(rels, taken, nvars, row),
{
    let n = taken[f].len() as int;
    let branch = below(rels[f].paths, rels[f].prefix + joined(taken[f]));
    if reaches_walked(rels, taken, nvars, row) {
        let choice = choose|choice: Seq<Seq<Seq<u8>>>| #[trigger]
            is_choice(rels, choice) && goes_on(taken, choice) && gives(rels, choice, nvars, row)
                && choice_walked(rels, choice);
        let k = choice[f][n];
        let more = taken.update(f, taken[f].push(k));
        assert(choice[f].len() == rels[f].vars.len());
        assert(choice[f].take(n) == taken[f]);
        assert(choice[f].take(n + 1) =~= taken[f].push(k));
        assert(walked(rels[f].paths, rels[f].prefix, choice[f]));
        assert(is_visible(branch, k));
        assert forall|g: int| 0 <= g < more.len() implies (#[trigger] more[g]).len()
            <= choice[g].len() && choice[g].take(more[g].len() as int) == more[g] by {
            if g != f {
                assert(more[g] == taken[g]);
            }
        }
        assert(reaches_walked(rels, more, nvars, row));
    }
    if exists|k: Seq<u8>|
        is_subterm(branch, k) && reaches(
            rels,
            #[trigger] taken.update(f, taken[f].push(k)),
            nvars,
            row,
        ) {
        let k = choose|k: Seq<u8>|
            is_subterm(branch, k) && reaches(
                rels,
                #[trigger] taken.update(f, taken[f].push(k)),
                nvars,
                row,
            );
        let more = taken.update(f, taken[f].push(k));
        let choice = choose|choice: Seq<Seq<Seq<u8>>>| #[trigger]
            is_choice(rels, choice) && goes_on(more, choice) && gives(rels, choice, nvars, row);
        assert forall|g: int| 0 <= g < taken.len() implies (#[trigger] taken[g]).len()
            <= choice[g].len() && choice[g].take(taken[g].len() as int) == taken[g] by {
            if g != f {
                assert(more[g] == taken[g]);
            } else {
                assert(more[f] == taken[f].push(k));
                assert(choice[f].take(n) =~= choice[f].take(n + 1).take(n));
                assert(taken[f].push(k).take(n) =~= taken[f]);
            }
        }
        assert(reaches(rels, taken, nvars, row));
    }
}

} // verus!
