//! The equations of the columns taken so far, with the stored variables of each fact renamed apart.

use vstd::prelude::*;
use crate::env::Assignment;
use crate::fact::{holds_of, is_wild, names, new_vars, slot, solves, well_scoped, Relation};

verus! {

/// Column `j` under assignment `s`, where variable `t` of the fact is variable `ids[t]`.
pub open spec fn equation(
    vars: Seq<usize>,
    cols: Seq<Seq<u8>>,
    ids: Seq<usize>,
    s: Assignment,
    j: int,
) -> bool {
    s(vars[j] as int) == if is_wild(cols[j]) {
        s(ids[slot(cols, j)] as int)
    } else {
        cols[j]
    }
}

/// Every column under assignment `s`.
pub open spec fn equations(
    vars: Seq<usize>,
    cols: Seq<Seq<u8>>,
    ids: Seq<usize>,
    s: Assignment,
) -> bool {
    forall|j: int| 0 <= j < cols.len() ==> #[trigger] equation(vars, cols, ids, s, j)
}

/// Every column of every factor under assignment `s`.
pub open spec fn system(
    rels: Seq<Relation>,
    taken: Seq<Seq<Seq<u8>>>,
    ids: Seq<Seq<usize>>,
    s: Assignment,
) -> bool {
    forall|f: int| 0 <= f < rels.len() ==> equations(rels[f].vars, #[trigger] taken[f], ids[f], s)
}

/// Each fact's variables have one id each, past the query variables and all different.
pub open spec fn renamed_apart(
    rels: Seq<Relation>,
    taken: Seq<Seq<Seq<u8>>>,
    ids: Seq<Seq<usize>>,
    nvars: nat,
) -> bool {
    &&& taken.len() == rels.len()
    &&& ids.len() == rels.len()
    &&& forall|f: int|
        0 <= f < rels.len() ==> {
            &&& (#[trigger] taken[f]).len() <= rels[f].vars.len()
            &&& well_scoped(taken[f])
            &&& ids[f].len() == new_vars(taken[f], taken[f].len() as int)
        }
    &&& forall|f: int, t: int|
        0 <= f < rels.len() && 0 <= t < ids[f].len() ==> nvars <= #[trigger] ids[f][t]
    &&& forall|f: int, t: int, g: int, u: int|
        #![trigger ids[f][t], ids[g][u]]
        0 <= f < rels.len() && 0 <= t < ids[f].len() && 0 <= g < rels.len() && 0 <= u
            < ids[g].len() && ids[f][t] == ids[g][u] ==> f == g && t == u
}

/// The columns name query variables.
pub open spec fn names_queries(rels: Seq<Relation>, nvars: nat) -> bool {
    forall|f: int, j: int|
        0 <= f < rels.len() && 0 <= j < rels[f].vars.len() ==> #[trigger] rels[f].vars[j] < nvars
}

pub proof fn lemma_new_vars_mono(cols: Seq<Seq<u8>>, i: int, j: int)
    requires
        0 <= i <= j,
    ensures
        new_vars(cols, i) <= new_vars(cols, j),
    decreases j,
{
    if i < j {
        lemma_new_vars_mono(cols, i, j - 1);
    }
}

/// A column's variable is among those introduced so far.
pub proof fn lemma_slot_bound(cols: Seq<Seq<u8>>, j: int)
    requires
        well_scoped(cols),
        0 <= j < cols.len(),
        is_wild(cols[j]),
    ensures
        0 <= slot(cols, j) < new_vars(cols, cols.len() as int),
{
    lemma_new_vars_mono(cols, j + 1, cols.len() as int);
    lemma_new_vars_mono(cols, j, cols.len() as int);
}

/// What satisfies the equations satisfies the facts.
pub proof fn lemma_system_solves(
    rels: Seq<Relation>,
    taken: Seq<Seq<Seq<u8>>>,
    ids: Seq<Seq<usize>>,
    s: Assignment,
)
    requires
        system(rels, taken, ids, s),
    ensures
        solves(rels, taken, s),
{
    assert forall|f: int| 0 <= f < rels.len() implies holds_of(
        rels[f].vars,
        #[trigger] taken[f],
        s,
    ) by {
        let vars = rels[f].vars;
        let cols = taken[f];
        assert(equations(vars, cols, ids[f], s));
        assert forall|j: int| 0 <= j < cols.len() && !is_wild(#[trigger] cols[j]) implies s(
            vars[j] as int,
        ) == cols[j] by {
            assert(equation(vars, cols, ids[f], s, j));
        }
        assert forall|j: int, k: int, t: int|
            0 <= j < cols.len() && 0 <= k < cols.len() && #[trigger] names(cols, j, t)
                && #[trigger] names(cols, k, t) implies s(vars[j] as int) == s(vars[k] as int) by {
            assert(equation(vars, cols, ids[f], s, j));
            assert(equation(vars, cols, ids[f], s, k));
        }
    }
}

/// Variable `id` is variable `at.1` of the fact of factor `at.0`.
spec fn stands_for(rels: Seq<Relation>, ids: Seq<Seq<usize>>, id: int, at: (int, int)) -> bool {
    0 <= at.0 < rels.len() && 0 <= at.1 < ids[at.0].len() && ids[at.0][at.1] == id
}

/// What `q` gives to the column that introduces variable `t` of the fact `cols`.
spec fn introduced_value(vars: Seq<usize>, cols: Seq<Seq<u8>>, t: int, q: Assignment) -> Seq<u8> {
    let j = choose|j: int| 0 <= j < cols.len() && #[trigger] names(cols, j, t);
    q(vars[j] as int)
}

/// `q` on the query variables, and on a stored variable what `q` gives to its column.
pub closed spec fn extended(
    rels: Seq<Relation>,
    taken: Seq<Seq<Seq<u8>>>,
    ids: Seq<Seq<usize>>,
    nvars: nat,
    q: Assignment,
) -> Assignment {
    |id: int|
        if id < nvars {
            q(id)
        } else {
            let at = choose|at: (int, int)| #[trigger] stands_for(rels, ids, id, at);
            introduced_value(rels[at.0].vars, taken[at.0], at.1, q)
        }
}

/// What satisfies the facts satisfies the equations, once the stored variables get the values of
/// their columns.
pub proof fn lemma_extended(
    rels: Seq<Relation>,
    taken: Seq<Seq<Seq<u8>>>,
    ids: Seq<Seq<usize>>,
    nvars: nat,
    q: Assignment,
)
    requires
        renamed_apart(rels, taken, ids, nvars),
        names_queries(rels, nvars),
        solves(rels, taken, q),
    ensures
        system(rels, taken, ids, extended(rels, taken, ids, nvars, q)),
        forall|v: int| v < nvars ==> #[trigger] extended(rels, taken, ids, nvars, q)(v) == q(v),
{
    let s = extended(rels, taken, ids, nvars, q);
    assert forall|f: int| 0 <= f < rels.len() implies equations(
        rels[f].vars,
        #[trigger] taken[f],
        ids[f],
        s,
    ) by {
        let vars = rels[f].vars;
        let cols = taken[f];
        assert(holds_of(vars, cols, q));
        assert forall|j: int| 0 <= j < cols.len() implies #[trigger] equation(
            vars,
            cols,
            ids[f],
            s,
            j,
        ) by {
            assert(rels[f].vars[j] < nvars);
            if is_wild(cols[j]) {
                let t = slot(cols, j);
                lemma_slot_bound(cols, j);
                let id = ids[f][t] as int;
                assert(id >= nvars);
                assert(stands_for(rels, ids, id, (f, t)));
                let at = choose|at: (int, int)| #[trigger] stands_for(rels, ids, id, at);
                assert(ids[at.0][at.1] == ids[f][t]);
                assert(at == (f, t));
                assert(names(cols, j, t));
                let k = choose|k: int| 0 <= k < cols.len() && #[trigger] names(cols, k, t);
                assert(q(vars[j] as int) == q(vars[k] as int));
            }
        }
    }
}

/// One more column: the earlier equations stay, and there is one more.
pub proof fn lemma_equations_push(
    vars: Seq<usize>,
    cols: Seq<Seq<u8>>,
    ids: Seq<usize>,
    k: Seq<u8>,
    more: Seq<usize>,
    s: Assignment,
)
    requires
        well_scoped(cols),
        ids.len() == new_vars(cols, cols.len() as int),
        more.len() >= ids.len(),
        more.take(ids.len() as int) == ids,
    ensures
        equations(vars, cols.push(k), more, s) == (equations(vars, cols, ids, s) && equation(
            vars,
            cols.push(k),
            more,
            s,
            cols.len() as int,
        )),
{
    let all = cols.push(k);
    assert forall|j: int| 0 <= j < cols.len() implies #[trigger] equation(vars, all, more, s, j)
        == equation(vars, cols, ids, s, j) by {
        assert(all[j] == cols[j]);
        lemma_new_vars_push(cols, k, j);
        if is_wild(cols[j]) {
            lemma_slot_bound(cols, j);
            assert(more.take(ids.len() as int)[slot(cols, j)] == more[slot(cols, j)]);
        }
    }
    if equations(vars, all, more, s) {
        assert forall|j: int| 0 <= j < cols.len() implies #[trigger] equation(
            vars,
            cols,
            ids,
            s,
            j,
        ) by {
            assert(equation(vars, all, more, s, j));
        }
        assert(equation(vars, all, more, s, cols.len() as int));
    }
}

/// The first columns are numbered alike, whatever follows.
pub proof fn lemma_new_vars_push(cols: Seq<Seq<u8>>, k: Seq<u8>, j: int)
    requires
        0 <= j <= cols.len(),
    ensures
        new_vars(cols.push(k), j) == new_vars(cols, j),
{
    assert(cols.push(k).take(cols.len() as int) =~= cols);
    crate::fact::lemma_new_vars_take(cols.push(k), cols.len() as int, j);
}

} // verus!
