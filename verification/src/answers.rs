//! The answers of the joins in plain terms: which rows come out of which stored facts, stated over
//! the bytes of the facts and the variables of the columns.

use vstd::prelude::*;
use crate::cursor::is_visible;
use crate::env::Assignment;
use crate::fact::{
    forces, gives, holds_of, is_choice, is_new, is_unifier_row, is_wild, names, new_vars, slot,
    solves, well_scoped, Relation,
};
use crate::factor::{columns_at, has_columns, joined, walked, Factor};
use crate::ground::{
    bytes_of, can_follow, facts_present, factors_fit, ground_join, is_answer, is_led, is_query,
    leads, lists_vars, ordered_before, picked, row_before, row_before_at, row_found, row_walked,
};
use crate::laws::{lemma_facts_readable, lemma_facts_stored, lemma_facts_whole};
use crate::meaning::{lemma_joined_flat, lemma_prefix_plain};
use crate::order::{is_prefix, lt};
use crate::path_set::{lemma_prefixes_closed, prefixes, PathSet};
use crate::prepare::{
    all_joinable, all_read, all_read_whole, in_order, is_joinable, is_read, is_read_row,
    is_read_whole, query_relations, relation_of,
};
use crate::reindex::{is_simple, starts_with, values_simple};
use crate::rows::{ascending, has_row, part_lt, row_lt, row_lt_at, row_of};
use crate::term::{is_ground, is_term};
use crate::trie::{below, PathTrie};
use crate::unify::{
    all_ground, ground_ascending, keeps_ground, unify_join_zipper, unify_join_zipper_partial,
};
use crate::walking::{comes_to, lemma_comes_to};

verus! {

/// How many of the strings introduce a variable.
pub open spec fn introductions(cols: Seq<Seq<u8>>) -> nat {
    cols.filter(|c: Seq<u8>| c == seq![0xC0u8]).len()
}

/// The paths are the prefixes of the values, and nothing else.
#[verifier::opaque]
pub open spec fn paths_of_values(paths: Set<Seq<u8>>, values: Set<Seq<u8>>) -> bool {
    forall|p: Seq<u8>| #[trigger]
        paths.contains(p) <==> exists|v: Seq<u8>| #[trigger]
            values.contains(v) && p.is_prefix_of(v)
}

/// The string `v` starts with `prefix` and then `n` complete terms, `cols`.
pub open spec fn spells_columns(prefix: Seq<u8>, n: nat, v: Seq<u8>, cols: Seq<Seq<u8>>) -> bool {
    &&& cols.len() == n
    &&& forall|j: int| 0 <= j < n ==> is_term(#[trigger] cols[j])
    &&& (prefix + cols.flatten()).is_prefix_of(v)
}

/// Each column is a value without variables, or the byte `0xC0`, which introduces the fact's next
/// variable, or a byte `0x80 + i` for a variable `i` that an earlier column introduced.
pub open spec fn is_plain_fact(cols: Seq<Seq<u8>>) -> bool {
    &&& forall|j: int|
        0 <= j < cols.len() ==> {
            ||| is_ground(#[trigger] cols[j])
            ||| cols[j] == seq![0xC0u8]
            ||| cols[j].len() == 1 && 0x80 <= cols[j][0] < 0x80 + introductions(cols.take(j))
                && cols[j][0] < 0xC0
        }
    &&& introductions(cols) <= 64
}

/// Every value below `prefix` is a whole fact of `n` columns.
#[verifier::opaque]
pub open spec fn holds_facts(values: Set<Seq<u8>>, prefix: Seq<u8>, n: nat) -> bool {
    forall|v: Seq<u8>| #[trigger]
        values.contains(v) && prefix.is_prefix_of(v) ==> exists|cols: Seq<Seq<u8>>| #[trigger]
            spells_columns(prefix, n, v, cols) && is_plain_fact(cols)
}

/// What column `j` of a fact is when the fact's variables stand for `stored`.
pub open spec fn filled(cols: Seq<Seq<u8>>, stored: Assignment, j: int) -> Seq<u8> {
    if cols[j] == seq![0xC0u8] {
        stored(introductions(cols.take(j)) as int)
    } else if cols[j].len() == 1 && 0x80 <= cols[j][0] < 0xC0 {
        stored(cols[j][0] - 0x80)
    } else {
        cols[j]
    }
}

/// With its variables standing for `stored`, the fact has in each column what `q` gives to the
/// column's variable.
pub open spec fn matches_as(
    vars: Seq<usize>,
    cols: Seq<Seq<u8>>,
    q: Assignment,
    stored: Assignment,
) -> bool {
    forall|j: int| 0 <= j < vars.len() ==> q(#[trigger] vars[j] as int) == filled(cols, stored, j)
}

/// For some values of its variables the fact has in each column what `q` gives to the column's
/// variable.
pub open spec fn has_match(vars: Seq<usize>, cols: Seq<Seq<u8>>, q: Assignment) -> bool {
    exists|stored: Assignment| matches_as(vars, cols, q, stored)
}

/// One fact for each factor, as the trie holds them.
pub open spec fn are_facts(
    paths: Set<Seq<u8>>,
    factors: Seq<Factor>,
    facts: Seq<Seq<Seq<u8>>>,
) -> bool {
    &&& facts.len() == factors.len()
    &&& forall|f: int|
        0 <= f < factors.len() ==> {
            &&& (#[trigger] facts[f]).len() == factors[f].cols@.len()
            &&& forall|j: int| 0 <= j < facts[f].len() ==> is_term(#[trigger] facts[f][j])
            &&& paths.contains(factors[f].prefix@ + facts[f].flatten())
        }
}

/// `q` gives the query variables values that every fact matches.
pub open spec fn all_match(factors: Seq<Factor>, facts: Seq<Seq<Seq<u8>>>, q: Assignment) -> bool {
    forall|f: int| 0 <= f < factors.len() ==> has_match(factors[f].cols@, #[trigger] facts[f], q)
}

/// The row that the facts give: they match together, and the row has the value of each variable that
/// takes only one, and `None` for a variable that takes more.
pub open spec fn give_row(
    factors: Seq<Factor>,
    facts: Seq<Seq<Seq<u8>>>,
    nvars: nat,
    row: Seq<Option<Seq<u8>>>,
) -> bool {
    &&& exists|q: Assignment| #[trigger] all_match(factors, facts, q)
    &&& row.len() == nvars
    &&& forall|v: int|
        0 <= v < nvars ==> match #[trigger] row[v] {
            Some(g) => forall|q: Assignment| #[trigger] all_match(factors, facts, q) ==> q(v) == g,
            None => exists|q: Assignment, p: Assignment| #[trigger]
                all_match(factors, facts, q) && #[trigger] all_match(factors, facts, p) && q(v)
                    != p(v),
        }
}

/// Some row of the list is `row`.
pub open spec fn lists_row(
    rows: Seq<Vec<Option<Vec<u8>>>>,
    row: Seq<Option<Seq<u8>>>,
) -> bool {
    exists|i: int|
        0 <= i < rows.len() && (#[trigger] rows[i])@.len() == row.len() && forall|v: int|
            0 <= v < row.len() ==> match #[trigger] rows[i]@[v] {
                Some(g) => row[v] == Some(g@),
                None => row[v] is None,
            }
}

/// Some row of the list is `row`.
pub open spec fn lists_values(rows: Seq<Vec<Vec<u8>>>, row: Seq<Seq<u8>>) -> bool {
    exists|i: int|
        0 <= i < rows.len() && (#[trigger] rows[i])@.len() == row.len() && forall|v: int|
            0 <= v < row.len() ==> (#[trigger] rows[i]@[v])@ == row[v]
}

/// The order lists variables below `nvars`, each once, and every variable of a factor's columns.
pub open spec fn orders_all(factors: Seq<Factor>, var_order: Seq<usize>, nvars: nat) -> bool {
    &&& var_order.no_duplicates()
    &&& forall|v: usize| #[trigger] var_order.contains(v) ==> v < nvars
    &&& forall|f: int, c: int|
        0 <= f < factors.len() && 0 <= c < factors[f].cols@.len() ==> var_order.contains(
            #[trigger] factors[f].cols@[c],
        )
}

pub proof fn lemma_introductions(cols: Seq<Seq<u8>>, j: int)
    requires
        0 <= j <= cols.len(),
    ensures
        introductions(cols.take(j)) == new_vars(cols, j),
    decreases j,
{
    reveal(Seq::filter);
    if j > 0 {
        lemma_introductions(cols, j - 1);
        let front = cols.take(j);
        assert(front.drop_last() =~= cols.take(j - 1));
        assert(front.last() == cols[j - 1]);
        assert(is_new(cols[j - 1]) == (cols[j - 1] == seq![0xC0u8])) by {
            if is_new(cols[j - 1]) {
                assert(cols[j - 1] =~= seq![0xC0u8]);
            }
        }
    }
}

pub proof fn lemma_plain_scoped(cols: Seq<Seq<u8>>)
    requires
        is_plain_fact(cols),
    ensures
        well_scoped(cols),
        new_vars(cols, cols.len() as int) <= 64,
{
    assert(cols.take(cols.len() as int) =~= cols);
    lemma_introductions(cols, cols.len() as int);
    assert forall|j: int| 0 <= j < cols.len() implies {
        &&& is_wild(#[trigger] cols[j]) || is_ground(cols[j])
        &&& is_wild(cols[j]) && !is_new(cols[j]) ==> slot(cols, j) < new_vars(cols, j)
    } by {
        lemma_introductions(cols, j);
        if is_wild(cols[j]) {
            assert(cols[j] =~= seq![cols[j][0]]);
            crate::term::lemma_var_is_term(cols[j][0]);
        }
    }
}

proof fn lemma_match(vars: Seq<usize>, cols: Seq<Seq<u8>>, q: Assignment)
    requires
        vars.len() == cols.len(),
    ensures
        has_match(vars, cols, q) == holds_of(vars, cols, q),
{
    assert forall|j: int| 0 <= j < cols.len() implies (#[trigger] is_wild(cols[j]) == (cols[j]
        == seq![0xC0u8] || cols[j].len() == 1 && 0x80 <= cols[j][0] < 0xC0)) && is_new(cols[j])
        == (cols[j] == seq![0xC0u8]) && introductions(cols.take(j)) == new_vars(cols, j) by {
        lemma_introductions(cols, j);
        if is_new(cols[j]) {
            assert(cols[j] =~= seq![0xC0u8]);
        }
    }
    if holds_of(vars, cols, q) {
        let stored: Assignment = |s: int|
            {
                let j = choose|j: int| 0 <= j < cols.len() && names(cols, j, s);
                q(vars[j] as int)
            };
        assert forall|j: int| 0 <= j < vars.len() implies q(#[trigger] vars[j] as int) == filled(
            cols,
            stored,
            j,
        ) by {
            if is_wild(cols[j]) {
                let s = slot(cols, j);
                assert(names(cols, j, s));
                let k = choose|k: int| 0 <= k < cols.len() && names(cols, k, s);
                assert(names(cols, k, s));
                assert(stored(s) == q(vars[k] as int));
            }
        }
        assert(matches_as(vars, cols, q, stored));
    }
    if has_match(vars, cols, q) {
        let stored = choose|stored: Assignment| matches_as(vars, cols, q, stored);
        assert forall|j: int| 0 <= j < cols.len() && !is_wild(#[trigger] cols[j]) implies q(
            vars[j] as int,
        ) == cols[j] by {
            assert(q(vars[j] as int) == filled(cols, stored, j));
        }
        assert forall|j: int, k: int, s: int|
            0 <= j < cols.len() && 0 <= k < cols.len() && #[trigger] names(cols, j, s)
                && #[trigger] names(cols, k, s) implies q(vars[j] as int) == q(vars[k] as int) by {
            assert(is_wild(cols[j]) && is_wild(cols[k]));
            assert(q(vars[j] as int) == filled(cols, stored, j));
            assert(q(vars[k] as int) == filled(cols, stored, k));
        }
    }
}

proof fn lemma_facts_choice(paths: Set<Seq<u8>>, factors: Seq<Factor>, facts: Seq<Seq<Seq<u8>>>)
    ensures
        are_facts(paths, factors, facts) == is_choice(query_relations(paths, factors), facts),
{
    let rels = query_relations(paths, factors);
    assert(rels.len() == factors.len());
    assert forall|f: int| 0 <= f < factors.len() implies #[trigger] rels[f] == relation_of(
        paths,
        factors[f],
    ) && joined(facts[f]) == facts[f].flatten() by {
        lemma_joined_flat(facts[f]);
    }
    if are_facts(paths, factors, facts) {
        assert forall|f: int| 0 <= f < rels.len() implies (#[trigger] facts[f]).len()
            == rels[f].vars.len() && columns_at(rels[f].paths, rels[f].prefix, facts[f]) by {}
    }
    if is_choice(rels, facts) {
        assert forall|f: int| 0 <= f < factors.len() implies {
            &&& (#[trigger] facts[f]).len() == factors[f].cols@.len()
            &&& forall|j: int| 0 <= j < facts[f].len() ==> is_term(#[trigger] facts[f][j])
            &&& paths.contains(factors[f].prefix@ + facts[f].flatten())
        } by {
            assert(columns_at(rels[f].paths, rels[f].prefix, facts[f]));
        }
    }
}

proof fn lemma_all_match(
    paths: Set<Seq<u8>>,
    factors: Seq<Factor>,
    facts: Seq<Seq<Seq<u8>>>,
    q: Assignment,
)
    requires
        are_facts(paths, factors, facts),
    ensures
        all_match(factors, facts, q) == solves(query_relations(paths, factors), facts, q),
{
    let rels = query_relations(paths, factors);
    assert forall|f: int| 0 <= f < factors.len() implies has_match(
        factors[f].cols@,
        #[trigger] facts[f],
        q,
    ) == holds_of(rels[f].vars, facts[f], q) by {
        lemma_match(factors[f].cols@, facts[f], q);
    }
    if all_match(factors, facts, q) {
        assert forall|f: int| 0 <= f < rels.len() implies holds_of(
            rels[f].vars,
            #[trigger] facts[f],
            q,
        ) by {
            assert(has_match(factors[f].cols@, facts[f], q));
        }
    }
}

proof fn lemma_give_row(
    paths: Set<Seq<u8>>,
    factors: Seq<Factor>,
    facts: Seq<Seq<Seq<u8>>>,
    nvars: nat,
    row: Seq<Option<Seq<u8>>>,
)
    requires
        are_facts(paths, factors, facts),
    ensures
        give_row(factors, facts, nvars, row) == gives(
            query_relations(paths, factors),
            facts,
            nvars,
            row,
        ),
{
    let rels = query_relations(paths, factors);
    assert forall|q: Assignment| #[trigger] all_match(factors, facts, q) == solves(rels, facts, q) by {
        lemma_all_match(paths, factors, facts, q);
    }
    assert forall|q: Assignment| #[trigger] solves(rels, facts, q) == all_match(factors, facts, q) by {
        lemma_all_match(paths, factors, facts, q);
    }
    if exists|q: Assignment| #[trigger] all_match(factors, facts, q) {
        let q0 = choose|q: Assignment| #[trigger] all_match(factors, facts, q);
        assert(solves(rels, facts, q0));
        assert forall|v: int| 0 <= v < nvars && row.len() == nvars implies crate::fact::settles(
            rels,
            facts,
            v,
            #[trigger] row[v],
        ) == (match row[v] {
            Some(g) => forall|q: Assignment| #[trigger] all_match(factors, facts, q) ==> q(v) == g,
            None => exists|q: Assignment, p: Assignment| #[trigger]
                all_match(factors, facts, q) && #[trigger] all_match(factors, facts, p) && q(v)
                    != p(v),
        }) by {
            match row[v] {
                Some(g) => {},
                None => {
                    if forall|g: Seq<u8>| !forces(rels, facts, v, g) {
                        let g = q0(v);
                        assert(!forces(rels, facts, v, g));
                        let p = choose|p: Assignment| #[trigger]
                            solves(rels, facts, p) && p(v) != g;
                        assert(all_match(factors, facts, p) && all_match(factors, facts, q0));
                    }
                    if exists|q: Assignment, p: Assignment| #[trigger]
                        all_match(factors, facts, q) && #[trigger] all_match(factors, facts, p)
                            && q(v) != p(v) {
                        let (q, p) = choose|q: Assignment, p: Assignment| #[trigger]
                            all_match(factors, facts, q) && #[trigger] all_match(factors, facts, p)
                                && q(v) != p(v);
                        assert forall|g: Seq<u8>| !forces(rels, facts, v, g) by {
                            assert(solves(rels, facts, q) && solves(rels, facts, p));
                        }
                    }
                },
            }
        }
    }
}

/// Some facts of the trie give the row.
pub open spec fn comes_of_facts(
    paths: Set<Seq<u8>>,
    factors: Seq<Factor>,
    nvars: nat,
    row: Seq<Option<Seq<u8>>>,
) -> bool {
    exists|facts: Seq<Seq<Seq<u8>>>| #[trigger]
        are_facts(paths, factors, facts) && give_row(factors, facts, nvars, row)
}

pub proof fn lemma_comes_of_facts(
    paths: Set<Seq<u8>>,
    factors: Seq<Factor>,
    nvars: nat,
    row: Seq<Option<Seq<u8>>>,
)
    ensures
        comes_of_facts(paths, factors, nvars, row) == is_unifier_row(
            query_relations(paths, factors),
            nvars,
            row,
        ),
{
    let rels = query_relations(paths, factors);
    if comes_of_facts(paths, factors, nvars, row) {
        let facts = choose|facts: Seq<Seq<Seq<u8>>>| #[trigger]
            are_facts(paths, factors, facts) && give_row(factors, facts, nvars, row);
        lemma_facts_choice(paths, factors, facts);
        lemma_give_row(paths, factors, facts, nvars, row);
        assert(is_choice(rels, facts) && gives(rels, facts, nvars, row));
    }
    if is_unifier_row(rels, nvars, row) {
        let facts = choose|facts: Seq<Seq<Seq<u8>>>| #[trigger]
            is_choice(rels, facts) && gives(rels, facts, nvars, row);
        lemma_facts_choice(paths, factors, facts);
        lemma_give_row(paths, factors, facts, nvars, row);
        assert(are_facts(paths, factors, facts) && give_row(factors, facts, nvars, row));
    }
}

/// Every value below `prefix` has `n` complete terms after it.
#[verifier::opaque]
pub open spec fn holds_columns(values: Set<Seq<u8>>, prefix: Seq<u8>, n: nat) -> bool {
    forall|v: Seq<u8>| #[trigger]
        values.contains(v) && prefix.is_prefix_of(v) ==> exists|cols: Seq<Seq<u8>>| #[trigger]
            spells_columns(prefix, n, v, cols)
}

/// Some factor has the order's variable `i` as a column, and only variables that come earlier in the
/// order as the columns before that one.
pub open spec fn has_leader(factors: Seq<Factor>, var_order: Seq<usize>, i: int) -> bool {
    exists|f: int, c: int|
        0 <= f < factors.len() && 0 <= c < factors[f].cols@.len() && #[trigger] factors[f].cols@[c]
            == var_order[i] && forall|b: int|
            0 <= b < c ==> var_order.take(i).contains(#[trigger] factors[f].cols@[b])
}

/// The fact that a factor stands for when its variables have the values of `row`.
pub open spec fn fact_spelled(factor: Factor, row: Seq<Seq<u8>>) -> Seq<u8> {
    factor.prefix@ + factor.cols@.map_values(|v: usize| row[v as int]).flatten()
}

/// A row of a term for each variable of the order, and the empty string for each other variable,
/// with which the trie holds the fact that each factor stands for.
pub open spec fn spells_facts(
    paths: Set<Seq<u8>>,
    factors: Seq<Factor>,
    var_order: Seq<usize>,
    nvars: nat,
    row: Seq<Seq<u8>>,
) -> bool {
    &&& row.len() == nvars
    &&& forall|v: usize|
        v < nvars ==> if var_order.contains(v) {
            is_term(#[trigger] row[v as int])
        } else {
            row[v as int].len() == 0
        }
    &&& forall|f: int|
        0 <= f < factors.len() ==> paths.contains(fact_spelled(#[trigger] factors[f], row))
}

proof fn lemma_orders_all(factors: Seq<Factor>, var_order: Seq<usize>, nvars: nat)
    requires
        orders_all(factors, var_order, nvars),
    ensures
        lists_vars(factors, var_order, nvars),
{
    assert forall|i: int| 0 <= i < var_order.len() implies #[trigger] var_order[i] < nvars by {
        assert(var_order.contains(var_order[i]));
    }
    assert forall|f: int, c: int|
        #![trigger factors[f].cols@[c]]
        0 <= f < factors.len() && 0 <= c < factors[f].cols@.len() implies ordered_before(
        var_order,
        var_order.len() as int,
        factors[f].cols@[c],
    ) by {
        assert(var_order.contains(factors[f].cols@[c]));
    }
}

proof fn lemma_leaders(factors: Seq<Factor>, var_order: Seq<usize>, i: int)
    requires
        0 <= i < var_order.len(),
    ensures
        has_leader(factors, var_order, i) == is_led(factors, var_order, i),
{
    assert forall|v: usize| #[trigger] var_order.take(i).contains(v) == ordered_before(
        var_order,
        i,
        v,
    ) by {
        if var_order.take(i).contains(v) {
            let j = choose|j: int| 0 <= j < var_order.take(i).len() && var_order.take(i)[j] == v;
            assert(var_order[j] == v);
        }
        if ordered_before(var_order, i, v) {
            let j = choose|j: int| 0 <= j < i && #[trigger] var_order[j] == v;
            assert(var_order.take(i)[j] == v);
        }
    }
    if has_leader(factors, var_order, i) {
        let (f, c) = choose|f: int, c: int|
            0 <= f < factors.len() && 0 <= c < factors[f].cols@.len()
                && #[trigger] factors[f].cols@[c] == var_order[i] && forall|b: int|
                0 <= b < c ==> var_order.take(i).contains(#[trigger] factors[f].cols@[b]);
        assert(leads(factors, var_order, i, f, c)) by {
            assert forall|b: int| 0 <= b < c implies ordered_before(
                var_order,
                i,
                #[trigger] factors[f].cols@[b],
            ) by {
                assert(var_order.take(i).contains(factors[f].cols@[b]));
            }
        }
    }
    if is_led(factors, var_order, i) {
        let (f, c) = choose|f: int, c: int| #[trigger] leads(factors, var_order, i, f, c);
        assert forall|b: int| 0 <= b < c implies var_order.take(i).contains(
            #[trigger] factors[f].cols@[b],
        ) by {
            assert(ordered_before(var_order, i, factors[f].cols@[b]));
        }
        assert(factors[f].cols@[c] == var_order[i]);
    }
}

proof fn lemma_spells_facts(
    paths: Set<Seq<u8>>,
    factors: Seq<Factor>,
    var_order: Seq<usize>,
    nvars: nat,
    row: Seq<Seq<u8>>,
)
    requires
        orders_all(factors, var_order, nvars),
    ensures
        spells_facts(paths, factors, var_order, nvars, row) == is_answer(
            paths,
            factors,
            var_order,
            nvars,
            row,
        ),
{
    let n = var_order.len() as int;
    assert forall|v: usize| #[trigger] var_order.contains(v) == ordered_before(var_order, n, v) by {
        if ordered_before(var_order, n, v) {
            let j = choose|j: int| 0 <= j < n && #[trigger] var_order[j] == v;
            assert(var_order[j] == v);
        }
    }
    assert forall|f: int| 0 <= f < factors.len() implies fact_spelled(#[trigger] factors[f], row)
        == factors[f].prefix@ + joined(picked(factors[f].cols@, row)) by {
        let vals = picked(factors[f].cols@, row);
        assert(factors[f].cols@.map_values(|v: usize| row[v as int]) =~= vals);
        lemma_joined_flat(vals);
    }
    if spells_facts(paths, factors, var_order, nvars, row) {
        assert forall|f: int| 0 <= f < factors.len() implies columns_at(
            paths,
            (#[trigger] factors[f]).prefix@,
            picked(factors[f].cols@, row),
        ) by {
            let vals = picked(factors[f].cols@, row);
            assert forall|c: int| 0 <= c < vals.len() implies is_term(#[trigger] vals[c]) by {
                let v = factors[f].cols@[c];
                assert(var_order.contains(v));
                assert(is_term(row[v as int]));
            }
        }
        assert forall|v: usize|
            #![trigger row[v as int]]
            v < nvars implies if ordered_before(var_order, n, v) {
            is_term(row[v as int])
        } else {
            row[v as int].len() == 0
        } by {
            assert(var_order.contains(v) == ordered_before(var_order, n, v));
        }
    }
    if is_answer(paths, factors, var_order, nvars, row) {
        assert forall|v: usize| v < nvars implies if var_order.contains(v) {
            is_term(#[trigger] row[v as int])
        } else {
            row[v as int].len() == 0
        } by {
            assert(var_order.contains(v) == ordered_before(var_order, n, v));
        }
        assert forall|f: int| 0 <= f < factors.len() implies paths.contains(
            fact_spelled(#[trigger] factors[f], row),
        ) by {
            assert(columns_at(paths, factors[f].prefix@, picked(factors[f].cols@, row)));
        }
    }
}

pub proof fn lemma_lists_values(rows: Seq<Vec<Vec<u8>>>, row: Seq<Seq<u8>>)
    ensures
        lists_values(rows, row) == row_found(rows, 0, row),
{
    if lists_values(rows, row) {
        let i = choose|i: int|
            0 <= i < rows.len() && (#[trigger] rows[i])@.len() == row.len() && forall|v: int|
                0 <= v < row.len() ==> (#[trigger] rows[i]@[v])@ == row[v];
        assert(bytes_of(rows[i]@) =~= row);
    }
    if row_found(rows, 0, row) {
        let i = choose|i: int| 0 <= i < rows.len() && bytes_of((#[trigger] rows[i])@) == row;
        assert forall|v: int| 0 <= v < row.len() implies (#[trigger] rows[i]@[v])@ == row[v] by {
            assert(bytes_of(rows[i]@)[v] == row[v]);
        }
    }
}

/// The paths of a trie of whole facts, as the joins see them.
proof fn lemma_paths_plain(paths: Set<Seq<u8>>, values: Set<Seq<u8>>)
    requires
        paths_of_values(paths, values),
    ensures
        paths == prefixes(values),
{
    reveal(paths_of_values);
    assert forall|p: Seq<u8>| paths.contains(p) == prefixes(values).contains(p) by {
        if paths.contains(p) {
            let v = choose|v: Seq<u8>| #[trigger] values.contains(v) && p.is_prefix_of(v);
            lemma_prefix_plain(p, v);
            assert(values.contains(v) && is_prefix(p, v));
        }
        if prefixes(values).contains(p) {
            let v = choose|v: Seq<u8>| #[trigger] values.contains(v) && is_prefix(p, v);
            lemma_prefix_plain(p, v);
            assert(values.contains(v) && p.is_prefix_of(v));
        }
    }
    assert(paths =~= prefixes(values));
}

pub proof fn lemma_spells_columns(prefix: Seq<u8>, n: nat, v: Seq<u8>, cols: Seq<Seq<u8>>)
    ensures
        spells_columns(prefix, n, v, cols) == starts_with(prefix, n, v, cols),
{
    lemma_joined_flat(cols);
    lemma_prefix_plain(prefix + joined(cols), v);
}


proof fn lemma_ground_led(factors: Seq<Factor>, var_order: Seq<usize>)
    requires
        forall|i: int| 0 <= i < var_order.len() ==> #[trigger] has_leader(factors, var_order, i),
    ensures
        can_follow(factors, var_order),
{
    assert forall|i: int| 0 <= i < var_order.len() implies #[trigger] is_led(
        factors,
        var_order,
        i,
    ) by {
        assert(has_leader(factors, var_order, i));
        lemma_leaders(factors, var_order, i);
    }
}

proof fn lemma_ground_fit(paths: Set<Seq<u8>>, values: Set<Seq<u8>>, factors: Seq<Factor>)
    requires
        paths_of_values(paths, values),
        forall|f: int|
            0 <= f < factors.len() ==> holds_columns(
                values,
                (#[trigger] factors[f]).prefix@,
                factors[f].cols@.len(),
            ),
    ensures
        factors_fit(paths, factors),
{
    lemma_paths_plain(paths, values);
    lemma_prefixes_closed(values);
    assert forall|f: int| 0 <= f < factors.len() implies has_columns(
        prefixes(values),
        (#[trigger] factors[f]).prefix@,
        factors[f].cols@.len(),
    ) by {
        let factor = factors[f];
        lemma_columns_whole(values, factor.prefix@, factor.cols@.len());
    }
}

proof fn lemma_ground_exact<T: PathTrie>(
    map: &T,
    factors: &[Factor],
    var_order: &[usize],
    nvars: usize,
    rows: Vec<Vec<Vec<u8>>>,
)
    requires
        factors_fit(map.paths(), factors@),
        can_follow(factors@, var_order@),
        call_ensures(ground_join::<T>, (map, factors, var_order, nvars), rows),
    ensures
        forall|row: Seq<Seq<u8>>| #[trigger]
            row_found(rows@, 0, row) == is_answer(
                map.paths(),
                factors@,
                var_order@,
                nvars as nat,
                row,
            ),
{
}

/// Where the order can be followed, whatever order the columns are in, and the trie holds whole
/// facts, the ground join returns every row that spells a fact for each factor, and no other.
pub proof fn lemma_ground_rows<T: PathTrie>(
    map: &T,
    factors: &[Factor],
    var_order: &[usize],
    nvars: usize,
    rows: Vec<Vec<Vec<u8>>>,
)
    requires
        orders_all(factors@, var_order@, nvars as nat),
        paths_of_values(map.paths(), map.values()),
        forall|f: int|
            0 <= f < factors@.len() ==> holds_columns(
                map.values(),
                (#[trigger] factors@[f]).prefix@,
                factors@[f].cols@.len(),
            ),
        forall|i: int| 0 <= i < var_order@.len() ==> #[trigger] has_leader(
            factors@,
            var_order@,
            i,
        ),
        call_ensures(ground_join::<T>, (map, factors, var_order, nvars), rows),
    ensures
        forall|row: Seq<Seq<u8>>| #[trigger]
            lists_values(rows@, row) <==> spells_facts(
                map.paths(),
                factors@,
                var_order@,
                nvars as nat,
                row,
            ),
{
    let paths = map.paths();
    lemma_ground_led(factors@, var_order@);
    lemma_ground_fit(paths, map.values(), factors@);
    lemma_ground_exact(map, factors, var_order, nvars, rows);
    assert forall|row: Seq<Seq<u8>>| #[trigger]
        lists_values(rows@, row) <==> spells_facts(
        paths,
        factors@,
        var_order@,
        nvars as nat,
        row,
    ) by {
        lemma_lists_values(rows@, row);
        lemma_spells_facts(paths, factors@, var_order@, nvars as nat, row);
    }
}

proof fn lemma_columns_whole(values: Set<Seq<u8>>, prefix: Seq<u8>, n: nat)
    requires
        holds_columns(values, prefix, n),
    ensures
        has_columns(prefixes(values), prefix, n),
{
    reveal(holds_columns);
    assert forall|v: Seq<u8>| #[trigger]
        values.contains(v) && is_prefix(prefix, v) implies exists|cols: Seq<Seq<u8>>| #[trigger]
        starts_with(prefix, n, v, cols) by {
        lemma_prefix_plain(prefix, v);
        let cols = choose|cols: Seq<Seq<u8>>| #[trigger] spells_columns(prefix, n, v, cols);
        lemma_spells_columns(prefix, n, v, cols);
        assert(starts_with(prefix, n, v, cols));
    }
    lemma_facts_whole(values, prefix, n);
}

/// At the first variable of the order on which the rows differ, `a` has the smaller value.
pub open spec fn is_smaller_row(var_order: Seq<usize>, a: Seq<Vec<u8>>, b: Seq<Vec<u8>>) -> bool {
    exists|i: int|
        0 <= i < var_order.len() && (forall|j: int|
            0 <= j < i ==> a[(#[trigger] var_order[j]) as int]@ == b[var_order[j] as int]@) && lt(
            a[(#[trigger] var_order[i]) as int]@,
            b[var_order[i] as int]@,
        )
}

/// Whatever the trie holds, every row of the ground join spells a fact for each factor, no row comes
/// twice, and at the first variable of the order on which two rows differ the earlier row has the
/// smaller value. Where some variable of the order has no factor to lead it, there is no row.
pub proof fn lemma_ground_sound<T: PathTrie>(
    map: &T,
    factors: &[Factor],
    var_order: &[usize],
    nvars: usize,
    rows: Vec<Vec<Vec<u8>>>,
)
    requires
        orders_all(factors@, var_order@, nvars as nat),
        call_ensures(ground_join::<T>, (map, factors, var_order, nvars), rows),
    ensures
        call_requires(ground_join::<T>, (map, factors, var_order, nvars)),
        forall|row: Seq<Seq<u8>>| #[trigger]
            lists_values(rows@, row) ==> spells_facts(
                map.paths(),
                factors@,
                var_order@,
                nvars as nat,
                row,
            ),
        forall|i: int|
            0 <= i < var_order@.len() && !#[trigger] has_leader(factors@, var_order@, i)
                ==> rows@.len() == 0,
        forall|m: int, n: int|
            #![trigger rows@[m], rows@[n]]
            0 <= m < n < rows@.len() ==> is_smaller_row(var_order@, rows@[m]@, rows@[n]@),
{
    let paths = map.paths();
    lemma_orders_all(factors@, var_order@, nvars as nat);
    assert forall|row: Seq<Seq<u8>>| #[trigger]
        lists_values(rows@, row) implies spells_facts(
        paths,
        factors@,
        var_order@,
        nvars as nat,
        row,
    ) by {
        lemma_lists_values(rows@, row);
        lemma_spells_facts(paths, factors@, var_order@, nvars as nat, row);
    }
    assert forall|i: int|
        0 <= i < var_order@.len() && !#[trigger] has_leader(
            factors@,
            var_order@,
            i,
        ) implies rows@.len() == 0 by {
        lemma_leaders(factors@, var_order@, i);
        if rows@.len() > 0 {
            let row = bytes_of(rows@[0]@);
            assert(row_found(rows@, 0, row));
            assert(can_follow(factors@, var_order@));
        }
    }
    assert forall|m: int, n: int|
        #![trigger rows@[m], rows@[n]]
        0 <= m < n < rows@.len() implies is_smaller_row(var_order@, rows@[m]@, rows@[n]@) by {
        let a = bytes_of(rows@[m]@);
        let b = bytes_of(rows@[n]@);
        assert(row_found(rows@, 0, a) && row_found(rows@, 0, b));
        assert(row_before(var_order@, a, b));
        let i = choose|i: int| #[trigger] row_before_at(var_order@, a, b, i);
        assert(rows@[m]@.len() == nvars && rows@[n]@.len() == nvars);
        assert forall|j: int| 0 <= j < i implies rows@[m]@[(#[trigger] var_order@[j]) as int]@
            == rows@[n]@[var_order@[j] as int]@ by {
            assert(a[var_order@[j] as int] == b[var_order@[j] as int]);
        }
        assert(var_order@[i] < nvars);
    }
}


/// Whatever the order of the variables, a relation of whole facts can be joined, and is read whole.
pub proof fn lemma_relation_ready(r: Relation, values: Set<Seq<u8>>, var_order: Seq<usize>)
    requires
        paths_of_values(r.paths, values),
        holds_facts(values, r.prefix, r.vars.len()),
    ensures
        is_joinable(values, r, var_order),
        is_read_whole(values, r, var_order),
{
    let n = r.vars.len();
    lemma_paths_plain(r.paths, values);
    lemma_facts_plain(values, r.prefix, n);
    lemma_facts_scoped(values, r.prefix, n);
    lemma_facts_readable(values, r);
    lemma_facts_stored(values, r);
}

pub proof fn lemma_facts_plain(values: Set<Seq<u8>>, prefix: Seq<u8>, n: nat)
    requires
        holds_facts(values, prefix, n),
    ensures
        values_simple(values, prefix, n),
{
    reveal(holds_facts);
    assert forall|v: Seq<u8>| #[trigger]
        values.contains(v) && is_prefix(prefix, v) && v != prefix implies exists|
        cols: Seq<Seq<u8>>,
    | #[trigger]
        starts_with(prefix, n, v, cols) && is_simple(cols) by {
        lemma_prefix_plain(prefix, v);
        let cols = choose|cols: Seq<Seq<u8>>| #[trigger]
            spells_columns(prefix, n, v, cols) && is_plain_fact(cols);
        lemma_spells_columns(prefix, n, v, cols);
        lemma_plain_scoped(cols);
        assert(starts_with(prefix, n, v, cols) && is_simple(cols));
    }
}

proof fn lemma_facts_scoped(values: Set<Seq<u8>>, prefix: Seq<u8>, n: nat)
    requires
        holds_facts(values, prefix, n),
    ensures
        forall|v: Seq<u8>| #[trigger]
            values.contains(v) && is_prefix(prefix, v) ==> exists|cols: Seq<Seq<u8>>| #[trigger]
                starts_with(prefix, n, v, cols) && well_scoped(cols),
{
    reveal(holds_facts);
    assert forall|v: Seq<u8>| #[trigger]
        values.contains(v) && is_prefix(prefix, v) implies exists|cols: Seq<Seq<u8>>| #[trigger]
        starts_with(prefix, n, v, cols) && well_scoped(cols) by {
        lemma_prefix_plain(prefix, v);
        let cols = choose|cols: Seq<Seq<u8>>| #[trigger]
            spells_columns(prefix, n, v, cols) && is_plain_fact(cols);
        lemma_spells_columns(prefix, n, v, cols);
        lemma_plain_scoped(cols);
        assert(starts_with(prefix, n, v, cols) && well_scoped(cols));
    }
}

/// The trie holds whole facts for every factor.
pub open spec fn holds_all_facts(
    paths: Set<Seq<u8>>,
    values: Set<Seq<u8>>,
    factors: Seq<Factor>,
) -> bool {
    &&& paths_of_values(paths, values)
    &&& forall|f: int|
        0 <= f < factors.len() ==> holds_facts(
            values,
            (#[trigger] factors[f]).prefix@,
            factors[f].cols@.len(),
        )
}

proof fn lemma_relations_ready(
    paths: Set<Seq<u8>>,
    values: Set<Seq<u8>>,
    factors: Seq<Factor>,
    var_order: Seq<usize>,
)
    requires
        holds_all_facts(paths, values, factors),
    ensures
        all_joinable(values, query_relations(paths, factors), var_order),
        all_read_whole(values, query_relations(paths, factors), var_order),
{
    let rels = query_relations(paths, factors);
    assert forall|f: int| 0 <= f < rels.len() implies is_joinable(
        values,
        #[trigger] rels[f],
        var_order,
    ) && is_read_whole(values, rels[f], var_order) by {
        let factor = factors[f];
        assert(rels[f] == relation_of(paths, factor));
        lemma_relation_ready(rels[f], values, var_order);
    }
}

proof fn lemma_lists_row(rows: Seq<Vec<Option<Vec<u8>>>>, row: Seq<Option<Seq<u8>>>)
    ensures
        lists_row(rows, row) == has_row(rows, row),
{
    if lists_row(rows, row) {
        let i = choose|i: int|
            0 <= i < rows.len() && (#[trigger] rows[i])@.len() == row.len() && forall|v: int|
                0 <= v < row.len() ==> match #[trigger] rows[i]@[v] {
                    Some(g) => row[v] == Some(g@),
                    None => row[v] is None,
                };
        assert(row_of(rows[i]@) =~= row) by {
            assert forall|v: int| 0 <= v < row.len() implies row_of(rows[i]@)[v] == row[v] by {}
        }
    }
    if has_row(rows, row) {
        let i = choose|i: int| 0 <= i < rows.len() && row_of((#[trigger] rows[i])@) == row;
        assert forall|v: int| 0 <= v < row.len() implies match #[trigger] rows[i]@[v] {
            Some(g) => row[v] == Some(g@),
            None => row[v] is None,
        } by {
            assert(row_of(rows[i]@)[v] == row[v]);
        }
    }
}

proof fn lemma_partial_exact<T: PathTrie>(
    map: &T,
    factors: &[Factor],
    var_order: &[usize],
    nvars: usize,
    rows: Vec<Vec<Option<Vec<u8>>>>,
)
    requires
        all_read_whole(map.values(), query_relations(map.paths(), factors@), var_order@),
        call_ensures(
            unify_join_zipper_partial::<T>,
            (map, factors, var_order, nvars),
            rows,
        ),
    ensures
        forall|row: Seq<Option<Seq<u8>>>| #[trigger]
            has_row(rows@, row) == is_unifier_row(
                query_relations(map.paths(), factors@),
                nvars as nat,
                row,
            ),
{
}

/// On a trie of whole facts the unification join returns exactly the rows that some choice of one
/// fact per factor gives, whatever number of columns the factors have and whatever order they are in.
pub proof fn lemma_unify_rows<T: PathTrie>(
    map: &T,
    factors: &[Factor],
    var_order: &[usize],
    nvars: usize,
    rows: Vec<Vec<Option<Vec<u8>>>>,
)
    requires
        orders_all(factors@, var_order@, nvars as nat),
        holds_all_facts(map.paths(), map.values(), factors@),
        call_ensures(
            unify_join_zipper_partial::<T>,
            (map, factors, var_order, nvars),
            rows,
        ),
    ensures
        forall|row: Seq<Option<Seq<u8>>>| #[trigger]
            lists_row(rows@, row) <==> comes_of_facts(map.paths(), factors@, nvars as nat, row),
{
    lemma_relations_ready(map.paths(), map.values(), factors@, var_order@);
    lemma_partial_exact(map, factors, var_order, nvars, rows);
    assert forall|row: Seq<Option<Seq<u8>>>| #[trigger]
        lists_row(rows@, row) <==> comes_of_facts(map.paths(), factors@, nvars as nat, row) by {
        lemma_lists_row(rows@, row);
        lemma_comes_of_facts(map.paths(), factors@, nvars as nat, row);
    }
}

/// The unification joins take every query on a trie of whole facts.
pub proof fn lemma_unify_accepts<T: PathTrie>(
    map: &T,
    factors: &[Factor],
    var_order: &[usize],
    nvars: usize,
)
    requires
        orders_all(factors@, var_order@, nvars as nat),
        holds_all_facts(map.paths(), map.values(), factors@),
    ensures
        call_requires(unify_join_zipper_partial::<T>, (map, factors, var_order, nvars)),
        call_requires(unify_join_zipper::<T>, (map, factors, var_order, nvars)),
{
    lemma_orders_all(factors@, var_order@, nvars as nat);
    lemma_relations_ready(map.paths(), map.values(), factors@, var_order@);
}

proof fn lemma_partial_sound<T: PathTrie>(
    map: &T,
    factors: &[Factor],
    var_order: &[usize],
    nvars: usize,
    rows: Vec<Vec<Option<Vec<u8>>>>,
)
    requires
        call_ensures(
            unify_join_zipper_partial::<T>,
            (map, factors, var_order, nvars),
            rows,
        ),
    ensures
        ascending(rows@),
        forall|row: Seq<Option<Seq<u8>>>| #[trigger]
            has_row(rows@, row) ==> is_unifier_row(
                query_relations(map.paths(), factors@),
                nvars as nat,
                row,
            ),
{
}

/// Whatever the trie holds, every row of the unification join comes of facts that the trie has.
pub proof fn lemma_unify_sound<T: PathTrie>(
    map: &T,
    factors: &[Factor],
    var_order: &[usize],
    nvars: usize,
    rows: Vec<Vec<Option<Vec<u8>>>>,
)
    requires
        call_ensures(
            unify_join_zipper_partial::<T>,
            (map, factors, var_order, nvars),
            rows,
        ),
    ensures
        forall|row: Seq<Option<Seq<u8>>>| #[trigger]
            lists_row(rows@, row) ==> comes_of_facts(map.paths(), factors@, nvars as nat, row),
{
    lemma_partial_sound(map, factors, var_order, nvars, rows);
    assert forall|row: Seq<Option<Seq<u8>>>| #[trigger]
        lists_row(rows@, row) implies comes_of_facts(
        map.paths(),
        factors@,
        nvars as nat,
        row,
    ) by {
        lemma_lists_row(rows@, row);
        lemma_comes_of_facts(map.paths(), factors@, nvars as nat, row);
    }
}

proof fn lemma_ground_only_exact<T: PathTrie>(
    map: &T,
    factors: &[Factor],
    var_order: &[usize],
    nvars: usize,
    rows: Vec<Vec<Vec<u8>>>,
)
    requires
        all_read_whole(map.values(), query_relations(map.paths(), factors@), var_order@),
        call_ensures(unify_join_zipper::<T>, (map, factors, var_order, nvars), rows),
    ensures
        forall|row: Seq<Seq<u8>>| #[trigger]
            row_found(rows@, 0, row) == is_unifier_row(
                query_relations(map.paths(), factors@),
                nvars as nat,
                all_ground(row),
            ),
{
}

/// On a trie of whole facts the ground rows of the unification join are exactly those of the rows
/// that come of facts in which every variable has a value.
pub proof fn lemma_unify_ground_rows<T: PathTrie>(
    map: &T,
    factors: &[Factor],
    var_order: &[usize],
    nvars: usize,
    rows: Vec<Vec<Vec<u8>>>,
)
    requires
        orders_all(factors@, var_order@, nvars as nat),
        holds_all_facts(map.paths(), map.values(), factors@),
        call_ensures(unify_join_zipper::<T>, (map, factors, var_order, nvars), rows),
    ensures
        forall|row: Seq<Seq<u8>>| #[trigger]
            lists_values(rows@, row) <==> comes_of_facts(
                map.paths(),
                factors@,
                nvars as nat,
                row.map_values(|g: Seq<u8>| Some(g)),
            ),
{
    lemma_relations_ready(map.paths(), map.values(), factors@, var_order@);
    lemma_ground_only_exact(map, factors, var_order, nvars, rows);
    assert forall|row: Seq<Seq<u8>>| #[trigger]
        lists_values(rows@, row) <==> comes_of_facts(
        map.paths(),
        factors@,
        nvars as nat,
        row.map_values(|g: Seq<u8>| Some(g)),
    ) by {
        let some = row.map_values(|g: Seq<u8>| Some(g));
        assert(some =~= all_ground(row));
        lemma_lists_values(rows@, row);
        lemma_comes_of_facts(map.paths(), factors@, nvars as nat, some);
    }
}


/// A walk comes to every column of the fact, one after the other: where a column begins, no path
/// breaks off before it.
pub open spec fn comes_to_fact(
    paths: Set<Seq<u8>>,
    prefix: Seq<u8>,
    cols: Seq<Seq<u8>>,
) -> bool {
    forall|c: int|
        0 <= c < cols.len() ==> comes_to(paths, prefix + cols.take(c).flatten(), #[trigger] cols[c])
}

proof fn lemma_comes_to_fact(paths: Set<Seq<u8>>, prefix: Seq<u8>, cols: Seq<Seq<u8>>)
    ensures
        comes_to_fact(paths, prefix, cols) == walked(paths, prefix, cols),
{
    assert forall|c: int| 0 <= c < cols.len() implies comes_to(
        paths,
        prefix + cols.take(c).flatten(),
        #[trigger] cols[c],
    ) == is_visible(below(paths, prefix + joined(cols.take(c))), cols[c]) by {
        lemma_joined_flat(cols.take(c));
        lemma_comes_to(paths, prefix + joined(cols.take(c)), cols[c]);
    }
    if walked(paths, prefix, cols) {
        assert forall|c: int| 0 <= c < cols.len() implies comes_to(
            paths,
            prefix + cols.take(c).flatten(),
            #[trigger] cols[c],
        ) by {
            assert(is_visible(below(paths, prefix + joined(cols.take(c))), cols[c]));
        }
    }
}

proof fn lemma_ground_walked<T: PathTrie>(
    map: &T,
    factors: &[Factor],
    var_order: &[usize],
    nvars: usize,
    rows: Vec<Vec<Vec<u8>>>,
    row: Seq<Seq<u8>>,
)
    requires
        can_follow(factors@, var_order@),
        is_answer(map.paths(), factors@, var_order@, nvars as nat, row),
        row_walked(map.paths(), factors@, row),
        call_ensures(ground_join::<T>, (map, factors, var_order, nvars), rows),
    ensures
        row_found(rows@, 0, row),
{
}

/// Whatever else the trie holds, the ground join returns a row whose facts a walk comes to.
pub proof fn lemma_ground_reached<T: PathTrie>(
    map: &T,
    factors: &[Factor],
    var_order: &[usize],
    nvars: usize,
    rows: Vec<Vec<Vec<u8>>>,
    row: Seq<Seq<u8>>,
)
    requires
        orders_all(factors@, var_order@, nvars as nat),
        forall|i: int| 0 <= i < var_order@.len() ==> #[trigger] has_leader(
            factors@,
            var_order@,
            i,
        ),
        spells_facts(map.paths(), factors@, var_order@, nvars as nat, row),
        forall|f: int|
            0 <= f < factors@.len() ==> comes_to_fact(
                map.paths(),
                (#[trigger] factors@[f]).prefix@,
                factors@[f].cols@.map_values(|v: usize| row[v as int]),
            ),
        call_ensures(ground_join::<T>, (map, factors, var_order, nvars), rows),
    ensures
        lists_values(rows@, row),
{
    let paths = map.paths();
    lemma_ground_led(factors@, var_order@);
    lemma_spells_facts(paths, factors@, var_order@, nvars as nat, row);
    assert forall|f: int| 0 <= f < factors@.len() implies walked(
        paths,
        (#[trigger] factors@[f]).prefix@,
        picked(factors@[f].cols@, row),
    ) by {
        let vals = picked(factors@[f].cols@, row);
        assert(factors@[f].cols@.map_values(|v: usize| row[v as int]) =~= vals);
        lemma_comes_to_fact(paths, factors@[f].prefix@, vals);
    }
    lemma_ground_walked(map, factors, var_order, nvars, rows, row);
    lemma_lists_values(rows@, row);
}

/// The variables of the columns stand in the order in which the columns do.
pub open spec fn columns_ordered(cols: Seq<usize>, var_order: Seq<usize>) -> bool {
    forall|a: int, b: int, i: int, j: int|
        #![trigger cols[a], cols[b], var_order[i], var_order[j]]
        0 <= a < b < cols.len() && 0 <= i < var_order.len() && 0 <= j < var_order.len()
            && cols[a] == var_order[i] && cols[b] == var_order[j] ==> i <= j
}

proof fn lemma_partial_read<T: PathTrie>(
    map: &T,
    factors: &[Factor],
    var_order: &[usize],
    nvars: usize,
    rows: Vec<Vec<Option<Vec<u8>>>>,
    row: Seq<Option<Seq<u8>>>,
)
    requires
        is_read_row(
            map.values(),
            query_relations(map.paths(), factors@),
            var_order@,
            nvars as nat,
            row,
        ),
        call_ensures(
            unify_join_zipper_partial::<T>,
            (map, factors, var_order, nvars),
            rows,
        ),
    ensures
        has_row(rows@, row),
{
}

/// Whatever else the trie holds, the unification join returns a row that comes of facts which it
/// reads: where a factor's columns stand in the order of the variables, a walk comes to its fact, and
/// otherwise the fact is stored as a value.
pub proof fn lemma_unify_reached<T: PathTrie>(
    map: &T,
    factors: &[Factor],
    var_order: &[usize],
    nvars: usize,
    rows: Vec<Vec<Option<Vec<u8>>>>,
    facts: Seq<Seq<Seq<u8>>>,
    row: Seq<Option<Seq<u8>>>,
)
    requires
        are_facts(map.paths(), factors@, facts),
        give_row(factors@, facts, nvars as nat, row),
        forall|f: int|
            0 <= f < factors@.len() ==> if columns_ordered(
                (#[trigger] factors@[f]).cols@,
                var_order@,
            ) {
                comes_to_fact(map.paths(), factors@[f].prefix@, facts[f])
            } else {
                exists|v: Seq<u8>| #[trigger]
                    map.values().contains(v) && spells_columns(
                        factors@[f].prefix@,
                        factors@[f].cols@.len(),
                        v,
                        facts[f],
                    )
            },
        call_ensures(
            unify_join_zipper_partial::<T>,
            (map, factors, var_order, nvars),
            rows,
        ),
    ensures
        lists_row(rows@, row),
{
    let paths = map.paths();
    let values = map.values();
    let rels = query_relations(paths, factors@);
    lemma_facts_choice(paths, factors@, facts);
    lemma_give_row(paths, factors@, facts, nvars as nat, row);
    assert forall|f: int| 0 <= f < rels.len() implies is_read(
        values,
        rels[f],
        var_order@,
        #[trigger] facts[f],
    ) by {
        let factor = factors@[f];
        assert(rels[f] == relation_of(paths, factor));
        assert(columns_ordered(factor.cols@, var_order@) == in_order(factor.cols@, var_order@));
        if columns_ordered(factor.cols@, var_order@) {
            lemma_comes_to_fact(paths, factor.prefix@, facts[f]);
        } else {
            let v = choose|v: Seq<u8>| #[trigger]
                values.contains(v) && spells_columns(
                    factor.prefix@,
                    factor.cols@.len(),
                    v,
                    facts[f],
                );
            lemma_spells_columns(factor.prefix@, factor.cols@.len(), v, facts[f]);
            assert(values.contains(v) && starts_with(factor.prefix@, factor.cols@.len(), v, facts[f]));
        }
    }
    assert(all_read(values, rels, var_order@, facts));
    assert(is_choice(rels, facts) && gives(rels, facts, nvars as nat, row));
    lemma_partial_read(map, factors, var_order, nvars, rows, row);
    lemma_lists_row(rows@, row);
}

/// At the first component on which the rows differ, `a` is free and `b` is not, or both have values
/// and that of `a` is smaller.
pub open spec fn is_smaller_partial(a: Seq<Option<Vec<u8>>>, b: Seq<Option<Vec<u8>>>) -> bool {
    exists|i: int|
        0 <= i < a.len() && i < b.len() && (forall|j: int|
            0 <= j < i ==> match (#[trigger] a[j], b[j]) {
                (Some(x), Some(y)) => x@ == y@,
                (None, None) => true,
                _ => false,
            }) && match (#[trigger] a[i], b[i]) {
            (Some(x), Some(y)) => lt(x@, y@),
            (None, Some(_)) => true,
            _ => false,
        }
}

/// The rows of the unification join have a component for every variable, no row comes twice, and they
/// are in ascending order.
pub proof fn lemma_unify_order<T: PathTrie>(
    map: &T,
    factors: &[Factor],
    var_order: &[usize],
    nvars: usize,
    rows: Vec<Vec<Option<Vec<u8>>>>,
)
    requires
        call_ensures(
            unify_join_zipper_partial::<T>,
            (map, factors, var_order, nvars),
            rows,
        ),
    ensures
        forall|m: int| 0 <= m < rows@.len() ==> (#[trigger] rows@[m])@.len() == nvars,
        forall|m: int, n: int|
            #![trigger rows@[m], rows@[n]]
            0 <= m < n < rows@.len() ==> is_smaller_partial(rows@[m]@, rows@[n]@),
{
    lemma_partial_sound(map, factors, var_order, nvars, rows);
    assert forall|m: int| 0 <= m < rows@.len() implies (#[trigger] rows@[m])@.len() == nvars by {
        assert(has_row(rows@, row_of(rows@[m]@)));
    }
    assert forall|m: int, n: int|
        #![trigger rows@[m], rows@[n]]
        0 <= m < n < rows@.len() implies is_smaller_partial(rows@[m]@, rows@[n]@) by {
        lemma_smaller_partial(rows@[m]@, rows@[n]@);
    }
}

proof fn lemma_smaller_partial(a: Seq<Option<Vec<u8>>>, b: Seq<Option<Vec<u8>>>)
    requires
        a.len() == b.len(),
        row_lt(row_of(a), row_of(b)),
    ensures
        is_smaller_partial(a, b),
{
    let x = row_of(a);
    let y = row_of(b);
    let i = choose|i: int| row_lt_at(x, y, i);
    assert forall|j: int| 0 <= j < i implies match (#[trigger] a[j], b[j]) {
        (Some(p), Some(q)) => p@ == q@,
        (None, None) => true,
        _ => false,
    } by {
        assert(x.take(i)[j] == y.take(i)[j]);
        assert(x[j] == y[j]);
    }
    assert(part_lt(x[i], y[i]));
}

proof fn lemma_ground_only_sound<T: PathTrie>(
    map: &T,
    factors: &[Factor],
    var_order: &[usize],
    nvars: usize,
    rows: Vec<Vec<Vec<u8>>>,
)
    requires
        call_ensures(unify_join_zipper::<T>, (map, factors, var_order, nvars), rows),
    ensures
        ground_ascending(rows@),
        forall|row: Seq<Seq<u8>>| #[trigger]
            row_found(rows@, 0, row) ==> is_unifier_row(
                query_relations(map.paths(), factors@),
                nvars as nat,
                all_ground(row),
            ),
        exists|partial: Vec<Vec<Option<Vec<u8>>>>| #[trigger]
            call_ensures(
                unify_join_zipper_partial::<T>,
                (map, factors, var_order, nvars),
                partial,
            ) && keeps_ground(partial@, rows@),
{
}

/// At the first component on which the rows differ, `a` has the smaller value.
pub open spec fn is_smaller_values(a: Seq<Vec<u8>>, b: Seq<Vec<u8>>) -> bool {
    exists|i: int|
        0 <= i < a.len() && i < b.len() && (forall|j: int|
            0 <= j < i ==> (#[trigger] a[j])@ == b[j]@) && lt((#[trigger] a[i])@, b[i]@)
}

/// Some call of the partial join returns these values among its rows exactly where every component
/// of its row has a value.
pub open spec fn keeps_full_rows<T: PathTrie>(
    map: &T,
    factors: &[Factor],
    var_order: &[usize],
    nvars: usize,
    rows: Seq<Vec<Vec<u8>>>,
) -> bool {
    exists|partial: Vec<Vec<Option<Vec<u8>>>>| #[trigger]
        call_ensures(
            unify_join_zipper_partial::<T>,
            (map, factors, var_order, nvars),
            partial,
        ) && forall|row: Seq<Seq<u8>>| #[trigger]
            lists_values(rows, row) <==> lists_row(partial@, row.map_values(|g: Seq<u8>| Some(g)))
}

/// Whatever the trie holds, the ground rows of the unification join are the rows of the partial join
/// in which every component has a value, each once and in ascending order.
pub proof fn lemma_unify_ground_order<T: PathTrie>(
    map: &T,
    factors: &[Factor],
    var_order: &[usize],
    nvars: usize,
    rows: Vec<Vec<Vec<u8>>>,
)
    requires
        call_ensures(unify_join_zipper::<T>, (map, factors, var_order, nvars), rows),
    ensures
        keeps_full_rows(map, factors, var_order, nvars, rows@),
        forall|m: int| 0 <= m < rows@.len() ==> (#[trigger] rows@[m])@.len() == nvars,
        forall|m: int, n: int|
            #![trigger rows@[m], rows@[n]]
            0 <= m < n < rows@.len() ==> is_smaller_values(rows@[m]@, rows@[n]@),
{
    lemma_ground_only_sound(map, factors, var_order, nvars, rows);
    let partial = choose|partial: Vec<Vec<Option<Vec<u8>>>>| #[trigger]
        call_ensures(
            unify_join_zipper_partial::<T>,
            (map, factors, var_order, nvars),
            partial,
        ) && keeps_ground(partial@, rows@);
    assert forall|row: Seq<Seq<u8>>| #[trigger]
        lists_values(rows@, row) <==> lists_row(
        partial@,
        row.map_values(|g: Seq<u8>| Some(g)),
    ) by {
        let some = row.map_values(|g: Seq<u8>| Some(g));
        assert(some =~= all_ground(row));
        lemma_lists_values(rows@, row);
        lemma_lists_row(partial@, some);
        assert(row_found(rows@, 0, row) == has_row(partial@, all_ground(row)));
    }
    assert forall|m: int| 0 <= m < rows@.len() implies (#[trigger] rows@[m])@.len() == nvars by {
        let row = bytes_of(rows@[m]@);
        assert(row_found(rows@, 0, row));
        assert(all_ground(row).len() == nvars);
    }
    assert forall|m: int, n: int|
        #![trigger rows@[m], rows@[n]]
        0 <= m < n < rows@.len() implies is_smaller_values(rows@[m]@, rows@[n]@) by {
        let x = all_ground(bytes_of(rows@[m]@));
        let y = all_ground(bytes_of(rows@[n]@));
        assert(row_lt(x, y));
        let i = choose|i: int| row_lt_at(x, y, i);
        assert forall|j: int| 0 <= j < i implies (#[trigger] rows@[m]@[j])@ == rows@[n]@[j]@ by {
            assert(x.take(i)[j] == y.take(i)[j]);
            assert(x[j] == y[j]);
        }
        assert(part_lt(x[i], y[i]));
    }
}

/// A query is accepted exactly when the order lists variables below `nvars`, each once, and every
/// variable of a factor's columns.
pub proof fn lemma_query_accepted(
    factors: &[Factor],
    var_order: &[usize],
    nvars: usize,
    r: bool,
)
    requires
        call_ensures(is_query, (factors, var_order, nvars), r),
    ensures
        r == orders_all(factors@, var_order@, nvars as nat),
{
    if orders_all(factors@, var_order@, nvars as nat) {
        lemma_orders_all(factors@, var_order@, nvars as nat);
    }
    if lists_vars(factors@, var_order@, nvars as nat) {
        assert forall|f: int, c: int|
            0 <= f < factors@.len() && 0 <= c < factors@[f].cols@.len() implies var_order@.contains(
            #[trigger] factors@[f].cols@[c],
        ) by {
            let v = factors@[f].cols@[c];
            assert(ordered_before(var_order@, var_order@.len() as int, v));
            let j = choose|j: int| 0 <= j < var_order@.len() && #[trigger] var_order@[j] == v;
            assert(var_order@[j] == v);
        }
    }
}

/// A set of paths is a trie of its values: its paths are their prefixes, and nothing else.
pub proof fn lemma_set_paths(set: PathSet)
    ensures
        paths_of_values(set.paths(), set.values()),
        set.values() == set@,
{
    reveal(paths_of_values);
    assert forall|p: Seq<u8>| #[trigger]
        set.paths().contains(p) <==> exists|v: Seq<u8>| #[trigger]
            set.values().contains(v) && p.is_prefix_of(v) by {
        if set.paths().contains(p) {
            let v = choose|v: Seq<u8>| #[trigger] set@.contains(v) && is_prefix(p, v);
            lemma_prefix_plain(p, v);
            assert(set.values().contains(v) && p.is_prefix_of(v));
        }
        if exists|v: Seq<u8>| #[trigger] set.values().contains(v) && p.is_prefix_of(v) {
            let v = choose|v: Seq<u8>| #[trigger] set.values().contains(v) && p.is_prefix_of(v);
            lemma_prefix_plain(p, v);
            assert(set@.contains(v) && is_prefix(p, v));
        }
    }
}


/// Every factor without columns is looked up: the trie has its fact exactly when it has the path.
pub proof fn lemma_facts_looked_up<T: PathTrie>(map: &T, factors: &[Factor], r: bool)
    requires
        call_ensures(facts_present::<T>, (map, factors), r),
    ensures
        r <==> forall|f: int|
            0 <= f < factors@.len() && (#[trigger] factors@[f]).cols@.len() == 0
                ==> map.paths().contains(factors@[f].prefix@),
{
}


} // verus!
