//! What holds of the library as a whole.

use vstd::prelude::*;
use crate::body::{
    after_head, args_of, body_read, column_var, columns_in, conjunct_of, conjunct_vars,
    conjuncts_read, first_bad, first_term, is_compound, lemma_first_open, lemma_new_vars_bound,
    Pattern, Reading,
};
use crate::candidate::subterms;
use crate::cursor::{after, anywhere, at_least, has_child, is_subterm, lands};
use crate::env::Assignment;
use crate::equivalence::{all_stored, lemma_same_gives, lemma_well_scoped_take};
use crate::fact::{
    forces, gives, holds_of, is_choice, is_new, is_scoped, is_unifier_row, is_whole, is_wild, names,
    new_vars, settles, slot, solves, well_scoped, Relation,
};
use crate::factor::{
    all_terms, columns_at, has_columns, is_clear, joined, lemma_clear_lands, lemma_columns_unique,
    lemma_joined_spells, lemma_joined_take, Factor,
};
use crate::ground::{can_follow, is_answer, is_led, leads, lists_vars, ordered_before, picked};
use crate::order::{
    is_prefix, lemma_lt_total, lemma_lt_trans, lemma_prefix_of_prefix, lemma_prefix_refl, lt,
};
use crate::path_set::{lemma_prefixes_closed, prefixes};
use crate::prepare::{in_order, query_relations};
use crate::reemit::{is_canonical, lemma_back_order, lemma_has_inverse, lemma_reemit_apart};
use crate::reindex::{
    is_column_order, is_moved_fact, lemma_column_place, lemma_rest_prefix, re_emitted, starts_with,
};
use crate::system::lemma_new_vars_mono;
use crate::term::{
    holds, is_term, lemma_holds_extend, lemma_prefix_free, lemma_run_concat, lemma_run_payload,
    payload_of, run, spells,
};
use crate::unify::all_ground;

verus! {

/// Walking a column from its first subterm, step by step to the end, visits every subterm once, in
/// ascending order.
pub proof fn lemma_walk(branch: Set<Seq<u8>>, visits: Seq<Seq<u8>>)
    requires
        is_clear(branch),
        visits.len() == 0 ==> lands(branch, anywhere(), None),
        visits.len() > 0 ==> lands(branch, anywhere(), Some(visits[0])) && lands(
            branch,
            after(visits.last()),
            None,
        ),
        forall|i: int|
            0 <= i < visits.len() - 1 ==> lands(
                branch,
                after(#[trigger] visits[i]),
                Some(visits[i + 1]),
            ),
    ensures
        visits.to_set() == subterms(branch),
        forall|i: int, j: int|
            #![trigger visits[i], visits[j]]
            0 <= i < j < visits.len() ==> lt(visits[i], visits[j]),
{
    if visits.len() == 0 {
        lemma_clear_lands(branch, anywhere(), None);
        assert(visits.to_set() =~= subterms(branch));
    } else {
        let n = visits.len() as int;
        lemma_clear_lands(branch, anywhere(), Some(visits[0]));
        lemma_clear_lands(branch, after(visits.last()), None);
        lemma_walk_front(branch, visits, n - 1);
        assert forall|k: Seq<u8>| subterms(branch).contains(k) implies visits.to_set().contains(k) by {
            lemma_lt_total(visits.last(), k);
            if k == visits.last() {
                assert(visits.contains(k));
            } else {
                assert(lt(k, visits[n - 1]));
            }
        }
        assert forall|k: Seq<u8>| visits.to_set().contains(k) implies subterms(branch).contains(k) by {
            let i = choose|i: int| 0 <= i < n && visits[i] == k;
            assert(is_subterm(branch, visits[i]));
        }
        assert(visits.to_set() =~= subterms(branch));
    }
}

/// The first steps of a walk visit what comes before the last of them.
proof fn lemma_walk_front(branch: Set<Seq<u8>>, visits: Seq<Seq<u8>>, m: int)
    requires
        is_clear(branch),
        0 <= m < visits.len(),
        lands(branch, anywhere(), Some(visits[0])),
        forall|i: int|
            0 <= i < visits.len() - 1 ==> lands(
                branch,
                after(#[trigger] visits[i]),
                Some(visits[i + 1]),
            ),
    ensures
        forall|i: int| 0 <= i <= m ==> is_subterm(branch, #[trigger] visits[i]),
        forall|i: int, j: int|
            #![trigger visits[i], visits[j]]
            0 <= i < j <= m ==> lt(visits[i], visits[j]),
        forall|k: Seq<u8>| #[trigger]
            is_subterm(branch, k) && lt(k, visits[m]) ==> visits.contains(k),
    decreases m,
{
    if m == 0 {
        lemma_clear_lands(branch, anywhere(), Some(visits[0]));
        assert forall|k: Seq<u8>| #[trigger] is_subterm(branch, k) && lt(k, visits[0]) implies visits.contains(
            k,
        ) by {
            lemma_lt_total(k, visits[0]);
        }
    } else {
        lemma_walk_front(branch, visits, m - 1);
        let a = visits[m - 1];
        assert(lands(branch, after(a), Some(visits[m - 1 + 1])));
        lemma_clear_lands(branch, after(a), Some(visits[m]));
        assert forall|i: int, j: int|
            #![trigger visits[i], visits[j]]
            0 <= i < j <= m implies lt(visits[i], visits[j]) by {
            if j == m && i < m - 1 {
                lemma_lt_trans(visits[i], a, visits[m]);
            }
        }
        assert forall|k: Seq<u8>| #[trigger] is_subterm(branch, k) && lt(k, visits[m]) implies visits.contains(
            k,
        ) by {
            lemma_lt_total(k, a);
            lemma_lt_total(k, visits[m]);
            if k == a {
                assert(visits[m - 1] == k);
            }
        }
    }
}

/// Seeking a complete subterm lands on the least subterm that is at least as great, and on the
/// subterm itself where the column has it.
pub proof fn lemma_seek(branch: Set<Seq<u8>>, target: Seq<u8>, at: Option<Seq<u8>>)
    requires
        is_clear(branch),
        is_term(target),
        lands(branch, at_least(target), at),
    ensures
        match at {
            Some(k) => {
                &&& is_subterm(branch, k)
                &&& !lt(k, target)
                &&& forall|s: Seq<u8>| #[trigger]
                    is_subterm(branch, s) && !lt(s, target) ==> s == k || lt(k, s)
            },
            None => forall|s: Seq<u8>| #[trigger] is_subterm(branch, s) ==> lt(s, target),
        },
        is_subterm(branch, target) ==> at == Some(target),
{
    lemma_clear_lands(branch, at_least(target), at);
    lemma_lt_total(target, target);
    match at {
        Some(k) => {
            if is_prefix(k, target) {
                lemma_prefix_free(1, k, target);
            }
            lemma_lt_total(k, target);
        },
        None => {},
    }
}

/// The encoding, shape by shape: an arity is followed by that many terms, a variable is one byte,
/// and a symbol's tag is followed by its payload.
pub proof fn lemma_term_shape(w: Seq<u8>)
    requires
        w.len() > 0,
    ensures
        w[0] < 0x40 ==> (is_term(w) <==> exists|args: Seq<Seq<u8>>|
            args.len() == w[0] && #[trigger] all_terms(args) && w == seq![w[0]] + joined(args)),
        w[0] >= 0x40 ==> (is_term(w) <==> w.len() == 1 + payload_of(w[0])),
{
    let tag = seq![w[0]];
    let rest = w.skip(1);
    assert(w =~= tag + rest);
    assert(tag.drop_last() =~= Seq::<u8>::empty());
    assert(run((1, 0), tag) == crate::term::step((1, 0), w[0])) by {
        reveal_with_fuel(run, 2);
    }
    lemma_run_concat((1, 0), tag, rest);
    if rest.len() > 0 {
        assert(w.drop_last() =~= tag + rest.drop_last());
        lemma_run_concat((1, 0), tag, rest.drop_last());
    } else {
        assert(w.drop_last() =~= Seq::<u8>::empty());
    }
    if w[0] < 0x40 {
        let n = w[0] as nat;
        assert(is_term(w) == spells(n, rest));
        if spells(n, rest) {
            let args = lemma_spelled_columns(n, rest);
            assert(w == seq![w[0]] + joined(args));
        }
        if exists|args: Seq<Seq<u8>>|
            args.len() == w[0] && #[trigger] all_terms(args) && w == seq![w[0]] + joined(args) {
            let args = choose|args: Seq<Seq<u8>>|
                args.len() == w[0] && #[trigger] all_terms(args) && w == seq![w[0]] + joined(args);
            assert(rest =~= joined(args));
            lemma_joined_spells(args);
        }
    } else {
        let p = payload_of(w[0]);
        if rest.len() <= p {
            lemma_run_payload((0, p), rest);
            if rest.len() > 0 {
                lemma_run_payload((0, p), rest.drop_last());
            }
        } else {
            let front = rest.take(p as int);
            assert(is_prefix(front, rest.drop_last())) by {
                assert(front =~= rest.drop_last().take(p as int));
            }
            lemma_run_payload((0, p), front);
            let more = rest.drop_last().skip(p as int);
            assert(rest.drop_last() =~= front + more);
            lemma_run_concat((0, p), front, more);
            crate::term::lemma_run_done(more);
        }
    }
}

/// What spells `n` subterms splits into them.
proof fn lemma_spelled_columns(n: nat, w: Seq<u8>) -> (cols: Seq<Seq<u8>>)
    requires
        spells(n, w),
    ensures
        cols.len() == n,
        all_terms(cols),
        joined(cols) == w,
    decreases n,
{
    if n == 0 {
        assert(run((0, 0), Seq::<u8>::empty()) == (0nat, 0nat));
        if w.len() > 0 {
            crate::term::lemma_run_done(w.drop_last());
        }
        assert(w =~= Seq::<u8>::empty());
        let cols = Seq::<Seq<u8>>::empty();
        assert(joined(cols) =~= w);
        cols
    } else {
        let m = (n - 1) as nat;
        crate::term::lemma_holds_fewer(m, 1, w);
        assert(w.take(w.len() as int) =~= w);
        let i = lemma_first_complete(m, w, w.len() as int);
        let front = w.take(i);
        let last = w.skip(i);
        assert(w =~= front + last);
        crate::term::lemma_holds_rest(m, 1, front, last);
        if last.len() > 0 {
            assert(w.drop_last() =~= front + last.drop_last());
            crate::term::lemma_holds_rest(m, 1, front, last.drop_last());
        }
        let init = lemma_spelled_columns(m, front);
        let cols = init.push(last);
        assert(cols.drop_last() =~= init);
        assert forall|j: int| 0 <= j < cols.len() implies is_term(#[trigger] cols[j]) by {
            if j < init.len() {
                assert(cols[j] == init[j]);
            }
        }
        cols
    }
}

/// Where the first `n` subterms end.
pub proof fn lemma_first_complete(n: nat, w: Seq<u8>, i: int) -> (at: int)
    requires
        0 <= i <= w.len(),
        holds(n, w.take(i)),
    ensures
        0 <= at <= i,
        spells(n, w.take(at)),
    decreases i,
{
    if i == 0 {
        assert(w.take(0).len() == 0);
        0
    } else if holds(n, w.take(i - 1)) {
        lemma_first_complete(n, w, i - 1)
    } else {
        assert(w.take(i).drop_last() =~= w.take(i - 1));
        i
    }
}

/// Where every value below a prefix has `n` columns after it, every path below the prefix goes on
/// until they are complete.
pub proof fn lemma_facts_whole(values: Set<Seq<u8>>, prefix: Seq<u8>, n: nat)
    requires
        forall|v: Seq<u8>| #[trigger]
            values.contains(v) && is_prefix(prefix, v) ==> exists|cols: Seq<Seq<u8>>| #[trigger]
                starts_with(prefix, n, v, cols),
    ensures
        has_columns(prefixes(values), prefix, n),
{
    let paths = prefixes(values);
    assert forall|w: Seq<u8>| #[trigger]
        paths.contains(prefix + w) && !holds(n, w) implies has_child(
        paths,
        prefix + w,
    ) by {
        let v = choose|v: Seq<u8>| #[trigger]
            values.contains(v) && is_prefix(prefix + w, v);
        lemma_rest_prefix(prefix, w, v);
        let cols = choose|cols: Seq<Seq<u8>>| #[trigger]
            starts_with(prefix, n, v, cols);
        lemma_rest_prefix(prefix, joined(cols), v);
        lemma_joined_spells(cols);
        let rest = v.skip(prefix.len() as int);
        lemma_holds_extend(n, joined(cols), rest);
        assert(w.len() < rest.len()) by {
            if w.len() == rest.len() {
                assert(w =~= rest);
            }
        }
        let b = rest[w.len() as int];
        let more = (prefix + w).push(b);
        assert(more =~= v.take(more.len() as int));
        assert(is_prefix(more, v));
        assert(paths.contains(more));
    }
}

/// A trie of whole facts is read whole: where every value below the prefix has all its columns, and
/// refers back only to variables introduced before, the relation can be read column by column.
pub proof fn lemma_facts_readable(values: Set<Seq<u8>>, r: Relation)
    requires
        r.paths == prefixes(values),
        forall|v: Seq<u8>| #[trigger]
            values.contains(v) && is_prefix(r.prefix, v) ==> exists|cols: Seq<Seq<u8>>| #[trigger]
                starts_with(r.prefix, r.vars.len(), v, cols) && well_scoped(cols),
    ensures
        is_scoped(r),
        is_whole(r),
{
    let n = r.vars.len();
    lemma_prefixes_closed(values);
    lemma_facts_whole(values, r.prefix, n);
    assert forall|cols: Seq<Seq<u8>>|
        cols.len() <= n && #[trigger] columns_at(r.paths, r.prefix, cols) implies well_scoped(cols) by {
        let v = choose|v: Seq<u8>| #[trigger]
            values.contains(v) && is_prefix(r.prefix + joined(cols), v);
        lemma_rest_prefix(r.prefix, joined(cols), v);
        let fact = choose|fact: Seq<Seq<u8>>| #[trigger]
            starts_with(r.prefix, n, v, fact) && well_scoped(fact);
        lemma_rest_prefix(r.prefix, joined(fact), v);
        let m = cols.len() as int;
        let front = fact.take(m);
        let rest = v.skip(r.prefix.len() as int);
        lemma_joined_take(fact, m);
        lemma_prefix_of_prefix(joined(front), joined(fact), rest);
        assert forall|j: int| 0 <= j < m implies is_term(#[trigger] front[j]) by {
            assert(front[j] == fact[j]);
        }
        lemma_columns_unique(cols, front, rest);
        lemma_well_scoped_take(fact, m);
    }
}

/// In a trie that holds nothing but the prefixes of its values, every fact is stored.
pub proof fn lemma_facts_stored(values: Set<Seq<u8>>, r: Relation)
    requires
        r.paths == prefixes(values),
    ensures
        all_stored(values, r),
{
    assert forall|cols: Seq<Seq<u8>>|
        cols.len() == r.vars.len() && #[trigger] columns_at(r.paths, r.prefix, cols) implies exists|
        v: Seq<u8>,
    | #[trigger]
        values.contains(v) && starts_with(r.prefix, r.vars.len(), v, cols) by {
        let v = choose|v: Seq<u8>| #[trigger]
            values.contains(v) && is_prefix(r.prefix + joined(cols), v);
        assert(starts_with(r.prefix, r.vars.len(), v, cols));
    }
}

/// An order that is compatible with every factor's columns can be followed, as long as every
/// ordered variable is some factor's column.
pub proof fn lemma_compatible_order(factors: Seq<Factor>, var_order: Seq<usize>, nvars: nat)
    requires
        lists_vars(factors, var_order, nvars),
        forall|f: int| 0 <= f < factors.len() ==> in_order((#[trigger] factors[f]).cols@, var_order),
        forall|i: int|
            0 <= i < var_order.len() ==> is_column(factors, #[trigger] var_order[i]),
    ensures
        can_follow(factors, var_order),
{
    assert forall|i: int| 0 <= i < var_order.len() implies #[trigger] is_led(
        factors,
        var_order,
        i,
    ) by {
        let v = var_order[i];
        assert(is_column(factors, v));
        let f = choose|f: int| 0 <= f < factors.len() && (#[trigger] factors[f]).cols@.contains(v);
        let cols = factors[f].cols@;
        let c0 = choose|c: int| 0 <= c < cols.len() && cols[c] == v;
        let c = lemma_first_place(cols, v, c0);
        assert forall|b: int| 0 <= b < c implies ordered_before(
            var_order,
            i,
            #[trigger] factors[f].cols@[b],
        ) by {
            assert(ordered_before(var_order, var_order.len() as int, factors[f].cols@[b]));
            let j = choose|j: int|
                0 <= j < var_order.len() && #[trigger] var_order[j] == factors[f].cols@[b];
            assert(in_order(factors[f].cols@, var_order));
            assert(cols[b] == var_order[j] && cols[c] == var_order[i]);
            assert(j <= i);
        }
        assert(leads(factors, var_order, i, f, c));
    }
}

/// Variable `v` is a column of some factor.
pub open spec fn is_column(factors: Seq<Factor>, v: usize) -> bool {
    exists|f: int| 0 <= f < factors.len() && (#[trigger] factors[f]).cols@.contains(v)
}

proof fn lemma_first_place(cols: Seq<usize>, v: usize, c: int) -> (first: int)
    requires
        0 <= c < cols.len(),
        cols[c] == v,
    ensures
        0 <= first <= c,
        cols[first] == v,
        forall|b: int| 0 <= b < first ==> cols[b] != v,
    decreases c,
{
    if exists|b: int| 0 <= b < c && cols[b] == v {
        let b = choose|b: int| 0 <= b < c && cols[b] == v;
        lemma_first_place(cols, v, b)
    } else {
        c
    }
}

/// The answers of a join do not depend on the order of its variables, only on which are listed.
pub proof fn lemma_order_irrelevant(
    paths: Set<Seq<u8>>,
    factors: Seq<Factor>,
    a: Seq<usize>,
    b: Seq<usize>,
    nvars: nat,
    row: Seq<Seq<u8>>,
)
    requires
        a.to_set() == b.to_set(),
    ensures
        is_answer(paths, factors, a, nvars, row) == is_answer(paths, factors, b, nvars, row),
{
    assert forall|v: usize| #[trigger] ordered_before(a, a.len() as int, v) == ordered_before(
        b,
        b.len() as int,
        v,
    ) by {
        assert(ordered_before(a, a.len() as int, v) == a.to_set().contains(v));
        assert(ordered_before(b, b.len() as int, v) == b.to_set().contains(v));
    }
}

/// The relations in another order.
pub open spec fn rearranged(rels: Seq<Relation>, order: Seq<usize>) -> Seq<Relation> {
    Seq::new(order.len(), |p: int| rels[order[p] as int])
}

/// The order of the factors changes no answer of the unification join.
pub proof fn lemma_factor_order(
    rels: Seq<Relation>,
    order: Seq<usize>,
    nvars: nat,
    row: Seq<Option<Seq<u8>>>,
)
    requires
        is_column_order(order, rels.len()),
        rels.len() <= usize::MAX,
    ensures
        is_unifier_row(rearranged(rels, order), nvars, row) == is_unifier_row(rels, nvars, row),
{
    let other = rearranged(rels, order);
    if is_unifier_row(rels, nvars, row) {
        lemma_rearranged_row(rels, order, nvars, row);
    }
    if is_unifier_row(other, nvars, row) {
        let back = lemma_has_inverse(order, rels.len());
        lemma_back_order(back, order, rels.len());
        assert(rearranged(other, back) =~= rels) by {
            assert forall|f: int| 0 <= f < rels.len() implies rearranged(other, back)[f] == rels[f] by {
                assert(order[back[f] as int] == f);
            }
        }
        lemma_rearranged_row(other, back, nvars, row);
    }
}

proof fn lemma_rearranged_row(
    rels: Seq<Relation>,
    order: Seq<usize>,
    nvars: nat,
    row: Seq<Option<Seq<u8>>>,
)
    requires
        is_column_order(order, rels.len()),
        is_unifier_row(rels, nvars, row),
    ensures
        is_unifier_row(rearranged(rels, order), nvars, row),
{
    let other = rearranged(rels, order);
    let choice = choose|choice: Seq<Seq<Seq<u8>>>| #[trigger]
        is_choice(rels, choice) && gives(rels, choice, nvars, row);
    let picks = Seq::new(order.len(), |p: int| choice[order[p] as int]);
    assert(is_choice(other, picks)) by {
        assert forall|p: int| 0 <= p < other.len() implies (#[trigger] picks[p]).len()
            == other[p].vars.len() && columns_at(other[p].paths, other[p].prefix, picks[p]) by {
            assert(choice[order[p] as int].len() == rels[order[p] as int].vars.len());
        }
    }
    assert forall|q: Assignment| #[trigger] solves(other, picks, q) == solves(rels, choice, q) by {
        if solves(rels, choice, q) {
            assert forall|p: int| 0 <= p < other.len() implies holds_of(
                other[p].vars,
                #[trigger] picks[p],
                q,
            ) by {
                assert(holds_of(rels[order[p] as int].vars, choice[order[p] as int], q));
            }
        }
        if solves(other, picks, q) {
            assert forall|f: int| 0 <= f < rels.len() implies holds_of(
                rels[f].vars,
                #[trigger] choice[f],
                q,
            ) by {
                let p = lemma_column_place(order, rels.len(), f);
                assert(holds_of(other[p].vars, picks[p], q));
            }
        }
    }
    lemma_same_gives(rels, choice, other, picks, nvars, row);
}

/// The order of the factors changes no answer of the ground join.
pub proof fn lemma_ground_factor_order(
    paths: Set<Seq<u8>>,
    factors: Seq<Factor>,
    order: Seq<usize>,
    var_order: Seq<usize>,
    nvars: nat,
    row: Seq<Seq<u8>>,
)
    requires
        is_column_order(order, factors.len()),
    ensures
        is_answer(
            paths,
            Seq::new(order.len(), |p: int| factors[order[p] as int]),
            var_order,
            nvars,
            row,
        ) == is_answer(paths, factors, var_order, nvars, row),
{
    let other = Seq::new(order.len(), |p: int| factors[order[p] as int]);
    if is_answer(paths, other, var_order, nvars, row) {
        assert forall|f: int| 0 <= f < factors.len() implies columns_at(
            paths,
            (#[trigger] factors[f]).prefix@,
            picked(factors[f].cols@, row),
        ) by {
            let p = lemma_column_place(order, factors.len(), f);
            assert(other[p] == factors[f]);
        }
    }
    if is_answer(paths, factors, var_order, nvars, row) {
        assert forall|p: int| 0 <= p < other.len() implies columns_at(
            paths,
            (#[trigger] other[p]).prefix@,
            picked(other[p].cols@, row),
        ) by {
            assert(order[p] < factors.len());
            assert(other[p] == factors[order[p] as int]);
        }
    }
}

/// The values below the prefix are canonical facts of `n` columns, and nothing more.
pub open spec fn values_canonical(values: Set<Seq<u8>>, prefix: Seq<u8>, n: nat) -> bool {
    forall|v: Seq<u8>| #[trigger]
        values.contains(v) && is_prefix(prefix, v) && v != prefix ==> exists|cols: Seq<Seq<u8>>| #[trigger]
            is_canonical(cols) && cols.len() == n && v == prefix + joined(cols)
}

/// Re-indexing loses and merges no fact: there are as many re-indexed facts as facts.
pub proof fn lemma_reindex_count(
    values: Set<Seq<u8>>,
    prefix: Seq<u8>,
    order: Seq<usize>,
    keys: Set<Seq<u8>>,
)
    requires
        values.finite(),
        order.len() <= usize::MAX,
        is_column_order(order, order.len()),
        values_canonical(values, prefix, order.len()),
        forall|key: Seq<u8>| #[trigger]
            keys.contains(key) == is_moved_fact(values, prefix, order, key),
    ensures
        keys.finite(),
        keys.len() == values.filter(|v: Seq<u8>| is_prefix(prefix, v) && v != prefix).len(),
{
    let n = order.len();
    let facts = values.filter(|v: Seq<u8>| is_prefix(prefix, v) && v != prefix);
    let key_of = |v: Seq<u8>| re_emitted(canonical_columns(prefix, n, v), order);
    values.lemma_len_filter(|v: Seq<u8>| is_prefix(prefix, v) && v != prefix);
    assert forall|v: Seq<u8>| facts.contains(v) implies {
        let cols = #[trigger] canonical_columns(prefix, n, v);
        is_canonical(cols) && cols.len() == n && v == prefix + joined(cols)
    } by {
        assert(values.contains(v));
    }
    assert(vstd::relations::injective_on(key_of, facts)) by {
        assert forall|u: Seq<u8>, v: Seq<u8>|
            facts.contains(u) && facts.contains(v) && #[trigger] key_of(u) == #[trigger] key_of(
                v,
            ) implies u == v by {
            lemma_reemit_apart(
                canonical_columns(prefix, n, u),
                canonical_columns(prefix, n, v),
                order,
            );
        }
    }
    assert(facts.map(key_of) =~= keys) by {
        assert forall|key: Seq<u8>| facts.map(key_of).contains(key) == keys.contains(key) by {
            if facts.map(key_of).contains(key) {
                let v = choose|v: Seq<u8>| facts.contains(v) && key_of(v) == key;
                let cols = canonical_columns(prefix, n, v);
                assert(v.take(v.len() as int) =~= v);
                assert(values.contains(v) && starts_with(prefix, n, v, cols));
                assert(is_moved_fact(values, prefix, order, key));
            }
            if keys.contains(key) {
                assert(is_moved_fact(values, prefix, order, key));
                let (v, cols) = choose|v: Seq<u8>, cols: Seq<Seq<u8>>| #[trigger]
                    values.contains(v) && v != prefix && #[trigger] starts_with(
                        prefix,
                        n,
                        v,
                        cols,
                    ) && key == re_emitted(cols, order);
                lemma_rest_prefix(prefix, joined(cols), v);
                assert(facts.contains(v));
                let own = canonical_columns(prefix, n, v);
                assert(v.skip(prefix.len() as int) =~= joined(own));
                lemma_prefix_refl(joined(own));
                lemma_columns_unique(cols, own, joined(own));
                assert(key_of(v) == key);
            }
        }
    }
    vstd::set_lib::lemma_map_size(facts, keys, key_of);
}

/// The columns of the fact `v` below `prefix`.
pub open spec fn canonical_columns(prefix: Seq<u8>, n: nat, v: Seq<u8>) -> Seq<Seq<u8>> {
    choose|cols: Seq<Seq<u8>>| #[trigger]
        is_canonical(cols) && cols.len() == n && v == prefix + joined(cols)
}

/// No fact of the relation has a stored variable as a column.
pub open spec fn is_concrete(r: Relation) -> bool {
    forall|cols: Seq<Seq<u8>>|
        cols.len() == r.vars.len() && #[trigger] columns_at(r.paths, r.prefix, cols) ==> forall|
            j: int,
        |
            0 <= j < cols.len() ==> !is_wild(#[trigger] cols[j])
}

/// Over facts without stored variables unification is equality: the unification join has exactly the
/// answers of the ground join, all of them ground.
pub proof fn lemma_ground_coincidence(
    paths: Set<Seq<u8>>,
    factors: Seq<Factor>,
    var_order: Seq<usize>,
    nvars: nat,
    row: Seq<Option<Seq<u8>>>,
)
    requires
        lists_vars(factors, var_order, nvars),
        nvars <= usize::MAX,
        forall|v: usize| v < nvars ==> is_column(factors, v),
        forall|f: int|
            0 <= f < factors.len() ==> is_concrete(#[trigger] query_relations(paths, factors)[f]),
    ensures
        is_unifier_row(query_relations(paths, factors), nvars, row) == exists|g: Seq<Seq<u8>>|
            row == #[trigger] all_ground(g) && is_answer(paths, factors, var_order, nvars, g),
{
    let rels = query_relations(paths, factors);
    if is_unifier_row(rels, nvars, row) {
        let choice = choose|choice: Seq<Seq<Seq<u8>>>| #[trigger]
            is_choice(rels, choice) && gives(rels, choice, nvars, row);
        let q = choose|q: Assignment| #[trigger] solves(rels, choice, q);
        let g = Seq::new(nvars, |v: int| q(v));
        lemma_concrete_choice(paths, factors, var_order, nvars, choice, q);
        assert(row =~= all_ground(g)) by {
            assert forall|v: int| 0 <= v < nvars implies row[v] == all_ground(g)[v] by {
                assert(settles(rels, choice, v, row[v]));
                assert(forces(rels, choice, v, q(v))) by {
                    lemma_concrete_forces(paths, factors, nvars, choice, q, v as usize);
                }
            }
        }
    }
    if exists|g: Seq<Seq<u8>>|
        row == #[trigger] all_ground(g) && is_answer(paths, factors, var_order, nvars, g) {
        let g = choose|g: Seq<Seq<u8>>|
            row == #[trigger] all_ground(g) && is_answer(paths, factors, var_order, nvars, g);
        let choice = Seq::new(rels.len(), |f: int| picked(factors[f].cols@, g));
        let q: Assignment = |v: int| g[v];
        assert(is_choice(rels, choice)) by {
            assert forall|f: int| 0 <= f < rels.len() implies (#[trigger] choice[f]).len()
                == rels[f].vars.len() && columns_at(
                rels[f].paths,
                rels[f].prefix,
                choice[f],
            ) by {
                assert(factors[f].cols@.len() == rels[f].vars.len());
            }
        }
        assert(solves(rels, choice, q)) by {
            assert forall|f: int| 0 <= f < rels.len() implies holds_of(
                rels[f].vars,
                #[trigger] choice[f],
                q,
            ) by {
                lemma_concrete_fact(rels[f], choice[f]);
                assert forall|j: int| 0 <= j < choice[f].len() implies q(rels[f].vars[j] as int)
                    == #[trigger] choice[f][j] by {}
            }
        }
        assert(gives(rels, choice, nvars, row)) by {
            assert forall|v: int| 0 <= v < nvars implies settles(
                rels,
                choice,
                v,
                #[trigger] row[v],
            ) by {
                assert(row[v] == Some(g[v]));
                lemma_concrete_forces(paths, factors, nvars, choice, q, v as usize);
            }
        }
    }
}

/// A fact of a concrete relation has no stored variable.
proof fn lemma_concrete_fact(r: Relation, cols: Seq<Seq<u8>>)
    requires
        is_concrete(r),
        cols.len() == r.vars.len(),
        columns_at(r.paths, r.prefix, cols),
    ensures
        forall|j: int| 0 <= j < cols.len() ==> !is_wild(#[trigger] cols[j]),
{
}

/// Concrete facts force every variable that is a column.
proof fn lemma_concrete_forces(
    paths: Set<Seq<u8>>,
    factors: Seq<Factor>,
    nvars: nat,
    choice: Seq<Seq<Seq<u8>>>,
    q: Assignment,
    v: usize,
)
    requires
        is_column(factors, v),
        forall|f: int|
            0 <= f < factors.len() ==> is_concrete(#[trigger] query_relations(paths, factors)[f]),
        is_choice(query_relations(paths, factors), choice),
        solves(query_relations(paths, factors), choice, q),
    ensures
        forces(query_relations(paths, factors), choice, v as int, q(v as int)),
{
    let rels = query_relations(paths, factors);
    let f = choose|f: int| 0 <= f < factors.len() && (#[trigger] factors[f]).cols@.contains(v);
    let c = choose|c: int| 0 <= c < factors[f].cols@.len() && factors[f].cols@[c] == v;
    assert(is_concrete(rels[f]));
    assert(choice[f].len() == rels[f].vars.len());
    lemma_concrete_fact(rels[f], choice[f]);
    assert(!is_wild(choice[f][c]));
    assert forall|p: Assignment| #[trigger] solves(rels, choice, p) implies p(v as int) == q(
        v as int,
    ) by {
        assert(holds_of(rels[f].vars, choice[f], p));
        assert(holds_of(rels[f].vars, choice[f], q));
        assert(p(rels[f].vars[c] as int) == choice[f][c]);
        assert(q(rels[f].vars[c] as int) == choice[f][c]);
    }
}

/// What satisfies a choice of concrete facts is an answer of the ground join.
proof fn lemma_concrete_choice(
    paths: Set<Seq<u8>>,
    factors: Seq<Factor>,
    var_order: Seq<usize>,
    nvars: nat,
    choice: Seq<Seq<Seq<u8>>>,
    q: Assignment,
)
    requires
        lists_vars(factors, var_order, nvars),
        nvars <= usize::MAX,
        forall|v: usize| v < nvars ==> is_column(factors, v),
        forall|f: int|
            0 <= f < factors.len() ==> is_concrete(#[trigger] query_relations(paths, factors)[f]),
        is_choice(query_relations(paths, factors), choice),
        solves(query_relations(paths, factors), choice, q),
    ensures
        is_answer(paths, factors, var_order, nvars, Seq::new(nvars, |v: int| q(v))),
{
    let rels = query_relations(paths, factors);
    let g = Seq::new(nvars, |v: int| q(v));
    assert forall|f: int, c: int|
        0 <= f < factors.len() && 0 <= c < factors[f].cols@.len() implies g[(
    #[trigger] factors[f].cols@[c]) as int] == choice[f][c] && is_term(choice[f][c]) by {
        assert(is_concrete(rels[f]));
        assert(choice[f].len() == rels[f].vars.len());
        lemma_concrete_fact(rels[f], choice[f]);
        assert(holds_of(rels[f].vars, choice[f], q));
        assert(!is_wild(choice[f][c]));
        assert(q(rels[f].vars[c] as int) == choice[f][c]);
        assert(ordered_before(var_order, var_order.len() as int, factors[f].cols@[c]));
        assert(columns_at(rels[f].paths, rels[f].prefix, choice[f]));
    }
    assert forall|v: usize|
        #![trigger g[v as int]]
        v < nvars implies if ordered_before(var_order, var_order.len() as int, v) {
        is_term(g[v as int])
    } else {
        g[v as int].len() == 0
    } by {
        assert(is_column(factors, v));
        let f = choose|f: int| 0 <= f < factors.len() && (#[trigger] factors[f]).cols@.contains(v);
        let c = choose|c: int| 0 <= c < factors[f].cols@.len() && factors[f].cols@[c] == v;
        assert(g[factors[f].cols@[c] as int] == choice[f][c]);
        assert(ordered_before(var_order, var_order.len() as int, factors[f].cols@[c]));
    }
    assert forall|f: int|
        0 <= f < factors.len() implies columns_at(
        paths,
        (#[trigger] factors[f]).prefix@,
        picked(factors[f].cols@, g),
    ) by {
        assert(choice[f].len() == rels[f].vars.len());
        assert(picked(factors[f].cols@, g) =~= choice[f]) by {
            assert forall|c: int| 0 <= c < choice[f].len() implies picked(
                factors[f].cols@,
                g,
            )[c] == choice[f][c] by {
                assert(g[factors[f].cols@[c] as int] == choice[f][c]);
            }
        }
        assert(columns_at(rels[f].paths, rels[f].prefix, choice[f]));
    }
}

/// Some assignment satisfies the facts of factors `a` and `b`.
pub open spec fn pair_solvable(
    rels: Seq<Relation>,
    choice: Seq<Seq<Seq<u8>>>,
    a: int,
    b: int,
) -> bool {
    exists|q: Assignment| #[trigger]
        holds_of(rels[a].vars, choice[a], q) && holds_of(rels[b].vars, choice[b], q)
}

/// Every two facts can be satisfied together.
pub open spec fn pairwise_solvable(rels: Seq<Relation>, choice: Seq<Seq<Seq<u8>>>) -> bool {
    forall|a: int, b: int|
        0 <= a < rels.len() && 0 <= b < rels.len() ==> #[trigger] pair_solvable(rels, choice, a, b)
}

/// One set of bindings has to be threaded through all factors: facts that agree pair by pair need
/// not agree together. Here `x = y` goes with `y = a` and with `x = b`, and those two go together,
/// but not all three, whatever the two different values are.
pub proof fn lemma_threading_necessary(
    rels: Seq<Relation>,
    choice: Seq<Seq<Seq<u8>>>,
    x: usize,
    y: usize,
    a: Seq<u8>,
    b: Seq<u8>,
)
    requires
        x != y,
        a != b,
        !is_wild(a),
        !is_wild(b),
        rels.len() == 3,
        choice == seq![seq![seq![0xC0u8], seq![0x80u8]], seq![a], seq![b]],
        rels[0].vars == seq![x, y],
        rels[1].vars == seq![y],
        rels[2].vars == seq![x],
    ensures
        pairwise_solvable(rels, choice),
        forall|q: Assignment| !#[trigger] solves(rels, choice, q),
{
    let same = seq![seq![0xC0u8], seq![0x80u8]];
    assert(choice[0] == same && choice[1] == seq![a] && choice[2] == seq![b]);
    assert forall|q: Assignment| #[trigger] holds_of(rels[0].vars, choice[0], q) == (q(x as int)
        == q(y as int)) by {
        assert(crate::fact::new_vars(same, 0) == 0);
        assert(names(same, 0, 0));
        assert(names(same, 1, 0));
        assert(rels[0].vars[0] == x && rels[0].vars[1] == y);
        if q(x as int) == q(y as int) {
            assert forall|j: int| 0 <= j < same.len() implies is_wild(#[trigger] same[j]) by {}
        }
    }
    assert forall|q: Assignment| #[trigger] holds_of(rels[1].vars, choice[1], q) == (q(y as int)
        == a) by {
        assert(choice[1][0] == a && rels[1].vars[0] == y);
    }
    assert forall|q: Assignment| #[trigger] holds_of(rels[2].vars, choice[2], q) == (q(x as int)
        == b) by {
        assert(choice[2][0] == b && rels[2].vars[0] == x);
    }
    let qa: Assignment = |v: int| a;
    let qb: Assignment = |v: int| b;
    let qab: Assignment = |v: int|
        if v == y {
            a
        } else {
            b
        };
    assert forall|m: int, n: int| 0 <= m < rels.len() && 0 <= n
        < rels.len() implies #[trigger] pair_solvable(rels, choice, m, n) by {
        let q = if m != 2 && n != 2 {
            qa
        } else if m != 1 && n != 1 {
            qb
        } else {
            qab
        };
        assert(holds_of(rels[m].vars, choice[m], q));
        assert(holds_of(rels[n].vars, choice[n], q));
    }
    assert forall|q: Assignment| !#[trigger] solves(rels, choice, q) by {
        if solves(rels, choice, q) {
            assert(holds_of(rels[0].vars, choice[0], q));
            assert(holds_of(rels[1].vars, choice[1], q));
            assert(holds_of(rels[2].vars, choice[2], q));
        }
    }
}

/// A stored variable unifies with anything: a fact whose columns are all different stored variables
/// holds of every assignment.
pub proof fn lemma_wildcards_match(vars: Seq<usize>, cols: Seq<Seq<u8>>, q: Assignment)
    requires
        forall|j: int| 0 <= j < cols.len() ==> is_new(#[trigger] cols[j]),
    ensures
        holds_of(vars, cols, q),
{
    assert forall|j: int, k: int, s: int|
        0 <= j < cols.len() && 0 <= k < cols.len() && #[trigger] names(cols, j, s)
            && #[trigger] names(cols, k, s) implies q(vars[j] as int) == q(vars[k] as int) by {
        assert(is_new(cols[j]) && is_new(cols[k]));
        if j < k {
            lemma_new_vars_mono(cols, j + 1, k);
        } else if k < j {
            lemma_new_vars_mono(cols, k + 1, j);
        }
    }
}

/// A stored variable stands for one thing: a fact that names it in two columns holds only where the
/// two are equal.
pub proof fn lemma_coreference(
    vars: Seq<usize>,
    cols: Seq<Seq<u8>>,
    q: Assignment,
    j: int,
    k: int,
)
    requires
        holds_of(vars, cols, q),
        0 <= j < cols.len(),
        0 <= k < cols.len(),
        is_wild(cols[j]),
        is_wild(cols[k]),
        slot(cols, j) == slot(cols, k),
    ensures
        q(vars[j] as int) == q(vars[k] as int),
{
    assert(names(cols, j, slot(cols, j)));
    assert(names(cols, k, slot(cols, j)));
}

/// The columns of a conjunct refer back only to variables that the body's columns introduced before.
pub open spec fn refers_back(pat: Seq<u8>, base: nat) -> bool {
    let cols = columns_in(args_of(pat));
    forall|j: int|
        0 <= j < cols.len() && is_wild(#[trigger] cols[j]) && !is_new(cols[j]) ==> cols[j][0] - 0x80
            < base + new_vars(cols, j)
}

/// All the conjuncts that are read refer back only to variables introduced before.
pub open spec fn all_refer_back(rest: Seq<u8>, left: nat, base: nat) -> bool
    decreases left,
{
    let t = first_term(rest);
    left > 0 ==> refers_back(t, base) && all_refer_back(
        rest.skip(t.len() as int),
        (left - 1) as nat,
        base + conjunct_vars(t),
    )
}

/// The columns of the patterns are among `n` variables.
pub open spec fn all_below(pats: Seq<Pattern>, n: nat) -> bool {
    forall|f: int, c: int|
        #![trigger pats[f].cols[c]]
        0 <= f < pats.len() && 0 <= c < pats[f].cols.len() ==> pats[f].cols[c] < n
}

/// Every variable of a parsed body is counted, when its conjuncts refer back only to variables
/// introduced before.
pub proof fn lemma_body_counted(body: Seq<u8>, pats: Seq<Pattern>, nvars: nat)
    requires
        body_read(body) == Reading::Parsed(pats, nvars),
        all_refer_back(after_head(body), (body[0] - 1) as nat, 0),
    ensures
        all_below(pats, nvars),
{
    lemma_conjuncts_counted(
        after_head(body),
        (body[0] - 1) as nat,
        Seq::empty(),
        0,
        pats,
        nvars,
    );
}

proof fn lemma_conjuncts_counted(
    rest: Seq<u8>,
    left: nat,
    old_pats: Seq<Pattern>,
    base: nat,
    pats: Seq<Pattern>,
    nvars: nat,
)
    requires
        conjuncts_read(rest, left, old_pats, base) == Reading::Parsed(pats, nvars),
        all_refer_back(rest, left, base),
        all_below(old_pats, base),
        base <= 64 * (64 - left),
    ensures
        all_below(pats, nvars),
    decreases left,
{
    if left > 0 {
        let t = first_term(rest);
        lemma_has_first_term(rest);
        let args = args_of(t);
        lemma_has_args(t);
        let cols = columns_in(args);
        let pat = conjunct_of(t, base)->0;
        let more = old_pats.push(pat);
        let next = base + conjunct_vars(t);
        lemma_first_open(args, 0);
        assert(first_bad(cols, 0) == cols.len());
        lemma_all_wild(cols, 0);
        lemma_new_vars_bound(cols, cols.len() as int);
        assert forall|f: int, c: int|
            #![trigger more[f].cols[c]]
            0 <= f < more.len() && 0 <= c < more[f].cols.len() implies more[f].cols[c] < next by {
            if f < old_pats.len() {
                assert(more[f] == old_pats[f]);
                assert(old_pats[f].cols[c] < base);
            } else {
                assert(more[f] == pat);
                assert(pat.cols[c] == column_var(cols, base, c));
                assert(is_wild(cols[c]));
                lemma_new_vars_mono(cols, c + 1, cols.len() as int);
                lemma_new_vars_mono(cols, c, cols.len() as int);
                lemma_new_vars_bound(cols, c);
            }
        }
        lemma_conjuncts_counted(
            rest.skip(t.len() as int),
            (left - 1) as nat,
            more,
            next,
            pats,
            nvars,
        );
    }
}

/// What holds a subterm has one at its front.
proof fn lemma_has_first_term(w: Seq<u8>)
    requires
        holds(1, w),
    ensures
        is_term(first_term(w)),
        is_prefix(first_term(w), w),
{
    assert(w.take(w.len() as int) =~= w);
    let i = lemma_first_complete(1, w, w.len() as int);
    assert(is_prefix(w.take(i), w));
    assert(is_term(w.take(i)));
}

/// A term that starts with an arity tag has that many arguments.
proof fn lemma_has_args(t: Seq<u8>)
    requires
        is_term(t),
        t.len() > 0,
        t[0] < 0x40,
    ensures
        is_compound(t, args_of(t)),
{
    lemma_term_shape(t);
    let args = choose|args: Seq<Seq<u8>>|
        args.len() == t[0] && #[trigger] all_terms(args) && t == seq![t[0]] + joined(args);
    assert(t.take(t.len() as int) =~= t);
    assert(is_compound(t, args));
}

/// No column is bad, so all are variables.
proof fn lemma_all_wild(cols: Seq<Seq<u8>>, i: int)
    requires
        0 <= i <= cols.len(),
        first_bad(cols, i) == cols.len(),
    ensures
        forall|j: int| i <= j < cols.len() ==> is_wild(#[trigger] cols[j]),
    decreases cols.len() - i,
{
    if i < cols.len() {
        lemma_all_wild(cols, i + 1);
    }
}

} // verus!
