//! Conjunction bodies in plain terms: what the bytes of a body say of its factors.

use vstd::prelude::*;
use vstd::seq_lib::lemma_flatten_concat;
use crate::answers::{
    comes_of_facts, holds_facts, lemma_comes_of_facts, lemma_lists_values, lemma_relation_ready,
    lists_values, paths_of_values,
};
use crate::body::{
    after_head, are_factors, body_joinable, body_of, body_read, column_var, columns_in,
    conjunct_of, conjunct_vars, conjuncts_read, first_bad, first_open, is_compound,
    is_numbered_join, lead, lemma_args_unique, lemma_first_term, numbered, parse_body_factors,
    parse_pattern_factor, pattern_relations, read_body, unify_join_zipper_body, BodyRead, Pattern, Reading,
};
use crate::fact::{is_unifier_row, is_wild, new_vars};
use crate::factor::{joined, Factor};
use crate::ground::row_found;
use crate::meaning::{lemma_front_term, lemma_joined_flat, lemma_term_bytes};
use crate::order::is_prefix;
use crate::prepare::{
    all_joinable, all_read_whole, is_joinable, is_read_whole, query_relations,
};
use crate::term::{is_ground, is_term, lemma_var_is_term};
use crate::trie::PathTrie;
use crate::unify::{all_ground, unify_join_zipper};

verus! {

/// How many of the bytes are `0xC0`, each the introduction of a variable.
pub open spec fn new_bytes(s: Seq<u8>) -> nat {
    s.filter(|b: u8| b == 0xC0u8).len()
}

/// A pattern: terms without variables, the relation's head first, and then variables, one byte each.
pub open spec fn is_pattern(ground: Seq<Seq<u8>>, vars: Seq<u8>) -> bool {
    &&& 1 <= ground.len() + vars.len() < 0x40
    &&& forall|j: int|
        0 <= j < ground.len() ==> is_term(#[trigger] ground[j]) && is_ground(ground[j])
    &&& forall|j: int| 0 <= j < vars.len() ==> 0x80 <= #[trigger] vars[j] <= 0xC0
}

/// The bytes of a pattern up to its variables.
pub open spec fn pattern_front(ground: Seq<Seq<u8>>, vars: Seq<u8>) -> Seq<u8> {
    seq![(ground.len() + vars.len()) as u8] + ground.flatten()
}

/// The bytes of a pattern.
pub open spec fn pattern_bytes(ground: Seq<Seq<u8>>, vars: Seq<u8>) -> Seq<u8> {
    pattern_front(ground, vars) + vars
}

/// The bytes of each pattern.
pub open spec fn all_patterns(grounds: Seq<Seq<Seq<u8>>>, vars: Seq<Seq<u8>>) -> Seq<Seq<u8>> {
    Seq::new(grounds.len(), |i: int| pattern_bytes(grounds[i], vars[i]))
}

/// Each one is a pattern.
pub open spec fn are_patterns(grounds: Seq<Seq<Seq<u8>>>, vars: Seq<Seq<u8>>) -> bool {
    &&& vars.len() == grounds.len()
    &&& forall|i: int| 0 <= i < grounds.len() ==> is_pattern(#[trigger] grounds[i], vars[i])
}

/// The number of the variable that byte `j` of pattern `i`'s variables is. The byte `0x80 + n` is
/// variable `n`, and each `0xC0` is a new one: they are numbered in the order in which they stand in
/// the whole body.
pub open spec fn variable_number(vars: Seq<Seq<u8>>, i: int, j: int) -> int {
    if vars[i][j] == 0xC0 {
        new_bytes(vars.take(i).flatten() + vars[i].take(j)) as int
    } else {
        vars[i][j] - 0x80
    }
}

/// One factor for each pattern, in their order: its prefix is the pattern up to its variables, and
/// its columns are the pattern's variables by their numbers.
pub open spec fn factors_spell(
    factors: Seq<Factor>,
    grounds: Seq<Seq<Seq<u8>>>,
    vars: Seq<Seq<u8>>,
) -> bool {
    &&& factors.len() == grounds.len()
    &&& forall|i: int|
        0 <= i < factors.len() ==> {
            &&& (#[trigger] factors[i]).prefix@ == pattern_front(grounds[i], vars[i])
            &&& factors[i].cols@.len() == vars[i].len()
            &&& forall|j: int|
                0 <= j < vars[i].len() ==> #[trigger] factors[i].cols@[j] == variable_number(
                    vars,
                    i,
                    j,
                )
        }
}

/// The number of a variable byte in a pattern, when `base` variables come before the pattern.
pub open spec fn number_after(vars: Seq<u8>, base: nat, j: int) -> int {
    if vars[j] == 0xC0 {
        (base + new_bytes(vars.take(j))) as int
    } else {
        vars[j] - 0x80
    }
}

/// Each byte as a string of its own.
spec fn singles(s: Seq<u8>) -> Seq<Seq<u8>> {
    Seq::new(s.len(), |j: int| seq![s[j]])
}

proof fn lemma_singles(s: Seq<u8>)
    ensures
        singles(s).flatten() == s,
    decreases s.len(),
{
    if s.len() == 0 {
        assert(singles(s).flatten() =~= Seq::<u8>::empty());
        assert(s =~= Seq::<u8>::empty());
    } else {
        let front = s.drop_last();
        lemma_singles(front);
        assert(singles(s) =~= singles(front).push(seq![s.last()]));
        singles(front).lemma_flatten_push(seq![s.last()]);
        assert(front + seq![s.last()] =~= s);
    }
}

proof fn lemma_new_bytes(s: Seq<u8>, j: int)
    requires
        0 <= j <= s.len(),
    ensures
        new_bytes(s.take(j)) == new_vars(singles(s), j),
        new_bytes(s.take(j)) <= j,
    decreases j,
{
    reveal(Seq::filter);
    if j > 0 {
        lemma_new_bytes(s, j - 1);
        assert(s.take(j).drop_last() =~= s.take(j - 1));
        assert(s.take(j).last() == s[j - 1]);
        assert(singles(s)[j - 1] == seq![s[j - 1]]);
    }
}

proof fn lemma_first_open_at(args: Seq<Seq<u8>>, i: int, m: int)
    requires
        0 <= i <= m <= args.len(),
        forall|j: int| i <= j < m ==> is_ground(#[trigger] args[j]),
        m < args.len() ==> !is_ground(args[m]),
    ensures
        first_open(args, i) == m,
    decreases m - i,
{
    if i < m {
        assert(is_ground(args[i]));
        lemma_first_open_at(args, i + 1, m);
    }
}

proof fn lemma_first_bad_at(cols: Seq<Seq<u8>>, i: int, m: int)
    requires
        0 <= i <= m <= cols.len(),
        forall|j: int| i <= j < m ==> is_wild(#[trigger] cols[j]),
        m < cols.len() ==> !is_wild(cols[m]),
    ensures
        first_bad(cols, i) == m,
    decreases m - i,
{
    if i < m {
        assert(is_wild(cols[i]));
        lemma_first_bad_at(cols, i + 1, m);
    }
}

/// A term that is an arity and arguments has these arguments.
proof fn lemma_arguments(w: Seq<u8>, args: Seq<Seq<u8>>)
    requires
        args.len() < 0x40,
        forall|j: int| 0 <= j < args.len() ==> is_term(#[trigger] args[j]),
        w == seq![args.len() as u8] + args.flatten(),
    ensures
        is_term(w),
        is_compound(w, args),
        crate::body::args_of(w) == args,
{
    lemma_joined_flat(args);
    assert(w[0] == args.len());
    lemma_term_bytes(w);
    assert(seq![w[0]] + args.flatten() =~= w);
    assert(is_prefix(seq![w[0]] + joined(args), w)) by {
        assert(w =~= w.take(w.len() as int));
    }
    lemma_args_unique(w, args);
}

/// A pattern is a term, and as a conjunct it is a factor: its prefix is the pattern up to its
/// variables, and its columns are the variables by their numbers, of which `base` are given out
/// before it. It gives out one more for each introduction.
pub proof fn lemma_pattern(ground: Seq<Seq<u8>>, vars: Seq<u8>, base: nat)
    requires
        is_pattern(ground, vars),
        base <= usize::MAX - 64,
    ensures
        is_term(pattern_bytes(ground, vars)),
        match conjunct_of(pattern_bytes(ground, vars), base) {
            Some(pat) => {
                &&& pat.prefix == pattern_front(ground, vars)
                &&& pat.cols.len() == vars.len()
                &&& forall|j: int|
                    0 <= j < vars.len() ==> #[trigger] pat.cols[j] == number_after(vars, base, j)
            },
            None => false,
        },
        conjunct_vars(pattern_bytes(ground, vars)) == new_bytes(vars),
{
    let w = pattern_bytes(ground, vars);
    let cols = singles(vars);
    let args = ground + cols;
    lemma_singles(vars);
    lemma_flatten_concat(ground, cols);
    assert(w =~= seq![args.len() as u8] + args.flatten());
    assert forall|j: int| 0 <= j < vars.len() implies is_term(#[trigger] cols[j]) && is_wild(cols[j])
        && !is_ground(cols[j]) by {
        assert(0x80 <= vars[j] <= 0xC0);
        lemma_var_is_term(vars[j]);
    }
    assert forall|j: int| 0 <= j < args.len() implies is_term(#[trigger] args[j]) by {
        if j < ground.len() {
            assert(args[j] == ground[j]);
        } else {
            assert(args[j] == cols[j - ground.len()]);
        }
    }
    lemma_arguments(w, args);
    let m = ground.len() as int;
    assert forall|j: int| 0 <= j < m implies is_ground(#[trigger] args[j]) by {
        assert(args[j] == ground[j]);
    }
    if m < args.len() {
        assert(args[m] == cols[0]);
    }
    lemma_first_open_at(args, 0, m);
    assert(lead(args) == m);
    assert(columns_in(args) =~= cols);
    assert(args.take(m) =~= ground);
    lemma_first_bad_at(cols, 0, cols.len() as int);
    lemma_joined_flat(ground);
    let pat = conjunct_of(w, base)->0;
    assert forall|j: int| 0 <= j < vars.len() implies #[trigger] pat.cols[j] == number_after(
        vars,
        base,
        j,
    ) by {
        lemma_new_bytes(vars, j);
        assert(pat.cols[j] == column_var(cols, base, j));
        assert(cols[j] == seq![vars[j]]);
        assert(0x80 <= vars[j] <= 0xC0);
    }
    lemma_new_bytes(vars, vars.len() as int);
    assert(vars.take(vars.len() as int) =~= vars);
}

/// A conjunct that is no compound term, or that has an argument which is not a single variable at or
/// after one with a variable in it, is no factor.
pub proof fn lemma_no_pattern(w: Seq<u8>, args: Seq<Seq<u8>>, a: int, c: int, base: nat)
    requires
        is_term(w),
        w[0] < 0x40 ==> {
            &&& w == seq![args.len() as u8] + args.flatten()
            &&& args.len() == w[0]
            &&& forall|j: int| 0 <= j < args.len() ==> is_term(#[trigger] args[j])
            &&& 0 <= a <= c < args.len()
            &&& !is_ground(args[a])
            &&& args[c].len() > 1 || !(0x80 <= args[c][0] <= 0xC0)
        },
    ensures
        conjunct_of(w, base) is None,
{
    if w[0] < 0x40 {
        lemma_arguments(w, args);
        crate::body::lemma_first_open(args, 0);
        lemma_open_before(args, 0, a);
        let m = lead(args);
        let cols = columns_in(args);
        assert(cols[c - m] == args[c]);
        assert(!is_wild(cols[c - m]));
        lemma_bad_before(cols, 0, c - m);
    }
}

proof fn lemma_open_before(args: Seq<Seq<u8>>, i: int, a: int)
    requires
        0 <= i <= a < args.len(),
        !is_ground(args[a]),
    ensures
        first_open(args, i) <= a,
    decreases a - i,
{
    if i < a {
        lemma_open_before(args, i + 1, a);
    }
}

proof fn lemma_bad_before(cols: Seq<Seq<u8>>, i: int, c: int)
    requires
        0 <= i <= c < cols.len(),
        !is_wild(cols[c]),
    ensures
        first_bad(cols, i) <= c,
    decreases c - i,
{
    if i < c {
        lemma_bad_before(cols, i + 1, c);
    }
}

/// The factors that the patterns are, as a reading gives them.
spec fn spelled(grounds: Seq<Seq<Seq<u8>>>, vars: Seq<Seq<u8>>) -> Seq<Pattern> {
    Seq::new(
        grounds.len(),
        |i: int|
            Pattern {
                prefix: pattern_front(grounds[i], vars[i]),
                cols: Seq::new(vars[i].len(), |j: int| variable_number(vars, i, j) as usize),
            },
    )
}

proof fn lemma_flat_len(vars: Seq<Seq<u8>>, i: int)
    requires
        0 <= i <= vars.len() <= 63,
        forall|k: int| 0 <= k < vars.len() ==> (#[trigger] vars[k]).len() <= 63,
    ensures
        vars.take(i).flatten().len() <= 63 * i,
    decreases i,
{
    if i == 0 {
        assert(vars.take(0).flatten() =~= Seq::<u8>::empty());
    } else {
        lemma_flat_len(vars, i - 1);
        assert(vars.take(i) =~= vars.take(i - 1).push(vars[i - 1]));
        vars.take(i - 1).lemma_flatten_push(vars[i - 1]);
    }
}

proof fn lemma_new_bytes_join(a: Seq<u8>, b: Seq<u8>)
    ensures
        new_bytes(a + b) == new_bytes(a) + new_bytes(b),
        new_bytes(a) <= a.len(),
{
    Seq::filter_distributes_over_add(a, b, |b: u8| b == 0xC0u8);
    a.lemma_filter_len(|b: u8| b == 0xC0u8);
}

/// The variables of pattern `i` are numbered after those of the patterns before it, all in range.
proof fn lemma_numbers(grounds: Seq<Seq<Seq<u8>>>, vars: Seq<Seq<u8>>, i: int)
    requires
        are_patterns(grounds, vars),
        grounds.len() <= 63,
        0 <= i < grounds.len(),
    ensures
        new_bytes(vars.take(i).flatten()) <= 63 * 63,
        new_bytes(vars.take(i + 1).flatten()) == new_bytes(vars.take(i).flatten()) + new_bytes(
            vars[i],
        ),
        forall|j: int|
            0 <= j < vars[i].len() ==> {
                &&& #[trigger] variable_number(vars, i, j) == number_after(
                    vars[i],
                    new_bytes(vars.take(i).flatten()),
                    j,
                )
                &&& 0 <= variable_number(vars, i, j) <= 0xFFFF
            },
{
    assert forall|k: int| 0 <= k < vars.len() implies (#[trigger] vars[k]).len() <= 63 by {
        assert(is_pattern(grounds[k], vars[k]));
    }
    let before = vars.take(i).flatten();
    lemma_flat_len(vars, i);
    lemma_new_bytes_join(before, vars[i]);
    assert(vars.take(i + 1) =~= vars.take(i).push(vars[i]));
    vars.take(i).lemma_flatten_push(vars[i]);
    assert forall|j: int| 0 <= j < vars[i].len() implies {
        &&& #[trigger] variable_number(vars, i, j) == number_after(vars[i], new_bytes(before), j)
        &&& 0 <= variable_number(vars, i, j) <= 0xFFFF
    } by {
        lemma_new_bytes_join(before, vars[i].take(j));
        lemma_new_bytes_join(vars[i].take(j), before);
        assert(is_pattern(grounds[i], vars[i]));
        assert(0x80 <= vars[i][j] <= 0xC0);
    }
}

/// Reading a body goes through its patterns one after the other.
proof fn lemma_read_through(
    grounds: Seq<Seq<Seq<u8>>>,
    vars: Seq<Seq<u8>>,
    rest: Seq<u8>,
    left: nat,
    i: int,
)
    requires
        are_patterns(grounds, vars),
        grounds.len() <= 63,
        0 <= i <= grounds.len(),
        left >= grounds.len() - i,
    ensures
        conjuncts_read(
            all_patterns(grounds, vars).skip(i).flatten() + rest,
            left,
            spelled(grounds, vars).take(i),
            new_bytes(vars.take(i).flatten()),
        ) == conjuncts_read(
            rest,
            (left - (grounds.len() - i)) as nat,
            spelled(grounds, vars),
            new_bytes(vars.flatten()),
        ),
    decreases grounds.len() - i,
{
    let all = all_patterns(grounds, vars);
    let pats = spelled(grounds, vars);
    let here = all.skip(i);
    if i == grounds.len() {
        assert(here.flatten() =~= Seq::<u8>::empty());
        assert(here.flatten() + rest =~= rest);
        assert(pats.take(i) =~= pats);
        assert(vars.take(i) =~= vars);
    } else {
        let c = all[i];
        let more = all.skip(i + 1).flatten() + rest;
        let w = here.flatten() + rest;
        assert(here.first() == c);
        assert(here.drop_first() =~= all.skip(i + 1));
        assert(w =~= c + more);
        let base = new_bytes(vars.take(i).flatten());
        lemma_numbers(grounds, vars, i);
        assert(is_pattern(grounds[i], vars[i]));
        lemma_pattern(grounds[i], vars[i], base);
        assert(w.take(c.len() as int) =~= c);
        lemma_first_term(w, c.len() as int);
        assert(w.skip(c.len() as int) =~= more);
        assert(c[0] == grounds[i].len() + vars[i].len());
        let pat = conjunct_of(c, base)->0;
        assert(pat.cols =~= pats[i].cols) by {
            assert forall|j: int| 0 <= j < vars[i].len() implies pat.cols[j] == pats[i].cols[j] by {
                assert(pat.cols[j] == number_after(vars[i], base, j));
                assert(variable_number(vars, i, j) == number_after(vars[i], base, j));
            }
        }
        assert(pat == pats[i]);
        assert(pats.take(i).push(pat) =~= pats.take(i + 1));
        lemma_read_through(grounds, vars, rest, (left - 1) as nat, i + 1);
    }
}

/// Reading a body of a head and patterns, and then `rest`.
proof fn lemma_body_through(
    body: Seq<u8>,
    head: Seq<u8>,
    grounds: Seq<Seq<Seq<u8>>>,
    vars: Seq<Seq<u8>>,
    rest: Seq<u8>,
)
    requires
        is_term(head),
        are_patterns(grounds, vars),
        body.len() > 0,
        grounds.len() + 1 <= body[0] < 0x40,
        body == seq![body[0]] + head + all_patterns(grounds, vars).flatten() + rest,
    ensures
        body_read(body) == conjuncts_read(
            rest,
            (body[0] - 1 - grounds.len()) as nat,
            spelled(grounds, vars),
            new_bytes(vars.flatten()),
        ),
{
    let all = all_patterns(grounds, vars);
    let after = body.skip(1);
    let tail = all.flatten() + rest;
    assert(after =~= head + tail);
    assert(after.take(head.len() as int) =~= head);
    lemma_first_term(after, head.len() as int);
    assert(after_head(body) =~= tail);
    lemma_read_through(grounds, vars, rest, (body[0] - 1) as nat, 0);
    assert(all.skip(0) =~= all);
    assert(spelled(grounds, vars).take(0) =~= Seq::<Pattern>::empty());
    assert(vars.take(0).flatten() =~= Seq::<u8>::empty());
    reveal(Seq::filter);
    assert(new_bytes(Seq::<u8>::empty()) == 0);
}

/// A body of a head and `k` patterns is read as `k` factors, one for each pattern and in their order.
/// Each factor's prefix is its pattern up to the variables, and its columns are the variables by
/// their numbers: `0x80 + n` is variable `n`, wherever it was introduced, and the introductions are
/// numbered in the order in which they stand in the body. There are as many variables as
/// introductions.
pub proof fn lemma_body_factors(
    body: &[u8],
    head: Seq<u8>,
    grounds: Seq<Seq<Seq<u8>>>,
    vars: Seq<Seq<u8>>,
    rest: Seq<u8>,
    r: BodyRead,
)
    requires
        is_term(head),
        are_patterns(grounds, vars),
        grounds.len() + 1 < 0x40,
        body@ == seq![(grounds.len() + 1) as u8] + head + all_patterns(grounds, vars).flatten()
            + rest,
        call_ensures(read_body, (body,), r),
    ensures
        match r {
            BodyRead::Parsed(factors, n) => factors_spell(factors@, grounds, vars) && n
                == new_bytes(vars.flatten()),
            _ => false,
        },
{
    lemma_body_through(body@, head, grounds, vars, rest);
    assert(body_read(body@) == Reading::Parsed(spelled(grounds, vars), new_bytes(vars.flatten())));
    match r {
        BodyRead::Parsed(factors, n) => {
            lemma_factors_spell(factors@, grounds, vars);
        },
        _ => {},
    }
}

proof fn lemma_factors_spell(
    factors: Seq<Factor>,
    grounds: Seq<Seq<Seq<u8>>>,
    vars: Seq<Seq<u8>>,
)
    requires
        are_patterns(grounds, vars),
        grounds.len() <= 63,
        are_factors(factors, spelled(grounds, vars)),
    ensures
        factors_spell(factors, grounds, vars),
{
    let pats = spelled(grounds, vars);
    assert forall|i: int| 0 <= i < factors.len() implies {
        &&& (#[trigger] factors[i]).prefix@ == pattern_front(grounds[i], vars[i])
        &&& factors[i].cols@.len() == vars[i].len()
        &&& forall|j: int|
            0 <= j < vars[i].len() ==> #[trigger] factors[i].cols@[j] == variable_number(vars, i, j)
    } by {
        lemma_numbers(grounds, vars, i);
        assert(factors[i].cols@ == pats[i].cols);
        assert forall|j: int| 0 <= j < vars[i].len() implies #[trigger] factors[i].cols@[j]
            == variable_number(vars, i, j) by {
            assert(0 <= variable_number(vars, i, j) <= 0xFFFF);
        }
    }
}

/// Such a body is taken by the parser of bodies, which gives the same factors.
pub proof fn lemma_body_parsed(
    body: &[u8],
    head: Seq<u8>,
    grounds: Seq<Seq<Seq<u8>>>,
    vars: Seq<Seq<u8>>,
    rest: Seq<u8>,
    r: Option<(Vec<Factor>, usize)>,
)
    requires
        is_term(head),
        are_patterns(grounds, vars),
        grounds.len() + 1 < 0x40,
        body@ == seq![(grounds.len() + 1) as u8] + head + all_patterns(grounds, vars).flatten()
            + rest,
        call_ensures(parse_body_factors, (body,), r),
    ensures
        call_requires(parse_body_factors, (body,)),
        match r {
            Some((factors, n)) => factors_spell(factors@, grounds, vars) && n == new_bytes(
                vars.flatten(),
            ),
            None => false,
        },
{
    lemma_body_through(body@, head, grounds, vars, rest);
    assert(body_read(body@) == Reading::Parsed(spelled(grounds, vars), new_bytes(vars.flatten())));
    match r {
        Some((factors, n)) => {
            lemma_factors_spell(factors@, grounds, vars);
        },
        None => {},
    }
}

/// A body is declined at the first conjunct that is no pattern, whatever follows it: one that is no
/// compound term, or that has an argument which is not a single variable at or after one with a
/// variable in it.
pub proof fn lemma_body_declined(
    body: &[u8],
    head: Seq<u8>,
    grounds: Seq<Seq<Seq<u8>>>,
    vars: Seq<Seq<u8>>,
    bad: Seq<u8>,
    args: Seq<Seq<u8>>,
    a: int,
    c: int,
    rest: Seq<u8>,
    r: BodyRead,
)
    requires
        is_term(head),
        are_patterns(grounds, vars),
        body@.len() > 0,
        grounds.len() + 1 < body@[0] < 0x40,
        is_term(bad),
        bad[0] < 0x40 ==> {
            &&& bad == seq![args.len() as u8] + args.flatten()
            &&& args.len() == bad[0]
            &&& forall|j: int| 0 <= j < args.len() ==> is_term(#[trigger] args[j])
            &&& 0 <= a <= c < args.len()
            &&& !is_ground(args[a])
            &&& args[c].len() > 1 || !(0x80 <= args[c][0] <= 0xC0)
        },
        body@ == seq![body@[0]] + head + all_patterns(grounds, vars).flatten() + (bad + rest),
        call_ensures(read_body, (body,), r),
    ensures
        r is Declined,
{
    let more = bad + rest;
    lemma_body_through(body@, head, grounds, vars, more);
    assert(more.take(bad.len() as int) =~= bad);
    lemma_first_term(more, bad.len() as int);
    lemma_no_pattern(bad, args, a, c, new_bytes(vars.flatten()));
}

/// A body breaks off where a conjunct is owed and no complete term follows, and where `()` does.
pub proof fn lemma_body_broken(
    body: &[u8],
    head: Seq<u8>,
    grounds: Seq<Seq<Seq<u8>>>,
    vars: Seq<Seq<u8>>,
    rest: Seq<u8>,
    r: BodyRead,
)
    requires
        is_term(head),
        are_patterns(grounds, vars),
        body@.len() > 0,
        grounds.len() + 1 < body@[0] < 0x40,
        body@ == seq![body@[0]] + head + all_patterns(grounds, vars).flatten() + rest,
        (rest.len() > 0 && rest[0] == 0) || forall|t: Seq<u8>| #[trigger]
            is_term(t) ==> !t.is_prefix_of(rest),
        call_ensures(read_body, (body,), r),
    ensures
        r is Broken,
{
    lemma_body_through(body@, head, grounds, vars, rest);
    if rest.len() > 0 && rest[0] == 0 {
        let unit = rest.take(1);
        let none = Seq::<Seq<u8>>::empty();
        assert(none.flatten() =~= Seq::<u8>::empty());
        assert(unit =~= seq![0u8] + none.flatten());
        lemma_arguments(unit, none);
        lemma_first_term(rest, 1);
    } else {
        lemma_front_term(rest);
    }
}

/// What starts with no arity, or with the arity of `()`, is no conjunction, and a conjunction without
/// a complete head breaks off.
pub proof fn lemma_body_headless(body: &[u8], r: BodyRead)
    requires
        call_ensures(read_body, (body,), r),
    ensures
        body@.len() == 0 || body@[0] == 0 || body@[0] >= 0x40 ==> r is Declined,
        body@.len() > 0 && 0 < body@[0] < 0x40 && (forall|t: Seq<u8>| #[trigger]
            is_term(t) ==> !t.is_prefix_of(body@.skip(1))) ==> r is Broken,
{
    if body@.len() > 0 && 0 < body@[0] < 0x40 {
        lemma_front_term(body@.skip(1));
    }
}


/// The term is a pattern.
spec fn has_pattern(p: Seq<u8>, parts: (Seq<Seq<u8>>, Seq<u8>)) -> bool {
    is_pattern(parts.0, parts.1) && p == pattern_bytes(parts.0, parts.1)
}

/// The term's arguments show that it is no pattern: one at index `c` is not a single variable, and
/// one at or before it has a variable in it.
spec fn shows_no_pattern(p: Seq<u8>, args: Seq<Seq<u8>>, a: int, c: int) -> bool {
    &&& p == seq![args.len() as u8] + args.flatten()
    &&& args.len() == p[0]
    &&& forall|j: int| 0 <= j < args.len() ==> is_term(#[trigger] args[j])
    &&& 0 <= a <= c < args.len()
    &&& !is_ground(args[a])
    &&& args[c].len() > 1 || !(0x80 <= args[c][0] <= 0xC0)
}

/// A compound term that is not `()` is a pattern, or its arguments show that it is none.
proof fn lemma_pattern_or_not(p: Seq<u8>)
    requires
        is_term(p),
        0 < p[0] < 0x40,
    ensures
        (exists|parts: (Seq<Seq<u8>>, Seq<u8>)| #[trigger] has_pattern(p, parts)) || (exists|
            args: Seq<Seq<u8>>,
            a: int,
            c: int,
        | #[trigger]
            shows_no_pattern(p, args, a, c)),
{
    lemma_term_bytes(p);
    let args = choose|args: Seq<Seq<u8>>|
        args.len() == p[0] && (forall|i: int| 0 <= i < args.len() ==> is_term(args[i])) && p
            == seq![p[0]] + #[trigger] args.flatten();
    assert(p == seq![args.len() as u8] + args.flatten());
    let m = lead(args);
    crate::body::lemma_first_open(args, 0);
    lemma_first_open_found(args, 0);
    if exists|c: int| m <= c < args.len() && !is_wild(#[trigger] args[c]) {
        let c = choose|c: int| m <= c < args.len() && !is_wild(#[trigger] args[c]);
        assert(is_term(args[c]));
        lemma_term_bytes(args[c]);
        assert(shows_no_pattern(p, args, m, c));
    } else {
        let ground = args.take(m);
        let vars = Seq::new((args.len() - m) as nat, |j: int| args[m + j][0]);
        assert forall|j: int| 0 <= j < ground.len() implies is_term(#[trigger] ground[j])
            && is_ground(ground[j]) by {
            assert(ground[j] == args[j]);
        }
        assert forall|j: int| 0 <= j < vars.len() implies 0x80 <= #[trigger] vars[j] <= 0xC0 by {
            assert(is_wild(args[m + j]));
        }
        assert(args.skip(m) =~= singles(vars)) by {
            assert forall|j: int| 0 <= j < vars.len() implies args.skip(m)[j] == singles(
                vars,
            )[j] by {
                assert(is_wild(args[m + j]));
                assert(args[m + j] =~= seq![vars[j]]);
            }
        }
        lemma_singles(vars);
        lemma_flatten_concat(ground, singles(vars));
        assert(ground + singles(vars) =~= args);
        assert(p =~= pattern_bytes(ground, vars));
        assert(has_pattern(p, (ground, vars)));
    }
}

proof fn lemma_first_open_found(args: Seq<Seq<u8>>, i: int)
    requires
        0 <= i <= args.len(),
    ensures
        forall|j: int| i <= j < first_open(args, i) ==> is_ground(#[trigger] args[j]),
        first_open(args, i) < args.len() ==> !is_ground(args[first_open(args, i)]),
    decreases args.len() - i,
{
    if i < args.len() && is_ground(args[i]) {
        lemma_first_open_found(args, i + 1);
    }
}

/// The parts of each of the first `k` terms, each a pattern.
spec fn parts_of(ps: Seq<Seq<u8>>, i: int) -> (Seq<Seq<u8>>, Seq<u8>) {
    choose|parts: (Seq<Seq<u8>>, Seq<u8>)| #[trigger] has_pattern(ps[i], parts)
}

proof fn lemma_flat_split(ps: Seq<Seq<u8>>, i: int)
    requires
        0 <= i < ps.len(),
    ensures
        ps.flatten() == ps.take(i).flatten() + (ps[i] + ps.skip(i + 1).flatten()),
{
    let one = ps.skip(i);
    lemma_flatten_concat(ps.take(i), one);
    assert(ps.take(i) + one =~= ps);
    assert(one.first() == ps[i]);
    assert(one.drop_first() =~= ps.skip(i + 1));
}

/// The terms before `k` are patterns, and the body comes to the term at `k`, if there is one.
proof fn lemma_body_at(
    body: &[u8],
    head: Seq<u8>,
    ps: Seq<Seq<u8>>,
    rest: Seq<u8>,
    k: int,
    r: BodyRead,
)
    requires
        is_term(head),
        forall|i: int| 0 <= i < ps.len() ==> is_term(#[trigger] ps[i]),
        ps.len() + 1 < 0x40,
        body@ == seq![(ps.len() + 1) as u8] + head + ps.flatten() + rest,
        call_ensures(read_body, (body,), r),
        r is Parsed,
        0 <= k <= ps.len(),
    ensures
        forall|i: int| 0 <= i < k ==> has_pattern(#[trigger] ps[i], parts_of(ps, i)),
    decreases k,
{
    if k > 0 {
        let i = k - 1;
        lemma_body_at(body, head, ps, rest, i, r);
        let grounds = Seq::new(i as nat, |j: int| parts_of(ps, j).0);
        let vars = Seq::new(i as nat, |j: int| parts_of(ps, j).1);
        assert(are_patterns(grounds, vars)) by {
            assert forall|j: int| 0 <= j < grounds.len() implies is_pattern(
                #[trigger] grounds[j],
                vars[j],
            ) by {
                assert(has_pattern(ps[j], parts_of(ps, j)));
            }
        }
        assert(all_patterns(grounds, vars) =~= ps.take(i)) by {
            assert forall|j: int| 0 <= j < i implies all_patterns(grounds, vars)[j] == ps.take(
                i,
            )[j] by {
                assert(has_pattern(ps[j], parts_of(ps, j)));
            }
        }
        lemma_flat_split(ps, i);
        let p = ps[i];
        let more = ps.skip(i + 1).flatten() + rest;
        assert(is_term(p));
        lemma_term_bytes(p);
        assert(body@ =~= seq![body@[0]] + head + all_patterns(grounds, vars).flatten() + (p
            + more));
        if p[0] == 0 {
            lemma_body_broken(body, head, grounds, vars, p + more, r);
        } else if p[0] >= 0x40 {
            lemma_body_declined(body, head, grounds, vars, p, Seq::empty(), 0, 0, more, r);
        } else {
            lemma_pattern_or_not(p);
            if exists|args: Seq<Seq<u8>>, a: int, c: int| #[trigger]
                shows_no_pattern(p, args, a, c) {
                let (args, a, c) = choose|args: Seq<Seq<u8>>, a: int, c: int| #[trigger]
                    shows_no_pattern(p, args, a, c);
                lemma_body_declined(body, head, grounds, vars, p, args, a, c, more, r);
            }
            assert(has_pattern(ps[i], parts_of(ps, i)));
        }
    }
}

/// The body's terms are the patterns, and the factors are what the patterns say.
pub open spec fn factors_stand_for(
    factors: Seq<Factor>,
    n: nat,
    ps: Seq<Seq<u8>>,
) -> bool {
    exists|grounds: Seq<Seq<Seq<u8>>>, vars: Seq<Seq<u8>>| #[trigger]
        are_patterns(grounds, vars) && ps == all_patterns(grounds, vars) && factors_spell(
            factors,
            grounds,
            vars,
        ) && n == new_bytes(vars.flatten())
}

/// A body of a head and any `k` terms, if it is parsed, has exactly `k` factors, and each stands for
/// the term in its place: the terms are patterns, and the factors have their prefixes and variables.
pub proof fn lemma_body_stands_for(
    body: &[u8],
    head: Seq<u8>,
    ps: Seq<Seq<u8>>,
    rest: Seq<u8>,
    r: BodyRead,
)
    requires
        is_term(head),
        forall|i: int| 0 <= i < ps.len() ==> is_term(#[trigger] ps[i]),
        ps.len() + 1 < 0x40,
        body@ == seq![(ps.len() + 1) as u8] + head + ps.flatten() + rest,
        call_ensures(read_body, (body,), r),
    ensures
        match r {
            BodyRead::Parsed(factors, n) => factors@.len() == ps.len() && factors_stand_for(
                factors@,
                n as nat,
                ps,
            ),
            _ => true,
        },
{
    match r {
        BodyRead::Parsed(factors, n) => {
            let k = ps.len() as int;
            lemma_body_at(body, head, ps, rest, k, r);
            let grounds = Seq::new(k as nat, |j: int| parts_of(ps, j).0);
            let vars = Seq::new(k as nat, |j: int| parts_of(ps, j).1);
            assert(are_patterns(grounds, vars)) by {
                assert forall|j: int| 0 <= j < grounds.len() implies is_pattern(
                    #[trigger] grounds[j],
                    vars[j],
                ) by {
                    assert(has_pattern(ps[j], parts_of(ps, j)));
                }
            }
            assert(all_patterns(grounds, vars) =~= ps) by {
                assert forall|j: int| 0 <= j < k implies all_patterns(grounds, vars)[j] == ps[j] by {
                    assert(has_pattern(ps[j], parts_of(ps, j)));
                }
            }
            lemma_body_factors(body, head, grounds, vars, rest, r);
        },
        _ => {},
    }
}


/// The body's variables are all introduced in it.
pub open spec fn all_introduced(vars: Seq<Seq<u8>>) -> bool {
    forall|i: int, j: int|
        0 <= i < vars.len() && 0 <= j < vars[i].len() ==> #[trigger] variable_number(vars, i, j)
            < new_bytes(vars.flatten())
}

/// The trie holds whole facts for every pattern.
pub open spec fn holds_pattern_facts(
    paths: Set<Seq<u8>>,
    values: Set<Seq<u8>>,
    grounds: Seq<Seq<Seq<u8>>>,
    vars: Seq<Seq<u8>>,
) -> bool {
    &&& paths_of_values(paths, values)
    &&& forall|i: int|
        0 <= i < grounds.len() ==> holds_facts(
            values,
            pattern_front(#[trigger] grounds[i], vars[i]),
            vars[i].len(),
        )
}

proof fn lemma_patterns_ready(
    paths: Set<Seq<u8>>,
    values: Set<Seq<u8>>,
    grounds: Seq<Seq<Seq<u8>>>,
    vars: Seq<Seq<u8>>,
    n: nat,
)
    requires
        are_patterns(grounds, vars),
        holds_pattern_facts(paths, values, grounds, vars),
    ensures
        all_joinable(values, pattern_relations(paths, spelled(grounds, vars)), numbered(n)),
        all_read_whole(values, pattern_relations(paths, spelled(grounds, vars)), numbered(n)),
{
    let rels = pattern_relations(paths, spelled(grounds, vars));
    assert forall|f: int| 0 <= f < rels.len() implies is_joinable(
        values,
        #[trigger] rels[f],
        numbered(n),
    ) && is_read_whole(values, rels[f], numbered(n)) by {
        assert(holds_facts(values, pattern_front(grounds[f], vars[f]), vars[f].len()));
        lemma_relation_ready(rels[f], values, numbered(n));
    }
}

/// A body of patterns whose variables are all introduced in it can be joined on a trie of whole
/// facts.
pub proof fn lemma_body_accepted<T: PathTrie>(
    map: &T,
    body: &[u8],
    head: Seq<u8>,
    grounds: Seq<Seq<Seq<u8>>>,
    vars: Seq<Seq<u8>>,
    rest: Seq<u8>,
)
    requires
        is_term(head),
        are_patterns(grounds, vars),
        grounds.len() + 1 < 0x40,
        body@ == seq![(grounds.len() + 1) as u8] + head + all_patterns(grounds, vars).flatten()
            + rest,
        all_introduced(vars),
        holds_pattern_facts(map.paths(), map.values(), grounds, vars),
    ensures
        call_requires(unify_join_zipper_body::<T>, (map, body)),
{
    let pats = spelled(grounds, vars);
    let n = new_bytes(vars.flatten());
    lemma_body_through(body@, head, grounds, vars, rest);
    assert(body_read(body@) == Reading::Parsed(pats, n));
    lemma_patterns_ready(map.paths(), map.values(), grounds, vars, n);
    assert forall|f: int, c: int|
        #![trigger pats[f].cols[c]]
        0 <= f < pats.len() && 0 <= c < pats[f].cols.len() implies pats[f].cols[c] < n by {
        lemma_numbers(grounds, vars, f);
        assert(variable_number(vars, f, c) < n);
    }
    assert(body_joinable(map.paths(), map.values(), pats, n));
}

proof fn lemma_body_join_exact<T: PathTrie>(
    map: &T,
    body: &[u8],
    pats: Seq<Pattern>,
    n: nat,
    r: Option<Vec<Vec<Vec<u8>>>>,
)
    requires
        body_of(body@) == Some((pats, n)),
        all_read_whole(map.values(), pattern_relations(map.paths(), pats), numbered(n)),
        call_ensures(unify_join_zipper_body::<T>, (map, body), r),
    ensures
        r is Some,
        is_numbered_join(map, pats, n, r->0),
        forall|row: Seq<Seq<u8>>| #[trigger]
            row_found(r->0@, 0, row) == is_unifier_row(
                pattern_relations(map.paths(), pats),
                n,
                all_ground(row),
            ),
{
}

/// The rows are those that come of facts for the factors that the patterns spell.
pub open spec fn lists_pattern_rows(
    paths: Set<Seq<u8>>,
    grounds: Seq<Seq<Seq<u8>>>,
    vars: Seq<Seq<u8>>,
    rows: Seq<Vec<Vec<u8>>>,
) -> bool {
    exists|factors: Seq<Factor>| #[trigger]
        factors_spell(factors, grounds, vars) && forall|row: Seq<Seq<u8>>| #[trigger]
            lists_values(rows, row) <==> comes_of_facts(
                paths,
                factors,
                new_bytes(vars.flatten()),
                row.map_values(|g: Seq<u8>| Some(g)),
            )
}

/// On a trie of whole facts, the join of a body of patterns returns exactly the rows of values that
/// come of one fact for each pattern, with the variables by their numbers in the body.
pub proof fn lemma_body_rows<T: PathTrie>(
    map: &T,
    body: &[u8],
    head: Seq<u8>,
    grounds: Seq<Seq<Seq<u8>>>,
    vars: Seq<Seq<u8>>,
    rest: Seq<u8>,
    r: Option<Vec<Vec<Vec<u8>>>>,
)
    requires
        is_term(head),
        are_patterns(grounds, vars),
        grounds.len() + 1 < 0x40,
        body@ == seq![(grounds.len() + 1) as u8] + head + all_patterns(grounds, vars).flatten()
            + rest,
        all_introduced(vars),
        holds_pattern_facts(map.paths(), map.values(), grounds, vars),
        call_ensures(unify_join_zipper_body::<T>, (map, body), r),
    ensures
        r is Some,
        lists_pattern_rows(map.paths(), grounds, vars, r->0@),
{
    let pats = spelled(grounds, vars);
    let n = new_bytes(vars.flatten());
    lemma_body_through(body@, head, grounds, vars, rest);
    assert(body_read(body@) == Reading::Parsed(pats, n));
    lemma_patterns_ready(map.paths(), map.values(), grounds, vars, n);
    lemma_body_join_exact(map, body, pats, n, r);
    let factors = lemma_numbered_factors(map, pats, n, r->0);
    lemma_factors_spell(factors, grounds, vars);
    assert(query_relations(map.paths(), factors) =~= pattern_relations(map.paths(), pats));
    assert forall|row: Seq<Seq<u8>>| #[trigger]
        lists_values(r->0@, row) <==> comes_of_facts(
        map.paths(),
        factors,
        n,
        row.map_values(|g: Seq<u8>| Some(g)),
    ) by {
        let some = row.map_values(|g: Seq<u8>| Some(g));
        assert(some =~= all_ground(row));
        lemma_lists_values(r->0@, row);
        lemma_comes_of_facts(map.paths(), factors, n, some);
    }
}

proof fn lemma_numbered_factors<T: PathTrie>(
    map: &T,
    pats: Seq<Pattern>,
    n: nat,
    rows: Vec<Vec<Vec<u8>>>,
) -> (factors: Seq<Factor>)
    requires
        is_numbered_join(map, pats, n, rows),
    ensures
        are_factors(factors, pats),
{
    let (factors, order, m) = choose|factors: &[Factor], order: &[usize], m: usize|
        are_factors(factors@, pats) && order@ == numbered(n) && m == n && #[trigger] call_ensures(
            unify_join_zipper::<T>,
            (map, factors, order, m),
            rows,
        );
    factors@
}

/// A body that is declined is answered `None`.
pub proof fn lemma_body_join_declined<T: PathTrie>(
    map: &T,
    body: &[u8],
    r: Option<Vec<Vec<Vec<u8>>>>,
    read: BodyRead,
)
    requires
        call_ensures(unify_join_zipper_body::<T>, (map, body), r),
        call_ensures(read_body, (body,), read),
    ensures
        r is Some <==> read is Parsed,
{
}


/// One conjunct that is a pattern becomes a factor: its prefix is the pattern up to its variables,
/// and its columns are the variables by their numbers. The count of variables goes up by one for
/// each introduction.
pub proof fn lemma_pattern_factor(
    pat: &[u8],
    nvars: &mut usize,
    ground: Seq<Seq<u8>>,
    vars: Seq<u8>,
    r: Option<Factor>,
)
    requires
        is_pattern(ground, vars),
        pat@ == pattern_bytes(ground, vars),
        *old(nvars) <= usize::MAX - 64,
        call_ensures(parse_pattern_factor, (pat, nvars), r),
    ensures
        call_requires(parse_pattern_factor, (pat, nvars)),
        match r {
            Some(factor) => {
                &&& factor.prefix@ == pattern_front(ground, vars)
                &&& factor.cols@.len() == vars.len()
                &&& forall|j: int|
                    0 <= j < vars.len() ==> #[trigger] factor.cols@[j] == number_after(
                        vars,
                        *old(nvars) as nat,
                        j,
                    )
            },
            None => false,
        },
        *final(nvars) == *old(nvars) + new_bytes(vars),
{
    lemma_pattern(ground, vars, *old(nvars) as nat);
    assert(pat@[0] == ground.len() + vars.len());
}

/// A conjunct that is no pattern is declined.
pub proof fn lemma_no_factor(
    pat: &[u8],
    nvars: &mut usize,
    args: Seq<Seq<u8>>,
    a: int,
    c: int,
    r: Option<Factor>,
)
    requires
        is_term(pat@),
        pat@[0] < 0x40 ==> {
            &&& pat@ == seq![args.len() as u8] + args.flatten()
            &&& args.len() == pat@[0]
            &&& forall|j: int| 0 <= j < args.len() ==> is_term(#[trigger] args[j])
            &&& 0 <= a <= c < args.len()
            &&& !is_ground(args[a])
            &&& args[c].len() > 1 || !(0x80 <= args[c][0] <= 0xC0)
        },
        call_ensures(parse_pattern_factor, (pat, nvars), r),
    ensures
        r is None,
{
    lemma_no_pattern(pat@, args, a, c, *old(nvars) as nat);
}


/// The rows are what [`unify_join_zipper`] returns for the factors that the patterns spell, with the
/// variables in the order of their numbers.
pub open spec fn is_join_of_patterns<T: PathTrie>(
    map: &T,
    grounds: Seq<Seq<Seq<u8>>>,
    vars: Seq<Seq<u8>>,
    rows: Vec<Vec<Vec<u8>>>,
) -> bool {
    exists|factors: &[Factor], order: &[usize], n: usize|
        factors_spell(factors@, grounds, vars) && n == new_bytes(vars.flatten()) && order@.len() == n
            && (forall|i: int| 0 <= i < n ==> #[trigger] order@[i] == i) && #[trigger] call_ensures(
            unify_join_zipper::<T>,
            (map, factors, order, n),
            rows,
        )
}

/// Whatever the trie holds, the join of a body of patterns is the join of the factors that the
/// patterns spell.
pub proof fn lemma_body_is_join<T: PathTrie>(
    map: &T,
    body: &[u8],
    head: Seq<u8>,
    grounds: Seq<Seq<Seq<u8>>>,
    vars: Seq<Seq<u8>>,
    rest: Seq<u8>,
    r: Option<Vec<Vec<Vec<u8>>>>,
)
    requires
        is_term(head),
        are_patterns(grounds, vars),
        grounds.len() + 1 < 0x40,
        body@ == seq![(grounds.len() + 1) as u8] + head + all_patterns(grounds, vars).flatten()
            + rest,
        call_ensures(unify_join_zipper_body::<T>, (map, body), r),
    ensures
        r is Some,
        is_join_of_patterns(map, grounds, vars, r->0),
{
    let pats = spelled(grounds, vars);
    let k = new_bytes(vars.flatten());
    lemma_body_through(body@, head, grounds, vars, rest);
    assert(body_read(body@) == Reading::Parsed(pats, k));
    lemma_body_numbered(map, body, pats, k, r);
    let rows = r->0;
    let (factors, order, n) = choose|factors: &[Factor], order: &[usize], n: usize|
        are_factors(factors@, pats) && order@ == numbered(k) && n == k && #[trigger] call_ensures(
            unify_join_zipper::<T>,
            (map, factors, order, n),
            rows,
        );
    lemma_factors_spell(factors@, grounds, vars);
    assert forall|i: int| 0 <= i < n implies #[trigger] order@[i] == i by {
        assert(numbered(k)[i] == i as usize);
    }
    assert(call_ensures(unify_join_zipper::<T>, (map, factors, order, n), rows));
}

proof fn lemma_body_numbered<T: PathTrie>(
    map: &T,
    body: &[u8],
    pats: Seq<Pattern>,
    n: nat,
    r: Option<Vec<Vec<Vec<u8>>>>,
)
    requires
        body_of(body@) == Some((pats, n)),
        call_ensures(unify_join_zipper_body::<T>, (map, body), r),
    ensures
        r is Some,
        is_numbered_join(map, pats, n, r->0),
{
}


} // verus!
