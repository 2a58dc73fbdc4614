//! Conjunction bodies: from an encoded `(, p1 .. pk)` to the factors of a join.

use vstd::prelude::*;
use vstd::slice::slice_subrange;
use crate::fact::{is_new, is_unifier_row, is_wild, new_vars, Relation};
use crate::factor::{
    all_terms, joined, lemma_columns_unique, lemma_joined_push, lemma_joined_take, Factor,
};
use crate::ground::{ordered_before, row_found};
use crate::order::{is_prefix, lemma_prefixes_comparable, to_vec};
use crate::prepare::{all_joinable, all_read_whole, is_read_row, query_relations};
use crate::reindex::{slices, split_columns};
use crate::term::{
    complete_len, first_subterm_is_ground, holds, is_ground, is_term, lemma_holds_extend,
    lemma_prefix_free, lemma_run_concat, run, tag_of, Tag,
};
use crate::trie::PathTrie;
use crate::unify::{all_ground, ground_ascending, unify_join_zipper};

verus! {

/// A factor as it is spelled in a body: its prefix, and the variable of each column.
pub ghost struct Pattern {
    pub prefix: Seq<u8>,
    pub cols: Seq<usize>,
}

/// `w` starts with an arity tag and that many terms.
pub open spec fn is_compound(w: Seq<u8>, args: Seq<Seq<u8>>) -> bool {
    &&& w.len() > 0
    &&& w[0] < 0x40
    &&& args.len() == w[0]
    &&& all_terms(args)
    &&& is_prefix(seq![w[0]] + joined(args), w)
}

/// The first argument from index `i` on that is not ground, or the number of arguments.
pub open spec fn first_open(args: Seq<Seq<u8>>, i: int) -> int
    decreases args.len() - i,
{
    if i < 0 || i >= args.len() || !is_ground(args[i]) {
        i
    } else {
        first_open(args, i + 1)
    }
}

/// How many arguments, the relation's head among them, are part of the prefix: those before the
/// first one that is not ground. A variable head is a column like the rest.
pub open spec fn lead(args: Seq<Seq<u8>>) -> int {
    first_open(args, 0)
}

/// The arguments that are columns.
pub open spec fn columns_in(args: Seq<Seq<u8>>) -> Seq<Seq<u8>> {
    args.skip(lead(args))
}

/// The first column that is not a single variable, or the number of columns.
pub open spec fn first_bad(cols: Seq<Seq<u8>>, i: int) -> int
    decreases cols.len() - i,
{
    if i < 0 || i >= cols.len() || !is_wild(cols[i]) {
        i
    } else {
        first_bad(cols, i + 1)
    }
}

/// The variable of column `j`, when `base` variables were introduced before the pattern.
pub open spec fn column_var(cols: Seq<Seq<u8>>, base: nat, j: int) -> usize {
    if is_new(cols[j]) {
        (base + new_vars(cols, j)) as usize
    } else {
        (cols[j][0] - 0x80) as usize
    }
}

/// The variables of the first `n` columns.
pub open spec fn column_vars(cols: Seq<Seq<u8>>, base: nat, n: int) -> Seq<usize> {
    Seq::new(n as nat, |j: int| column_var(cols, base, j))
}

/// The pattern `(rel arg..)` with these arguments as a factor, when `base` variables were introduced
/// before it: the relation and any leading ground arguments are the prefix, and each remaining
/// argument must be a single variable.
pub open spec fn pattern_of(args: Seq<Seq<u8>>, base: nat) -> Option<Pattern> {
    let cols = columns_in(args);
    if first_bad(cols, 0) == cols.len() {
        Some(
            Pattern {
                prefix: seq![args.len() as u8] + joined(args.take(lead(args))),
                cols: column_vars(cols, base, cols.len() as int),
            },
        )
    } else {
        None
    }
}

/// The arguments of a term that starts with an arity tag.
pub open spec fn args_of(w: Seq<u8>) -> Seq<Seq<u8>> {
    choose|args: Seq<Seq<u8>>| is_compound(w, args)
}

/// What a conjunct is as a factor, or `None` if it is not a pattern that a factor can stand for.
pub open spec fn conjunct_of(pat: Seq<u8>, base: nat) -> Option<Pattern> {
    if pat[0] < 0x40 {
        pattern_of(args_of(pat), base)
    } else {
        None
    }
}

/// How many variables a conjunct introduces as columns.
pub open spec fn conjunct_vars(pat: Seq<u8>) -> nat {
    let cols = columns_in(args_of(pat));
    new_vars(cols, first_bad(cols, 0))
}

/// The complete subterm at the front of `w`.
pub open spec fn first_term(w: Seq<u8>) -> Seq<u8> {
    choose|t: Seq<u8>| #[trigger] is_term(t) && is_prefix(t, w)
}

/// What reading a body comes to.
pub enum Reading {
    /// The body breaks off, or has `()` as a conjunct.
    Broken,
    /// The body is no conjunction, or has a pattern that a factor cannot stand for.
    Declined,
    /// The factors, and how many variables they have.
    Parsed(Seq<Pattern>, nat),
}

/// Reading `left` more conjuncts from the front of `rest`, after the factors `pats` with `base`
/// variables. Nothing is read after a conjunct that is declined.
pub open spec fn conjuncts_read(
    rest: Seq<u8>,
    left: nat,
    pats: Seq<Pattern>,
    base: nat,
) -> Reading
    decreases left,
{
    let t = first_term(rest);
    if left == 0 {
        Reading::Parsed(pats, base)
    } else if !holds(1, rest) || t[0] == 0 {
        Reading::Broken
    } else {
        match conjunct_of(t, base) {
            None => Reading::Declined,
            Some(pat) => conjuncts_read(
                rest.skip(t.len() as int),
                (left - 1) as nat,
                pats.push(pat),
                base + conjunct_vars(t),
            ),
        }
    }
}

/// Reading the body `(, p1 .. pk)`.
pub open spec fn body_read(body: Seq<u8>) -> Reading {
    if body.len() == 0 || body[0] >= 0x40 || body[0] == 0 {
        Reading::Declined
    } else if !holds(1, body.skip(1)) {
        Reading::Broken
    } else {
        conjuncts_read(after_head(body), (body[0] - 1) as nat, Seq::empty(), 0)
    }
}

/// What follows the conjunction's head.
pub open spec fn after_head(body: Seq<u8>) -> Seq<u8> {
    body.skip(1 + first_term(body.skip(1)).len() as int)
}

/// What a body is as a join: the factors and the number of variables, or `None` if it is no
/// conjunction or has a pattern that a factor cannot stand for.
pub open spec fn body_of(body: Seq<u8>) -> Option<(Seq<Pattern>, nat)> {
    match body_read(body) {
        Reading::Parsed(pats, n) => Some((pats, n)),
        _ => None,
    }
}

/// A body that can be read: as far as it is read it does not break off, and has no `()` as a
/// conjunct.
pub open spec fn is_body(body: Seq<u8>) -> bool {
    !(body_read(body) is Broken)
}

/// The factors are spelled as the patterns say.
pub open spec fn are_factors(factors: Seq<Factor>, pats: Seq<Pattern>) -> bool {
    factors.len() == pats.len() && forall|f: int|
        0 <= f < pats.len() ==> (#[trigger] factors[f]).prefix@ == pats[f].prefix
            && factors[f].cols@ == pats[f].cols
}

/// A term's arguments follow its arity tag.
proof fn lemma_args(w: Seq<u8>, n: nat)
    requires
        holds(1, w),
        w.len() > 0,
        w[0] < 0x40,
        n == w[0],
    ensures
        holds(n, w.skip(1)),
{
    let tag = seq![w[0]];
    let rest = w.skip(1);
    assert(w =~= tag + rest);
    lemma_run_concat((1, 0), tag, rest);
    assert(tag.drop_last() =~= Seq::<u8>::empty());
    reveal_with_fuel(run, 2);
}

/// A term has one list of arguments.
pub proof fn lemma_args_unique(w: Seq<u8>, args: Seq<Seq<u8>>)
    requires
        is_compound(w, args),
    ensures
        args_of(w) == args,
{
    let other = args_of(w);
    assert(is_compound(w, other));
    lemma_after_tag(w, args);
    lemma_after_tag(w, other);
    lemma_columns_unique(args, other, w.skip(1));
}

proof fn lemma_after_tag(w: Seq<u8>, args: Seq<Seq<u8>>)
    requires
        w.len() > 0,
    ensures
        is_prefix(seq![w[0]] + joined(args), w) == is_prefix(joined(args), w.skip(1)),
{
    let all = seq![w[0]] + joined(args);
    let rest = w.skip(1);
    if is_prefix(all, w) {
        assert(joined(args) =~= all.skip(1));
        assert(all =~= w.take(all.len() as int));
        assert(joined(args) =~= rest.take(joined(args).len() as int));
    }
    if is_prefix(joined(args), rest) {
        assert(joined(args) =~= rest.take(joined(args).len() as int));
        assert(all =~= w.take(all.len() as int));
    }
}

/// The arguments of a term that starts with an arity tag.
fn split_args<'a>(w: &'a [u8]) -> (args: Vec<&'a [u8]>)
    requires
        w@.len() > 0,
        w@[0] < 0x40,
        holds(1, w@),
    ensures
        slices(args@) == args_of(w@),
        is_compound(w@, args_of(w@)),
{
    let rest = slice_subrange(w, 1, w.len());
    proof {
        assert(rest@ =~= w@.skip(1));
        lemma_args(w@, w@[0] as nat);
    }
    let args = split_columns(rest, w[0] as usize);
    proof {
        lemma_after_tag(w@, slices(args@));
        lemma_args_unique(w@, slices(args@));
    }
    args
}

pub proof fn lemma_first_open(args: Seq<Seq<u8>>, i: int)
    requires
        0 <= i <= args.len(),
    ensures
        i <= first_open(args, i) <= args.len(),
    decreases args.len() - i,
{
    if i < args.len() && is_ground(args[i]) {
        lemma_first_open(args, i + 1);
    }
}

pub proof fn lemma_new_vars_bound(cols: Seq<Seq<u8>>, j: int)
    requires
        0 <= j,
    ensures
        new_vars(cols, j) <= j,
    decreases j,
{
    if j > 0 {
        lemma_new_vars_bound(cols, j - 1);
    }
}

/// One conjunct `(rel arg..)` to a factor. The relation symbol and any leading ground arguments are
/// the prefix; from the first variable on, the head's place included, each argument must be a single
/// variable column. An introduction takes the
/// next id after `nvars`, and a reference names an id.
pub fn parse_pattern_factor(pat: &[u8], nvars: &mut usize) -> (r: Option<Factor>)
    requires
        is_term(pat@),
        pat@[0] != 0,
        *old(nvars) <= usize::MAX - 64,
    ensures
        match r {
            Some(factor) => conjunct_of(pat@, *old(nvars) as nat) == Some(
                Pattern { prefix: factor.prefix@, cols: factor.cols@ },
            ),
            None => conjunct_of(pat@, *old(nvars) as nat) is None,
        },
        *final(nvars) == if pat@[0] < 0x40 {
            *old(nvars) + conjunct_vars(pat@)
        } else {
            *old(nvars) as int
        },
        *final(nvars) <= *old(nvars) + 64,
{
    let ghost base = *nvars as nat;
    match tag_of(pat[0]) {
        Tag::Arity(_) => {},
        _ => {
            return None;
        },
    }
    let args = split_args(pat);
    let ghost all = args_of(pat@);
    let len = pat.len();
    proof {
        assert(all.take(0) =~= Seq::<Seq<u8>>::empty());
        assert(joined(all.take(0)) =~= Seq::<u8>::empty());
        lemma_spelled(pat@, all, 0);
        assert(is_term(all[0]));
        assert(slices(args@)[0] == args@[0]@);
    }
    let mut j: usize = 1;
    let mut a: usize = 0;
    while a < args.len() && first_subterm_is_ground(args[a])
        invariant
            is_compound(pat@, all),
            slices(args@) == all,
            0 <= a <= all.len(),
            j == 1 + joined(all.take(a as int)).len(),
            j <= pat@.len() == len,
            pat@.take(j as int) == seq![pat@[0]] + joined(all.take(a as int)),
            first_open(all, 0) == first_open(all, a as int),
            a < all.len() ==> holds(1, all[a as int]) && slices(args@)[a as int] == args@[a as int]@,
        decreases all.len() - a,
    {
        proof {
            let k = all[a as int];
            assert(k.take(k.len() as int) =~= k);
            assert(is_term(k));
            assert(is_ground(k));
            assert(all.take(a + 1) =~= all.take(a as int).push(k));
            lemma_joined_push(all.take(a as int), k);
            lemma_spelled(pat@, all, a + 1);
            if a + 1 < all.len() {
                assert(is_term(all[a + 1]));
                assert(slices(args@)[a + 1] == args@[a + 1]@);
            }
        }
        j = j + args[a].len();
        a += 1;
    }
    proof {
        if a < all.len() {
            let k = all[a as int];
            assert(k.take(k.len() as int) =~= k);
            assert(is_term(k));
        }
        assert(lead(all) == a);
    }
    let prefix = to_vec(slice_subrange(pat, 0, j));
    assert(prefix@ =~= pat@.take(j as int));
    let ghost rest = columns_in(all);
    let mut cols: Vec<usize> = Vec::new();
    while a < args.len()
        invariant
            is_compound(pat@, all),
            slices(args@) == all,
            lead(all) <= a <= all.len(),
            0 <= lead(all),
            rest == columns_in(all),
            base == *old(nvars),
            base <= usize::MAX - 64,
            all.len() <= 63,
            cols@.len() == a - lead(all),
            cols@ == column_vars(rest, base, cols@.len() as int),
            *nvars == base + new_vars(rest, cols@.len() as int),
            first_bad(rest, 0) == first_bad(rest, cols@.len() as int),
            pat@[0] < 0x40,
            all == args_of(pat@),
        decreases all.len() - a,
    {
        let ghost n = cols@.len() as int;
        let arg = args[a];
        proof {
            assert(slices(args@)[a as int] == args@[a as int]@);
            assert(rest[n] == all[a as int]);
            assert(arg@ == rest[n]);
            assert(is_term(all[a as int]));
            lemma_new_vars_bound(rest, n);
        }
        if arg.len() != 1 {
            return None;
        }
        let id = match tag_of(arg[0]) {
            Tag::NewVar => {
                let id = *nvars;
                *nvars = *nvars + 1;
                id
            },
            Tag::VarRef(i) => i as usize,
            _ => {
                return None;
            },
        };
        cols.push(id);
        a += 1;
        assert(cols@ =~= column_vars(rest, base, n + 1));
    }
    proof {
        lemma_new_vars_bound(rest, rest.len() as int);
        assert(all.len() as u8 == pat@[0]);
    }
    Some(Factor { prefix, cols })
}

/// The first arguments follow the arity tag.
proof fn lemma_spelled(pat: Seq<u8>, args: Seq<Seq<u8>>, m: int)
    requires
        is_compound(pat, args),
        0 <= m <= args.len(),
    ensures
        1 + joined(args.take(m)).len() <= pat.len(),
        pat.take(1 + joined(args.take(m)).len() as int) == seq![pat[0]] + joined(args.take(m)),
{
    lemma_joined_take(args, m);
    let part = joined(args.take(m));
    let whole = joined(args);
    let all = seq![pat[0]] + whole;
    assert(all =~= pat.take(all.len() as int));
    assert(part =~= whole.take(part.len() as int));
    assert(pat.take(1 + part.len() as int) =~= all.take(1 + part.len() as int));
    assert(all.take(1 + part.len() as int) =~= seq![pat[0]] + part);
}

/// Nothing but the complete subterm at the front of `w` is its first term.
pub proof fn lemma_first_term(w: Seq<u8>, n: int)
    requires
        0 <= n <= w.len(),
        is_term(w.take(n)),
    ensures
        first_term(w) == w.take(n),
        holds(1, w),
{
    let t = w.take(n);
    assert(is_prefix(t, w));
    lemma_holds_extend(1, t, w);
    let u = first_term(w);
    assert(is_term(u) && is_prefix(u, w));
    if t.len() <= u.len() {
        lemma_prefixes_comparable(t, u, w);
        lemma_prefix_free(1, t, u);
    } else {
        lemma_prefixes_comparable(u, t, w);
        lemma_prefix_free(1, u, t);
    }
}

/// A body as factors, or why it is none.
pub enum BodyRead {
    /// The body breaks off, or has `()` as a conjunct.
    Broken,
    /// The body is no conjunction, or has a pattern that a factor cannot stand for.
    Declined,
    /// The factors, and how many variables they have.
    Parsed(Vec<Factor>, usize),
}

/// Read an encoded conjunction body, whatever it holds.
pub fn read_body(body: &[u8]) -> (r: BodyRead)
    ensures
        match r {
            BodyRead::Broken => body_read(body@) is Broken,
            BodyRead::Declined => body_read(body@) is Declined,
            BodyRead::Parsed(factors, nvars) => match body_read(body@) {
                Reading::Parsed(pats, n) => are_factors(factors@, pats) && nvars == n,
                _ => false,
            },
        },
{
    if body.len() == 0 {
        return BodyRead::Declined;
    }
    let nconj = match tag_of(body[0]) {
        Tag::Arity(n) => n,
        _ => {
            return BodyRead::Declined;
        },
    };
    if nconj == 0 {
        return BodyRead::Declined;
    }
    let mut rest = slice_subrange(body, 1, body.len());
    assert(rest@ =~= body@.skip(1));
    match complete_len(rest) {
        None => {
            return BodyRead::Broken;
        },
        Some(n) => {
            proof {
                lemma_first_term(rest@, n as int);
                assert(rest@.skip(n as int) =~= after_head(body@));
            }
            rest = slice_subrange(rest, n, rest.len());
            assert(rest@ =~= after_head(body@));
        },
    }
    let mut factors: Vec<Factor> = Vec::new();
    let mut nvars: usize = 0;
    let mut left: u8 = nconj - 1;
    let ghost mut pats: Seq<Pattern> = Seq::empty();
    while left > 0
        invariant
            left < 64,
            nvars <= 64 * (64 - left),
            are_factors(factors@, pats),
            body_read(body@) == conjuncts_read(rest@, left as nat, pats, nvars as nat),
        decreases left,
    {
        let n = match complete_len(rest) {
            None => {
                return BodyRead::Broken;
            },
            Some(n) => n,
        };
        let t = slice_subrange(rest, 0, n);
        proof {
            assert(t@ =~= rest@.take(n as int));
            lemma_first_term(rest@, n as int);
        }
        if t[0] == 0 {
            return BodyRead::Broken;
        }
        match parse_pattern_factor(t, &mut nvars) {
            None => {
                return BodyRead::Declined;
            },
            Some(factor) => {
                proof {
                    pats = pats.push(Pattern { prefix: factor.prefix@, cols: factor.cols@ });
                }
                factors.push(factor);
            },
        }
        assert(rest@.skip(n as int) =~= rest@.subrange(n as int, rest@.len() as int));
        rest = slice_subrange(rest, n, rest.len());
        left = left - 1;
    }
    BodyRead::Parsed(factors, nvars)
}

/// Parse an encoded conjunction body `(, p1 .. pk)` into factors, threading the body's variable
/// numbering (an introduction takes the next id in order of first occurrence, a reference names one).
/// Returns the factors and the variable count, or `None` if a pattern has a column that a factor
/// cannot stand for (a non-leading constant or a compound argument). The relation symbol and leading
/// ground arguments fold into the prefix; a variable in the head's place is a column like the rest.
///
/// A prefix is met byte for byte: a variable that a fact stores in the place of a leading constant, or
/// of a ground head, is not tried against it. A caller who wants such facts matched must not join
/// such a body.
pub fn parse_body_factors(body: &[u8]) -> (r: Option<(Vec<Factor>, usize)>)
    requires
        is_body(body@),
    ensures
        match r {
            Some((factors, nvars)) => match body_of(body@) {
                Some((pats, n)) => are_factors(factors@, pats) && nvars == n,
                None => false,
            },
            None => body_of(body@) is None,
        },
{
    match read_body(body) {
        BodyRead::Parsed(factors, nvars) => Some((factors, nvars)),
        _ => None,
    }
}

/// The facts that each pattern of a body stands for.
pub open spec fn pattern_relations(paths: Set<Seq<u8>>, pats: Seq<Pattern>) -> Seq<Relation> {
    pats.map_values(|pat: Pattern| Relation { paths, prefix: pat.prefix, vars: pat.cols })
}

/// The variables in the order of their numbers.
pub open spec fn numbered(n: nat) -> Seq<usize> {
    Seq::new(n, |i: int| i as usize)
}

/// The body's variables are all introduced by its columns, and its facts can be joined in the order
/// of their numbers.
pub open spec fn body_joinable(
    paths: Set<Seq<u8>>,
    values: Set<Seq<u8>>,
    pats: Seq<Pattern>,
    nvars: nat,
) -> bool {
    &&& forall|f: int, c: int|
        #![trigger pats[f].cols[c]]
        0 <= f < pats.len() && 0 <= c < pats[f].cols.len() ==> pats[f].cols[c] < nvars
    &&& all_joinable(values, pattern_relations(paths, pats), numbered(nvars))
}

/// `rows` are what [`unify_join_zipper`] returns for the patterns, in the order of their variables.
pub open spec fn is_numbered_join<T: PathTrie>(
    map: &T,
    pats: Seq<Pattern>,
    nvars: nat,
    rows: Vec<Vec<Vec<u8>>>,
) -> bool {
    exists|factors: &[Factor], order: &[usize], n: usize|
        are_factors(factors@, pats) && order@ == numbered(nvars) && n == nvars
            && #[trigger] call_ensures(
            unify_join_zipper::<T>,
            (map, factors, order, n),
            rows,
        )
}

/// Parse the conjunction body into factors and run the join. Variables bind in order of first
/// occurrence, the order in which the answer components are numbered. `None` if a pattern is one
/// that a factor cannot stand for, so that the caller can fall back on another join. The rows are
/// those of [`unify_join_zipper`], whatever the trie holds. As there, a variable that a fact stores in
/// the place of a leading constant, or of a ground head, is not tried against it, so a caller who
/// wants such facts matched must not send such a body.
pub fn unify_join_zipper_body<T: PathTrie>(map: &T, body: &[u8]) -> (r: Option<Vec<Vec<Vec<u8>>>>)
    requires
        is_body(body@),
        match body_of(body@) {
            Some((pats, nvars)) => body_joinable(map.paths(), map.values(), pats, nvars),
            None => true,
        },
    ensures
        match body_of(body@) {
            Some((pats, nvars)) => {
                &&& r is Some
                &&& is_numbered_join(map, pats, nvars, r->0)
                &&& ground_ascending(r->0@)
                &&& forall|row: Seq<Seq<u8>>| #[trigger]
                    row_found(r->0@, 0, row) ==> is_unifier_row(
                        pattern_relations(map.paths(), pats),
                        nvars,
                        all_ground(row),
                    )
                &&& forall|row: Seq<Seq<u8>>|
                    is_read_row(
                        map.values(),
                        pattern_relations(map.paths(), pats),
                        numbered(nvars),
                        nvars,
                        all_ground(row),
                    ) ==> #[trigger] row_found(r->0@, 0, row)
                &&& all_read_whole(
                    map.values(),
                    pattern_relations(map.paths(), pats),
                    numbered(nvars),
                ) ==> forall|row: Seq<Seq<u8>>|
                    is_unifier_row(pattern_relations(map.paths(), pats), nvars, all_ground(row))
                        ==> #[trigger] row_found(r->0@, 0, row)
            },
            None => r is None,
        },
{
    let (factors, nvars) = match parse_body_factors(body) {
        Some(parsed) => parsed,
        None => {
            return None;
        },
    };
    let mut var_order: Vec<usize> = Vec::new();
    while var_order.len() < nvars
        invariant
            var_order@.len() <= nvars,
            forall|i: int| 0 <= i < var_order@.len() ==> #[trigger] var_order@[i] == i,
        decreases nvars - var_order@.len(),
    {
        let next = var_order.len();
        var_order.push(next);
    }
    proof {
        let (pats, n) = body_of(body@)->0;
        assert(var_order@ =~= numbered(nvars as nat));
        assert(query_relations(map.paths(), factors@) =~= pattern_relations(map.paths(), pats));
        assert forall|f: int, c: int|
            #![trigger factors@[f].cols@[c]]
            0 <= f < factors@.len() && 0 <= c < factors@[f].cols@.len() implies ordered_before(
            var_order@,
            var_order@.len() as int,
            factors@[f].cols@[c],
        ) by {
            assert(pats[f].cols[c] < n);
            let v = factors@[f].cols@[c];
            assert(var_order@[v as int] == v);
        }
    }
    let fs: &[Factor] = &factors;
    let order: &[usize] = &var_order;
    let rows = unify_join_zipper(map, fs, order, nvars);
    proof {
        let (pats, n) = body_of(body@)->0;
        assert(are_factors(fs@, pats));
        assert(order@ == numbered(n));
        assert(nvars == n);
        assert(call_ensures(unify_join_zipper::<T>, (map, fs, order, nvars), rows));
        assert(is_numbered_join(map, pats, n, rows));
    }
    Some(rows)
}

} // verus!
