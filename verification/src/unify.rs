//! The unification join: stored variables in the facts are wildcards.

use vstd::prelude::*;
use crate::candidate::{can_unify, candidates, cands_ok, count_subterms, offered, visible, Cand};
use crate::cursor::{is_subterm, is_visible, SubtermCursor};
use crate::env::{Assignment, Env, Resolved};
use crate::equivalence::{is_covered, is_fact, lemma_choice_carries, lemma_rows_covered, says_same};
use crate::fact::{
    choice_walked, forces, gives, goes_on, holds_of, is_choice, is_new, is_scoped, is_unifier_row,
    is_wild, lemma_gives_unique, lemma_reaches_split, lemma_solves_taken, new_vars, reaches,
    reaches_walked, settles, slot, solves, well_scoped, Relation,
};
use crate::factor::{
    all_terms, columns_at, is_forward, joined, lemma_columns_push, lemma_joined_push, walked,
    Factor,
};
use crate::ground::{bytes_of, facts_present, lists_vars, ordered_before, row_found};
use crate::lists::{empty_lists, empty_strings, zeros};
use crate::order::to_vec;
use crate::path_set::PathSet;
use crate::prepare::{
    all_joinable, all_read, all_read_whole, has_walked, is_read, is_read_row, is_walked_as,
    lemma_read_whole, positions, prepare, query_relations, relations, variable_positions,
    SourceZipper,
};
use crate::rows::{ascending, has_row, insert_row, row_lt, row_of};
use crate::system::{
    equation, equations, extended, lemma_equations_push, lemma_extended, lemma_new_vars_push,
    lemma_system_solves, names_queries, renamed_apart, system,
};
use crate::term::is_term;
use crate::trie::{below, is_placed, PathTrie, Zipper};

verus! {

/// How far a factor had descended, and the bindings had come, at some point.
struct Spot {
    f: usize,
    bound_len: usize,
    col: usize,
    slots_len: usize,
    mark: usize,
}

/// The state of a unification join.
struct UnifyJoin<'a, T> {
    map: &'a T,
    /// Re-indexed copies of inverted factors; `factor_src[f] == Some(r)` reads `reindexes[r]`.
    reindexes: Vec<PathSet>,
    factor_src: Vec<Option<usize>>,
    /// A re-indexed factor's prefix and columns differ from the query's.
    factors: Vec<Factor>,
    var_order: &'a [usize],
    /// The position of each variable in `var_order`.
    var_pos: Vec<usize>,
    nvars: usize,
    /// The bytes of each factor's bound columns.
    bound: Vec<Vec<u8>>,
    /// How many columns of each factor are bound.
    next_col: Vec<usize>,
    /// The variables that each factor's fact has introduced so far.
    stored_slots: Vec<Vec<usize>>,
    env: Env,
    /// Answer rows in ascending order.
    out: Vec<Vec<Option<Vec<u8>>>>,
    /// The bound columns of each factor.
    taken: Ghost<Seq<Seq<Seq<u8>>>>,
}

impl<'a, T: PathTrie> UnifyJoin<'a, T> {
    spec fn rels(&self) -> Seq<Relation> {
        relations(*self.map, self.reindexes@, self.factor_src@, self.factors@)
    }

    spec fn cols(&self, f: int) -> Seq<usize> {
        self.factors@[f].cols@
    }

    spec fn slots(&self) -> Seq<Seq<usize>> {
        self.stored_slots@.map_values(|v: Vec<usize>| v@)
    }

    /// What does not change while the join runs.
    spec fn query_ok(&self) -> bool {
        &&& self.factor_src@.len() == self.factors@.len()
        &&& forall|f: int|
            0 <= f < self.factors@.len() ==> match #[trigger] self.factor_src@[f] {
                Some(r) => r < self.reindexes@.len(),
                None => true,
            }
        &&& lists_vars(self.factors@, self.var_order@, self.nvars as nat)
        &&& self.var_pos@.len() == self.nvars
        &&& positions(self.var_order@, self.var_pos@)
        &&& forall|f: int|
            0 <= f < self.factors@.len() ==> #[trigger] is_forward(self.cols(f), self.var_pos@)
        &&& forall|f: int| 0 <= f < self.factors@.len() ==> is_scoped(#[trigger] self.rels()[f])
        &&& forall|f: int| 0 <= f < self.factors@.len() ==> #[trigger] self.has_fact(f)
    }

    /// A factor without columns has its fact.
    spec fn has_fact(&self, f: int) -> bool {
        self.cols(f).len() == 0 ==> self.rels()[f].paths.contains(self.rels()[f].prefix)
    }

    spec fn factor_ok(&self, f: int) -> bool {
        &&& self.next_col@[f] <= self.cols(f).len()
        &&& self.taken@[f].len() == self.next_col@[f]
        &&& self.bound@[f]@ == joined(self.taken@[f])
        &&& all_terms(self.taken@[f])
        &&& self.next_col@[f] > 0 ==> columns_at(
            self.rels()[f].paths,
            self.rels()[f].prefix,
            self.taken@[f],
        )
    }

    /// The bindings say exactly what the bound columns say.
    spec fn env_ok(&self) -> bool {
        &&& self.env.wf()
        &&& self.nvars <= self.env.ids()
        &&& renamed_apart(self.rels(), self.taken@, self.slots(), self.nvars as nat)
        &&& forall|f: int, t: int|
            0 <= f < self.factors@.len() && 0 <= t < self.slots()[f].len()
                ==> #[trigger] self.slots()[f][t] < self.env.ids()
        &&& forall|s: Assignment| #[trigger]
            self.env.allows(s) == system(self.rels(), self.taken@, self.slots(), s)
    }

    spec fn state_ok(&self) -> bool {
        &&& self.query_ok()
        &&& self.bound@.len() == self.factors@.len()
        &&& self.next_col@.len() == self.factors@.len()
        &&& self.stored_slots@.len() == self.factors@.len()
        &&& self.taken@.len() == self.factors@.len()
        &&& forall|f: int| 0 <= f < self.factors@.len() ==> #[trigger] self.factor_ok(f)
        &&& self.env_ok()
        &&& ascending(self.out@)
    }

    /// The next column of factor `f` is at position `i` of the order or later.
    spec fn ahead(&self, f: int, i: int) -> bool {
        self.next_col@[f] < self.cols(f).len() ==> i
            <= self.var_pos@[self.cols(f)[self.next_col@[f] as int] as int]
    }

    /// The next column of factor `f` is variable `v`.
    spec fn next_is(&self, f: int, v: usize) -> bool {
        self.next_col@[f] < self.cols(f).len() && self.cols(f)[self.next_col@[f] as int] == v
    }

    spec fn same_query(&self, other: &Self) -> bool {
        &&& self.map == other.map
        &&& self.reindexes == other.reindexes
        &&& self.factor_src == other.factor_src
        &&& self.factors == other.factors
        &&& self.var_order == other.var_order
        &&& self.var_pos == other.var_pos
        &&& self.nvars == other.nvars
    }

    /// The same position, whatever the rows found and the variables that are no longer used.
    spec fn same_place(&self, other: &Self) -> bool {
        &&& self.same_query(other)
        &&& self.next_col@ == other.next_col@
        &&& self.taken@ == other.taken@
        &&& self.bound@.len() == other.bound@.len()
        &&& forall|f: int|
            0 <= f < self.bound@.len() ==> (#[trigger] self.bound@[f])@ == other.bound@[f]@
        &&& self.slots() == other.slots()
        &&& self.env.restores(&other.env)
    }

    spec fn answers(&self, row: Seq<Option<Seq<u8>>>) -> bool {
        reaches(self.rels(), self.taken@, self.nvars as nat, row)
    }

    /// The answers from here that no dead end keeps the search from.
    spec fn due(&self, row: Seq<Option<Seq<u8>>>) -> bool {
        reaches_walked(self.rels(), self.taken@, self.nvars as nat, row)
    }

    /// Those with `k` as the next column of factor `f`.
    spec fn due_with(&self, f: int, k: Seq<u8>, row: Seq<Option<Seq<u8>>>) -> bool {
        reaches_walked(
            self.rels(),
            self.taken@.update(f, self.taken@[f].push(k)),
            self.nvars as nat,
            row,
        )
    }

    /// The answers with `k` as the next column of factor `f`.
    spec fn answers_with(&self, f: int, k: Seq<u8>, row: Seq<Option<Seq<u8>>>) -> bool {
        reaches(
            self.rels(),
            self.taken@.update(f, self.taken@[f].push(k)),
            self.nvars as nat,
            row,
        )
    }

    /// The rows are those of `old` and answers from there, among them all that are due.
    spec fn found(&self, old: &Self) -> bool {
        &&& self.same_place(old)
        &&& ascending(self.out@)
        &&& forall|row: Seq<Option<Seq<u8>>>| #[trigger]
            has_row(self.out@, row) ==> has_row(old.out@, row) || old.answers(row)
        &&& forall|row: Seq<Option<Seq<u8>>>| #[trigger]
            has_row(old.out@, row) ==> has_row(self.out@, row)
        &&& forall|row: Seq<Option<Seq<u8>>>| #[trigger]
            old.due(row) ==> has_row(self.out@, row)
    }

    proof fn lemma_same_place(&self, other: &Self)
        requires
            self.same_place(other),
            other.state_ok(),
            ascending(self.out@),
        ensures
            self.state_ok(),
            forall|f: int, i: int| #[trigger] self.ahead(f, i) == other.ahead(f, i),
            forall|f: int, v: usize| #[trigger] self.next_is(f, v) == other.next_is(f, v),
            forall|row: Seq<Option<Seq<u8>>>| #[trigger] self.answers(row) == other.answers(row),
            forall|f: int, k: Seq<u8>, row: Seq<Option<Seq<u8>>>| #[trigger]
                self.answers_with(f, k, row) == other.answers_with(f, k, row),
            forall|row: Seq<Option<Seq<u8>>>| #[trigger] self.due(row) == other.due(row),
            forall|f: int, k: Seq<u8>, row: Seq<Option<Seq<u8>>>| #[trigger]
                self.due_with(f, k, row) == other.due_with(f, k, row),
    {
        assert(self.rels() == other.rels());
        assert(self.slots().len() == self.stored_slots@.len());
        assert(other.slots().len() == other.stored_slots@.len());
        assert forall|f: int| 0 <= f < self.factors@.len() implies #[trigger] self.factor_ok(f) by {
            assert(other.factor_ok(f));
            assert(self.bound@[f]@ == other.bound@[f]@);
        }
        assert forall|f: int| 0 <= f < self.factors@.len() implies #[trigger] is_forward(
            self.cols(f),
            self.var_pos@,
        ) by {
            assert(is_forward(other.cols(f), other.var_pos@));
        }
        assert forall|f: int| 0 <= f < self.factors@.len() implies #[trigger] self.has_fact(f) by {
            assert(other.has_fact(f));
        }
        self.env.lemma_restores(&other.env);
        assert forall|s: Assignment| #[trigger] self.env.allows(s) == system(
            self.rels(),
            self.taken@,
            self.slots(),
            s,
        ) by {
            assert(other.env.allows(s) == system(other.rels(), other.taken@, other.slots(), s));
        }
    }

    /// Every variable that a factor names is a query variable.
    proof fn lemma_names_queries(&self)
        requires
            self.query_ok(),
        ensures
            names_queries(self.rels(), self.nvars as nat),
            forall|f: int, c: int|
                0 <= f < self.factors@.len() && 0 <= c < self.cols(f).len() ==> #[trigger] self.cols(
                    f,
                )[c] < self.nvars,
    {
        assert forall|f: int, j: int|
            0 <= f < self.rels().len() && 0 <= j
                < self.rels()[f].vars.len() implies #[trigger] self.rels()[f].vars[j] < self.nvars by {
            assert(ordered_before(
                self.var_order@,
                self.var_order@.len() as int,
                self.factors@[f].cols@[j],
            ));
        }
        assert forall|f: int, c: int|
            0 <= f < self.factors@.len() && 0 <= c < self.cols(f).len() implies #[trigger] self.cols(
            f,
        )[c] < self.nvars by {
            assert(self.rels()[f].vars[c] < self.nvars);
        }
    }

    spec fn branch(&self, f: int) -> Set<Seq<u8>> {
        below(self.rels()[f].paths, self.rels()[f].prefix + self.bound@[f]@)
    }

    /// A zipper at `path` of what factor `f` reads: its re-indexed copy if it was inverted, else the
    /// live map.
    fn src_map(&self, f: usize, path: &[u8]) -> (z: SourceZipper<'_, T::ReadZipper<'a>>)
        requires
            self.query_ok(),
            f < self.factors@.len(),
        ensures
            is_placed(&z),
            z.paths() == self.rels()[f as int].paths,
            z.focus() == path@,
    {
        assert(match self.factor_src@[f as int] {
            Some(r) => r < self.reindexes@.len(),
            None => true,
        });
        match self.factor_src[f] {
            Some(r) => SourceZipper::Copy(self.reindexes[r].read_zipper_at_path(path)),
            None => SourceZipper::Live(self.map.read_zipper_at_path(path)),
        }
    }

    /// A cursor over the next column of factor `f`.
    fn column(&self, f: usize) -> (cur: SubtermCursor<SourceZipper<'_, T::ReadZipper<'a>>>)
        requires
            self.state_ok(),
            f < self.factors@.len(),
            self.next_col@[f as int] < self.cols(f as int).len(),
        ensures
            cur.wf(),
            cur.branch() == self.branch(f as int),
    {
        let mut path = to_vec(&self.factors[f].prefix);
        path.extend_from_slice(&self.bound[f]);
        assert(path@ =~= self.rels()[f as int].prefix + self.bound@[f as int]@);
        SubtermCursor::new(self.src_map(f, &path))
    }

    /// Domain-size estimate for lead selection: how many subterms the next column of factor `f`
    /// has, up to a small cap, so that the cost does not depend on the size of the relation.
    fn domain_estimate(&self, f: usize) -> (n: usize)
        requires
            self.state_ok(),
            f < self.factors@.len(),
            self.next_col@[f as int] < self.cols(f as int).len(),
        ensures
            n == self.estimate(f as int),
    {
        let mut cur = self.column(f);
        count_subterms(&mut cur, 32)
    }

    spec fn estimate(&self, f: int) -> int {
        let n = visible(self.branch(f)).len() as int;
        if n < 32 {
            n
        } else {
            32
        }
    }

    /// A value that the bindings determine is a column that some fact has there, so it is a
    /// complete subterm and no wildcard.
    proof fn lemma_determined(&self, v: int, g: Seq<u8>)
        requires
            self.state_ok(),
            self.env.determines(v, g),
        ensures
            is_term(g),
            !is_wild(g),
    {
        if !is_term(g) || is_wild(g) {
            let s = self.env.lemma_free(|x: int| Seq::empty());
            let other = g.push(0);
            let t: Assignment = |x: int|
                if s(x) == g {
                    other
                } else {
                    s(x)
                };
            let rels = self.rels();
            let taken = self.taken@;
            let ids = self.slots();
            assert(system(rels, taken, ids, s));
            assert forall|f: int| 0 <= f < rels.len() implies equations(
                rels[f].vars,
                #[trigger] taken[f],
                ids[f],
                t,
            ) by {
                assert(self.factor_ok(f));
                assert(equations(rels[f].vars, taken[f], ids[f], s));
                assert forall|j: int| 0 <= j < taken[f].len() implies #[trigger] equation(
                    rels[f].vars,
                    taken[f],
                    ids[f],
                    t,
                    j,
                ) by {
                    assert(equation(rels[f].vars, taken[f], ids[f], s, j));
                    assert(is_term(taken[f][j]));
                }
            }
            assert(self.env.allows(t));
            assert(s(v) == g && t(v) == g);
            assert(other.len() != g.len());
        }
    }

    /// A next column that cannot be equal to the value of its variable leads to no answer.
    proof fn lemma_no_answer(&self, f: int, g: Seq<u8>, k: Seq<u8>)
        requires
            self.state_ok(),
            0 <= f < self.factors@.len(),
            self.next_col@[f] < self.cols(f).len(),
            self.env.determines(self.cols(f)[self.next_col@[f] as int] as int, g),
            k != g,
            !is_wild(k),
        ensures
            forall|row: Seq<Option<Seq<u8>>>| !#[trigger] self.answers_with(f, k, row),
    {
        assert(self.factor_ok(f));
        self.lemma_names_queries();
        let rels = self.rels();
        let n = self.taken@[f].len() as int;
        let v = self.cols(f)[n] as int;
        let more = self.taken@.update(f, self.taken@[f].push(k));
        assert forall|row: Seq<Option<Seq<u8>>>| !#[trigger] self.answers_with(f, k, row) by {
            if self.answers_with(f, k, row) {
                let choice = choose|choice: Seq<Seq<Seq<u8>>>| #[trigger]
                    is_choice(rels, choice) && goes_on(more, choice) && gives(
                        rels,
                        choice,
                        self.nvars as nat,
                        row,
                    );
                let q = choose|q: Assignment| #[trigger] solves(rels, choice, q);
                lemma_solves_taken(rels, more, choice, q);
                assert(holds_of(rels[f].vars, more[f], q));
                assert(more[f][n] == k);
                assert(q(v) == k);
                self.lemma_more_goes_on(f, k, choice);
                lemma_solves_taken(rels, self.taken@, choice, q);
                lemma_extended(rels, self.taken@, self.slots(), self.nvars as nat, q);
                let s = extended(rels, self.taken@, self.slots(), self.nvars as nat, q);
                assert(self.env.allows(s));
                assert(self.rels()[f].vars[n] < self.nvars);
                assert(s(v) == q(v));
            }
        }
    }

    /// A choice that goes on from one more column goes on from the columns before it.
    proof fn lemma_more_goes_on(&self, f: int, k: Seq<u8>, choice: Seq<Seq<Seq<u8>>>)
        requires
            0 <= f < self.taken@.len(),
            goes_on(self.taken@.update(f, self.taken@[f].push(k)), choice),
        ensures
            goes_on(self.taken@, choice),
    {
        let taken = self.taken@;
        let more = taken.update(f, taken[f].push(k));
        let n = taken[f].len() as int;
        assert forall|g: int| 0 <= g < taken.len() implies (#[trigger] taken[g]).len()
            <= choice[g].len() && choice[g].take(taken[g].len() as int) == taken[g] by {
            if g != f {
                assert(more[g] == taken[g]);
            } else {
                assert(more[f] == taken[f].push(k));
                assert(choice[f].take(n) =~= choice[f].take(n + 1).take(n));
                assert(taken[f].push(k).take(n) =~= taken[f]);
            }
        }
    }

    /// What is due is an answer.
    proof fn lemma_due_with(&self, f: int, k: Seq<u8>, row: Seq<Option<Seq<u8>>>)
        requires
            self.due_with(f, k, row),
        ensures
            self.answers_with(f, k, row),
    {
        let rels = self.rels();
        let more = self.taken@.update(f, self.taken@[f].push(k));
        let choice = choose|choice: Seq<Seq<Seq<u8>>>| #[trigger]
            is_choice(rels, choice) && goes_on(more, choice) && gives(
                rels,
                choice,
                self.nvars as nat,
                row,
            ) && choice_walked(rels, choice);
        assert(is_choice(rels, choice) && goes_on(more, choice));
    }

    /// The candidates at factor `f`'s current column that can unify with its variable `qvar`.
    fn open_candidates(&self, f: usize, qvar: usize) -> (cands: Vec<Cand>)
        requires
            self.state_ok(),
            f < self.factors@.len(),
            self.next_is(f as int, qvar),
        ensures
            cands_ok(cands@),
            forall|k: Seq<u8>| #[trigger]
                offered(cands@, k) ==> is_subterm(self.branch(f as int), k),
            forall|k: Seq<u8>, row: Seq<Option<Seq<u8>>>| #[trigger]
                is_visible(self.branch(f as int), k) && #[trigger] self.due_with(
                    f as int,
                    k,
                    row,
                ) ==> offered(cands@, k),
    {
        proof {
            self.lemma_names_queries();
            assert(self.cols(f as int)[self.next_col@[f as int] as int] < self.nvars);
        }
        let vb = self.env.resolve(qvar);
        proof {
            match &vb {
                Resolved::Ground(g) => {
                    self.lemma_determined(qvar as int, g@);
                },
                _ => {},
            }
        }
        let mut cur = self.column(f);
        let cands = candidates(&mut cur, &vb);
        proof {
            assert forall|k: Seq<u8>, row: Seq<Option<Seq<u8>>>| #[trigger]
                is_visible(self.branch(f as int), k) && #[trigger] self.due_with(
                    f as int,
                    k,
                    row,
                ) implies offered(cands@, k) by {
                self.lemma_due_with(f as int, k, row);
                if !can_unify(vb, k) {
                    match &vb {
                        Resolved::Ground(g) => {
                            self.lemma_no_answer(f as int, g@, k);
                        },
                        _ => {},
                    }
                }
            }
        }
        cands
    }

    /// The equation of the next column `k` of factor `f`.
    spec fn next_equation(&self, f: int, k: Seq<u8>, ids: Seq<usize>, s: Assignment) -> bool {
        equation(self.cols(f), self.taken@[f].push(k), ids, s, self.taken@[f].len() as int)
    }

    /// Unify `qvar` with a candidate child of factor `f`; returns whether it held, and the bytes to
    /// descend. A wildcard that introduces a variable allocates a fresh one, and one that refers
    /// back reads the variable that the same fact introduced.
    fn apply_cand(&mut self, qvar: usize, cand: &Cand, f: usize) -> (r: (bool, Vec<u8>))
        requires
            old(self).state_ok(),
            f < old(self).factors@.len(),
            old(self).next_is(f as int, qvar),
            cand.wf(),
            well_scoped(old(self).taken@[f as int].push(cand@)),
        ensures
            r.1@ == cand@,
            final(self).same_query(old(self)),
            final(self).next_col@ == old(self).next_col@,
            final(self).taken@ == old(self).taken@,
            final(self).bound@ == old(self).bound@,
            final(self).out@ == old(self).out@,
            final(self).stored_slots@.len() == old(self).stored_slots@.len(),
            forall|g: int|
                0 <= g < old(self).factors@.len() && g != f
                    ==> #[trigger] final(self).stored_slots@[g] == old(self).stored_slots@[g],
            final(self).stored_slots@[f as int]@ == if is_new(cand@) {
                old(self).stored_slots@[f as int]@.push(old(self).env.ids() as usize)
            } else {
                old(self).stored_slots@[f as int]@
            },
            old(self).env.ids() + (if is_new(cand@) {
                1int
            } else {
                0int
            }) == final(self).env.ids(),
            is_new(cand@) ==> old(self).env.ids() <= usize::MAX,
            final(self).env.wf(),
            final(self).env.grew_from(&old(self).env),
            !r.0 ==> forall|s: Assignment| #[trigger]
                old(self).env.allows(s) ==> !old(self).next_equation(
                    f as int,
                    cand@,
                    final(self).stored_slots@[f as int]@,
                    s,
                ),
            r.0 ==> forall|s: Assignment| #[trigger]
                final(self).env.allows(s) == (old(self).env.allows(s) && old(self).next_equation(
                    f as int,
                    cand@,
                    final(self).stored_slots@[f as int]@,
                    s,
                )),
    {
        let ghost before = *self;
        let ghost n = before.taken@[f as int].len() as int;
        let ghost more = before.taken@[f as int].push(cand@);
        proof {
            assert(before.factor_ok(f as int));
            before.lemma_names_queries();
            assert(before.cols(f as int)[n] < before.nvars);
            assert(more[n] == cand@);
            lemma_new_vars_push(before.taken@[f as int], cand@, n);
            assert(before.taken@[f as int].len() <= before.rels()[f as int].vars.len());
        }
        match cand {
            Cand::Ground(g) => {
                let ok = self.env.unify_var_ground(qvar, g);
                (ok, to_vec(g))
            },
            Cand::Wild(w) => {
                let id = if *w == 0xC0 {
                    let id = self.env.fresh();
                    self.stored_slots[f].push(id);
                    id
                } else {
                    proof {
                        let b = *w;
                        assert(0x80 <= b < 0xC0 ==> b & 0x3F == b - 0x80) by (bit_vector);
                        assert(before.slots()[f as int] == before.stored_slots@[f as int]@);
                        assert(slot(more, n) < new_vars(more, n));
                    }
                    self.stored_slots[f][(*w & 0x3F) as usize]
                };
                let ghost mid = self.env;
                proof {
                    assert(before.slots()[f as int] == before.stored_slots@[f as int]@);
                    if *w != 0xC0 {
                        assert(before.slots()[f as int][slot(more, n)] == id);
                    }
                    assert(self.stored_slots@[f as int]@[slot(more, n)] == id);
                }
                let ok = self.env.unify_var_var(qvar, id);
                proof {
                    assert(mid.grew_from(&before.env)) by {
                        assert(mid.trail().take(before.env.trail().len() as int) =~= mid.trail());
                    }
                    self.env.lemma_grew_trans(&mid, &before.env);
                    assert forall|s: Assignment| #[trigger]
                        before.env.allows(s) implies before.next_equation(
                        f as int,
                        cand@,
                        self.stored_slots@[f as int]@,
                        s,
                    ) == (s(qvar as int) == s(id as int)) && mid.allows(s) by {}
                }
                let mut bytes: Vec<u8> = Vec::new();
                bytes.push(*w);
                assert(bytes@ =~= cand@);
                (ok, bytes)
            },
        }
    }

    /// This state is `base` with more columns of factor `f`.
    spec fn came_from(&self, base: &Self, f: int) -> bool {
        &&& self.same_query(base)
        &&& self.bound@.len() == base.bound@.len()
        &&& self.next_col@.len() == base.next_col@.len()
        &&& self.stored_slots@.len() == base.stored_slots@.len()
        &&& forall|g: int|
            0 <= g < base.factors@.len() && g != f ==> #[trigger] self.same_factor(base, g)
        &&& base.bound@[f]@.len() <= self.bound@[f]@.len()
        &&& self.bound@[f]@.take(base.bound@[f]@.len() as int) == base.bound@[f]@
        &&& base.slots()[f].len() <= self.slots()[f].len()
        &&& self.slots()[f].take(base.slots()[f].len() as int) == base.slots()[f]
        &&& self.env.wf()
        &&& self.env.grew_from(&base.env)
    }

    spec fn same_factor(&self, other: &Self, g: int) -> bool {
        &&& self.bound@[g]@ == other.bound@[g]@
        &&& self.next_col@[g] == other.next_col@[g]
        &&& self.slots()[g] == other.slots()[g]
    }

    /// The equations of one more column of factor `f`.
    proof fn lemma_system_more(&self, f: int, k: Seq<u8>, ids: Seq<Seq<usize>>, s: Assignment)
        requires
            self.state_ok(),
            0 <= f < self.factors@.len(),
            ids.len() == self.factors@.len(),
            forall|g: int|
                0 <= g < self.factors@.len() && g != f ==> #[trigger] ids[g] == self.slots()[g],
            ids[f].len() >= self.slots()[f].len(),
            ids[f].take(self.slots()[f].len() as int) == self.slots()[f],
        ensures
            system(self.rels(), self.taken@.update(f, self.taken@[f].push(k)), ids, s) == (system(
                self.rels(),
                self.taken@,
                self.slots(),
                s,
            ) && self.next_equation(f, k, ids[f], s)),
    {
        let rels = self.rels();
        let taken = self.taken@;
        let more = taken.update(f, taken[f].push(k));
        assert(taken[f].len() <= rels[f].vars.len());
        lemma_equations_push(rels[f].vars, taken[f], self.slots()[f], k, ids[f], s);
        assert(more[f] == taken[f].push(k));
        if system(rels, more, ids, s) {
            assert(equations(rels[f].vars, more[f], ids[f], s));
            assert forall|g: int| 0 <= g < rels.len() implies equations(
                rels[g].vars,
                #[trigger] taken[g],
                self.slots()[g],
                s,
            ) by {
                if g != f {
                    assert(more[g] == taken[g]);
                    assert(ids[g] == self.slots()[g]);
                    assert(equations(rels[g].vars, more[g], ids[g], s));
                }
            }
        }
        if system(rels, taken, self.slots(), s) && self.next_equation(f, k, ids[f], s) {
            assert forall|g: int| 0 <= g < rels.len() implies equations(
                rels[g].vars,
                #[trigger] more[g],
                ids[g],
                s,
            ) by {
                assert(equations(rels[g].vars, taken[g], self.slots()[g], s));
                if g != f {
                    assert(more[g] == taken[g]);
                    assert(ids[g] == self.slots()[g]);
                }
            }
        }
    }

    /// With a fresh variable for a wildcard that introduces one, the facts stay renamed apart.
    proof fn lemma_still_apart(&self, f: int, k: Seq<u8>, ids: Seq<Seq<usize>>)
        requires
            self.state_ok(),
            0 <= f < self.factors@.len(),
            self.next_col@[f] < self.cols(f).len(),
            well_scoped(self.taken@[f].push(k)),
            ids.len() == self.factors@.len(),
            forall|g: int|
                0 <= g < self.factors@.len() && g != f ==> #[trigger] ids[g] == self.slots()[g],
            ids[f] == if is_new(k) {
                self.slots()[f].push(self.env.ids() as usize)
            } else {
                self.slots()[f]
            },
            is_new(k) ==> self.env.ids() <= usize::MAX,
        ensures
            renamed_apart(
                self.rels(),
                self.taken@.update(f, self.taken@[f].push(k)),
                ids,
                self.nvars as nat,
            ),
    {
        let rels = self.rels();
        let taken = self.taken@;
        let more = taken.update(f, taken[f].push(k));
        let old_ids = self.slots();
        let n = taken[f].len() as int;
        assert(self.factor_ok(f));
        assert(taken[f].len() <= rels[f].vars.len());
        lemma_new_vars_push(taken[f], k, n);
        assert(taken[f].push(k)[n] == k);
        assert(new_vars(taken[f].push(k), n + 1) == new_vars(taken[f], n) + if is_new(k) {
            1nat
        } else {
            0nat
        });
        assert forall|g: int| 0 <= g < rels.len() implies {
            &&& (#[trigger] more[g]).len() <= rels[g].vars.len()
            &&& well_scoped(more[g])
            &&& ids[g].len() == new_vars(more[g], more[g].len() as int)
        } by {
            if g != f {
                assert(more[g] == taken[g]);
                assert(ids[g] == old_ids[g]);
            }
        }
        assert forall|g: int, t: int| 0 <= g < rels.len() && 0 <= t < ids[g].len() implies self.nvars
            <= #[trigger] ids[g][t] by {
            if t < old_ids[g].len() {
                assert(g != f ==> ids[g] == old_ids[g]);
                assert(ids[g][t] == old_ids[g][t]);
            }
        }
        assert forall|g: int, t: int, h: int, u: int|
            #![trigger ids[g][t], ids[h][u]]
            0 <= g < rels.len() && 0 <= t < ids[g].len() && 0 <= h < rels.len() && 0 <= u
                < ids[h].len() && ids[g][t] == ids[h][u] implies g == h && t == u by {
            assert(g != f ==> ids[g] == old_ids[g]);
            assert(h != f ==> ids[h] == old_ids[h]);
            if t < old_ids[g].len() {
                assert(ids[g][t] == old_ids[g][t]);
            }
            if u < old_ids[h].len() {
                assert(ids[h][u] == old_ids[h][u]);
            }
        }
    }

    /// Unify the next column of factor `f` with a candidate, and descend when that held.
    fn enter(&mut self, qvar: usize, cand: &Cand, f: usize) -> (ok: bool)
        requires
            old(self).state_ok(),
            f < old(self).factors@.len(),
            old(self).next_is(f as int, qvar),
            cand.wf(),
            is_subterm(old(self).branch(f as int), cand@),
        ensures
            final(self).came_from(old(self), f as int),
            final(self).out@ == old(self).out@,
            ok ==> {
                &&& final(self).state_ok()
                &&& final(self).taken@ == old(self).taken@.update(
                    f as int,
                    old(self).taken@[f as int].push(cand@),
                )
                &&& final(self).next_col@[f as int] == old(self).next_col@[f as int] + 1
            },
            !ok ==> forall|row: Seq<Option<Seq<u8>>>| !#[trigger] old(self).answers_with(
                f as int,
                cand@,
                row,
            ),
    {
        let ghost before = *self;
        let ghost k = cand@;
        let ghost more = before.taken@.update(f as int, before.taken@[f as int].push(k));
        let ncols = self.factors[f].cols.len();
        proof {
            assert(before.factor_ok(f as int));
            lemma_columns_push(
                before.rels()[f as int].paths,
                before.rels()[f as int].prefix,
                before.taken@[f as int],
                k,
            );
            assert(is_scoped(before.rels()[f as int]));
            assert(well_scoped(before.taken@[f as int].push(k)));
        }
        let (ok, bytes) = self.apply_cand(qvar, cand, f);
        proof {
            assert(self.slots()[f as int] == self.stored_slots@[f as int]@);
            assert(before.slots()[f as int] == before.stored_slots@[f as int]@);
            assert forall|g: int| 0 <= g < self.factors@.len() && g != f implies #[trigger] self.slots()[g]
                == before.slots()[g] by {
                assert(self.stored_slots@[g] == before.stored_slots@[g]);
            }
            assert(self.slots()[f as int].take(before.slots()[f as int].len() as int)
                =~= before.slots()[f as int]);
            before.lemma_still_apart(f as int, k, self.slots());
        }
        if ok {
            self.bound[f].extend_from_slice(&bytes);
            assert(self.next_col@[f as int] < ncols);
            self.next_col[f] = self.next_col[f] + 1;
            proof {
                self.taken@ = more;
                assert(self.rels() == before.rels());
                assert forall|s: Assignment| #[trigger] self.env.allows(s) == system(
                    self.rels(),
                    self.taken@,
                    self.slots(),
                    s,
                ) by {
                    before.lemma_system_more(f as int, k, self.slots(), s);
                }
                assert forall|g: int, t: int|
                    0 <= g < self.factors@.len() && 0 <= t
                        < self.slots()[g].len() implies #[trigger] self.slots()[g][t] < self.env.ids() by {
                    assert(g != f ==> self.slots()[g] == before.slots()[g]);
                    if t < before.slots()[g].len() {
                        assert(self.slots()[g][t] == before.slots()[g][t]);
                    }
                }
                assert(self.bound@[f as int]@ =~= before.bound@[f as int]@ + k);
                lemma_joined_push(before.taken@[f as int], k);
                assert forall|g: int| 0 <= g < self.factors@.len() implies #[trigger] self.factor_ok(g) by {
                    assert(before.factor_ok(g));
                    if g != f {
                        assert(more[g] == before.taken@[g]);
                        assert(self.bound@[g] == before.bound@[g]);
                    }
                }
                assert forall|g: int| 0 <= g < self.factors@.len() implies #[trigger] is_forward(
                    self.cols(g),
                    self.var_pos@,
                ) by {
                    assert(is_forward(before.cols(g), before.var_pos@));
                }
                assert forall|g: int| 0 <= g < self.factors@.len() implies #[trigger] self.has_fact(g) by {
                    assert(before.has_fact(g));
                }
            }
        } else {
            proof {
                assert forall|row: Seq<Option<Seq<u8>>>| !#[trigger] before.answers_with(
                    f as int,
                    k,
                    row,
                ) by {
                    if before.answers_with(f as int, k, row) {
                        let rels = before.rels();
                        let choice = choose|choice: Seq<Seq<Seq<u8>>>| #[trigger]
                            is_choice(rels, choice) && goes_on(more, choice) && gives(
                                rels,
                                choice,
                                before.nvars as nat,
                                row,
                            );
                        let q = choose|q: Assignment| #[trigger] solves(rels, choice, q);
                        lemma_solves_taken(rels, more, choice, q);
                        before.lemma_names_queries();
                        lemma_extended(rels, more, self.slots(), before.nvars as nat, q);
                        let s = extended(rels, more, self.slots(), before.nvars as nat, q);
                        before.lemma_system_more(f as int, k, self.slots(), s);
                        assert(before.env.allows(s));
                    }
                }
            }
        }
        proof {
            assert(self.bound@[f as int]@.take(before.bound@[f as int]@.len() as int)
                =~= before.bound@[f as int]@);
            assert forall|g: int| 0 <= g < before.factors@.len() && g != f implies #[trigger] self.same_factor(
                &before,
                g,
            ) by {
                assert(self.slots()[g] == before.slots()[g]);
            }
        }
        ok
    }

    /// Where factor `f` and the bindings are now.
    fn spot(&self, f: usize) -> (spot: Spot)
        requires
            self.state_ok(),
            f < self.factors@.len(),
        ensures
            self.is_at(spot),
            spot.f == f,
    {
        assert(self.slots()[f as int] == self.stored_slots@[f as int]@);
        Spot {
            f,
            bound_len: self.bound[f].len(),
            col: self.next_col[f],
            slots_len: self.stored_slots[f].len(),
            mark: self.env.mark(),
        }
    }

    spec fn is_at(&self, spot: Spot) -> bool {
        let f = spot.f as int;
        &&& f < self.factors@.len()
        &&& spot.bound_len == self.bound@[f]@.len()
        &&& spot.col == self.next_col@[f]
        &&& spot.slots_len == self.slots()[f].len()
        &&& spot.mark == self.env.trail().len()
    }

    /// Undo what was done to the factor of `spot`, and to the bindings, since `base`.
    fn leave(&mut self, spot: &Spot, Ghost(base): Ghost<Self>)
        requires
            base.state_ok(),
            base.is_at(*spot),
            old(self).came_from(&base, spot.f as int),
        ensures
            final(self).same_place(&base),
            final(self).out@ == old(self).out@,
    {
        let ghost before = *self;
        let f = spot.f;
        self.bound[f].truncate(spot.bound_len);
        self.next_col[f] = spot.col;
        assert(self.slots()[f as int] == self.stored_slots@[f as int]@);
        self.stored_slots[f].truncate(spot.slots_len);
        self.env.rollback(spot.mark);
        proof {
            self.taken@ = base.taken@;
            self.env.lemma_rollback(&before.env, &base.env);
            assert(self.next_col@ =~= base.next_col@) by {
                assert forall|g: int| 0 <= g < base.next_col@.len() implies self.next_col@[g]
                    == base.next_col@[g] by {
                    if g != f {
                        assert(before.same_factor(&base, g));
                    }
                }
            }
            assert forall|g: int| 0 <= g < self.bound@.len() implies (#[trigger] self.bound@[g])@
                == base.bound@[g]@ by {
                if g != f {
                    assert(before.same_factor(&base, g));
                }
            }
            assert(self.slots() =~= base.slots()) by {
                assert forall|g: int| 0 <= g < self.slots().len() implies self.slots()[g]
                    == base.slots()[g] by {
                    if g != f {
                        assert(before.same_factor(&base, g));
                        assert(self.slots()[g] == before.slots()[g]);
                    } else {
                        assert(self.stored_slots@[g]@ == before.stored_slots@[g]@.take(
                            spot.slots_len as int,
                        ));
                        assert(before.slots()[g] == before.stored_slots@[g]@);
                    }
                }
            }
        }
    }

    /// The answers from here, one candidate for the next column of factor `f` at a time.
    spec fn answers_upto(
        &self,
        f: int,
        cands: Seq<Cand>,
        n: int,
        row: Seq<Option<Seq<u8>>>,
    ) -> bool {
        exists|c: int| 0 <= c < n && self.answers_with(f, (#[trigger] cands[c])@, row)
    }

    /// The answers that are due, one candidate for the next column of factor `f` at a time.
    spec fn due_upto(
        &self,
        f: int,
        cands: Seq<Cand>,
        n: int,
        row: Seq<Option<Seq<u8>>>,
    ) -> bool {
        exists|c: int| 0 <= c < n && self.due_with(f, (#[trigger] cands[c])@, row)
    }

    /// The candidates leave out no answer that is due.
    proof fn lemma_all_candidates(&self, f: int, cands: Seq<Cand>)
        requires
            self.state_ok(),
            0 <= f < self.factors@.len(),
            self.next_col@[f] < self.cols(f).len(),
            forall|k: Seq<u8>| #[trigger] offered(cands, k) ==> is_subterm(self.branch(f), k),
            forall|k: Seq<u8>, row: Seq<Option<Seq<u8>>>| #[trigger]
                is_visible(self.branch(f), k) && #[trigger] self.due_with(f, k, row) ==> offered(
                    cands,
                    k,
                ),
        ensures
            forall|row: Seq<Option<Seq<u8>>>| #[trigger]
                self.answers_upto(f, cands, cands.len() as int, row) ==> self.answers(row),
            forall|row: Seq<Option<Seq<u8>>>| #[trigger]
                self.due(row) ==> self.due_upto(f, cands, cands.len() as int, row),
    {
        assert forall|row: Seq<Option<Seq<u8>>>| #[trigger]
            self.answers_upto(f, cands, cands.len() as int, row) implies self.answers(row) by {
            self.lemma_candidate_answers(f, cands, row);
        }
        assert forall|row: Seq<Option<Seq<u8>>>| #[trigger] self.due(row) implies self.due_upto(
            f,
            cands,
            cands.len() as int,
            row,
        ) by {
            self.lemma_candidate_due(f, cands, row);
        }
    }

    proof fn lemma_candidate_answers(
        &self,
        f: int,
        cands: Seq<Cand>,
        row: Seq<Option<Seq<u8>>>,
    )
        requires
            self.state_ok(),
            0 <= f < self.factors@.len(),
            self.next_col@[f] < self.cols(f).len(),
            forall|k: Seq<u8>| #[trigger] offered(cands, k) ==> is_subterm(self.branch(f), k),
            self.answers_upto(f, cands, cands.len() as int, row),
        ensures
            self.answers(row),
    {
        assert(self.factor_ok(f));
        lemma_reaches_split(self.rels(), self.taken@, f, self.nvars as nat, row);
        let c = choose|c: int|
            0 <= c < cands.len() && self.answers_with(f, (#[trigger] cands[c])@, row);
        let k = cands[c]@;
        assert(offered(cands, k));
        assert(reaches(
            self.rels(),
            self.taken@.update(f, self.taken@[f].push(k)),
            self.nvars as nat,
            row,
        ));
    }

    proof fn lemma_candidate_due(&self, f: int, cands: Seq<Cand>, row: Seq<Option<Seq<u8>>>)
        requires
            self.state_ok(),
            0 <= f < self.factors@.len(),
            self.next_col@[f] < self.cols(f).len(),
            forall|k: Seq<u8>| #[trigger]
                is_visible(self.branch(f), k) && self.due_with(f, k, row) ==> offered(cands, k),
            self.due(row),
        ensures
            self.due_upto(f, cands, cands.len() as int, row),
    {
        assert(self.factor_ok(f));
        lemma_reaches_split(self.rels(), self.taken@, f, self.nvars as nat, row);
        let k = choose|k: Seq<u8>|
            is_visible(self.branch(f), k) && reaches_walked(
                self.rels(),
                #[trigger] self.taken@.update(f, self.taken@[f].push(k)),
                self.nvars as nat,
                row,
            );
        assert(self.due_with(f, k, row));
        assert(offered(cands, k));
        let c = choose|c: int| 0 <= c < cands.len() && (#[trigger] cands[c])@ == k;
        assert(self.due_with(f, cands[c]@, row));
    }

    /// The parts of a level: distinct factors, and every other factor is past the level.
    spec fn parts_ok(&self, parts: Seq<usize>, i: int) -> bool {
        &&& forall|p: int| 0 <= p < parts.len() ==> #[trigger] parts[p] < self.factors@.len()
        &&& forall|p: int, q: int|
            #![trigger parts[p], parts[q]]
            0 <= p < q < parts.len() ==> parts[p] != parts[q]
        &&& forall|f: int| 0 <= f < self.factors@.len() ==> #[trigger] self.ahead(f, i)
        &&& forall|f: usize|
            f < self.factors@.len() && !parts.contains(f) ==> #[trigger] self.ahead(
                f as int,
                i + 1,
            )
    }

    /// Factor `f` has taken one more column than in `before`, the others none: each is where it
    /// was, or further on.
    proof fn lemma_advanced(&self, before: &Self, f: int, i: int)
        requires
            before.state_ok(),
            self.came_from(before, f),
            0 <= f < before.factors@.len(),
            before.next_col@[f] < before.cols(f).len(),
            self.next_col@[f] == before.next_col@[f] + 1,
            before.ahead(f, i),
        ensures
            self.ahead(f, i),
            forall|g: int, n: int|
                0 <= g < before.factors@.len() && g != f ==> #[trigger] self.ahead(g, n)
                    == before.ahead(g, n),
            forall|g: int, v: usize|
                0 <= g < before.factors@.len() && g != f ==> #[trigger] self.next_is(g, v)
                    == before.next_is(g, v),
    {
        assert(is_forward(before.cols(f), before.var_pos@));
        let n = before.next_col@[f] as int;
        if n + 1 < before.cols(f).len() {
            assert(before.var_pos@[before.cols(f)[n] as int]
                <= before.var_pos@[before.cols(f)[n + 1] as int]);
        }
        assert forall|g: int, n: int|
            0 <= g < before.factors@.len() && g != f implies #[trigger] self.ahead(g, n)
            == before.ahead(g, n) by {
            assert(self.same_factor(before, g));
        }
        assert forall|g: int, v: usize|
            0 <= g < before.factors@.len() && g != f implies #[trigger] self.next_is(g, v)
            == before.next_is(g, v) by {
            assert(self.same_factor(before, g));
        }
    }

    /// Still `base` with more columns of factor `f`, after a search that came back.
    proof fn lemma_came_back(&self, entered: &Self, base: &Self, f: int)
        requires
            entered.state_ok(),
            entered.came_from(base, f),
            self.same_place(entered),
            0 <= f < base.factors@.len(),
            base.state_ok(),
        ensures
            self.came_from(base, f),
    {
        assert(self.slots().len() == self.stored_slots@.len());
        assert(entered.slots().len() == entered.stored_slots@.len());
        self.env.lemma_restores(&entered.env);
        assert(self.env.grew_from(&entered.env)) by {
            assert(self.env.trail().take(entered.env.trail().len() as int) =~= self.env.trail());
        }
        self.env.lemma_grew_trans(&entered.env, &base.env);
        assert(self.bound@[f]@ == entered.bound@[f]@);
        assert forall|g: int| 0 <= g < base.factors@.len() && g != f implies #[trigger] self.same_factor(
            base,
            g,
        ) by {
            assert(entered.same_factor(base, g));
            assert(self.bound@[g]@ == entered.bound@[g]@);
        }
    }

    /// The rows are those of `start` and answers with one of the first `n` candidates, among them all
    /// that are due.
    spec fn found_upto(&self, start: &Self, f: int, cands: Seq<Cand>, n: int) -> bool {
        &&& forall|row: Seq<Option<Seq<u8>>>| #[trigger]
            has_row(self.out@, row) ==> has_row(start.out@, row) || start.answers_upto(
                f,
                cands,
                n,
                row,
            )
        &&& forall|row: Seq<Option<Seq<u8>>>| #[trigger]
            has_row(start.out@, row) ==> has_row(self.out@, row)
        &&& forall|row: Seq<Option<Seq<u8>>>| #[trigger]
            start.due_upto(f, cands, n, row) ==> has_row(self.out@, row)
    }

    /// The first `c` candidates for the next column of the factor of `spot`, variable `qvar`, have been
    /// tried from `start`.
    spec fn scanned(
        &self,
        start: &Self,
        spot: Spot,
        qvar: usize,
        cands: Seq<Cand>,
        c: int,
    ) -> bool {
        let f = spot.f as int;
        &&& start.state_ok()
        &&& start.is_at(spot)
        &&& start.next_is(f, qvar)
        &&& cands_ok(cands)
        &&& forall|k: Seq<u8>| #[trigger] offered(cands, k) ==> is_subterm(start.branch(f), k)
        &&& 0 <= c <= cands.len()
        &&& self.same_place(start)
        &&& ascending(self.out@)
        &&& self.found_upto(start, f, cands, c)
    }

    proof fn lemma_scan_start(&self, spot: Spot, qvar: usize, cands: Seq<Cand>)
        requires
            self.state_ok(),
            self.is_at(spot),
            self.next_is(spot.f as int, qvar),
            cands_ok(cands),
            forall|k: Seq<u8>| #[trigger]
                offered(cands, k) ==> is_subterm(self.branch(spot.f as int), k),
        ensures
            self.scanned(self, spot, qvar, cands, 0),
    {
        self.env.lemma_restores_refl();
        assert forall|row: Seq<Option<Seq<u8>>>| !#[trigger] self.answers_upto(
            spot.f as int,
            cands,
            0,
            row,
        ) by {}
        assert forall|row: Seq<Option<Seq<u8>>>| !#[trigger] self.due_upto(
            spot.f as int,
            cands,
            0,
            row,
        ) by {}
    }

    /// The next candidate can be entered.
    proof fn lemma_scan_level(
        &self,
        start: &Self,
        spot: Spot,
        qvar: usize,
        cands: Seq<Cand>,
        c: int,
    )
        requires
            self.scanned(start, spot, qvar, cands, c),
            c < cands.len(),
        ensures
            self.state_ok(),
            self.is_at(spot),
            self.next_is(spot.f as int, qvar),
            cands[c].wf(),
            is_subterm(self.branch(spot.f as int), cands[c]@),
    {
        self.lemma_same_place(start);
        assert(self.next_is(spot.f as int, qvar) == start.next_is(spot.f as int, qvar));
        assert(offered(cands, cands[c]@));
        assert(self.bound@[spot.f as int]@ == start.bound@[spot.f as int]@);
    }

    /// One more candidate has been tried: entered from `level`, searched from `entered` to `back` if
    /// it held, and left.
    proof fn lemma_scan_next(
        &self,
        start: &Self,
        spot: Spot,
        qvar: usize,
        cands: Seq<Cand>,
        c: int,
        level: &Self,
        entered: &Self,
        back: &Self,
        ok: bool,
    )
        requires
            level.scanned(start, spot, qvar, cands, c),
            c < cands.len(),
            entered.same_query(level),
            entered.out@ == level.out@,
            ok ==> entered.taken@ == level.taken@.update(
                spot.f as int,
                level.taken@[spot.f as int].push(cands[c]@),
            ) && back.found(entered),
            !ok ==> back.out@ == level.out@ && forall|row: Seq<Option<Seq<u8>>>|
                !#[trigger] level.answers_with(spot.f as int, cands[c]@, row),
            self.same_place(level),
            self.out@ == back.out@,
        ensures
            self.scanned(start, spot, qvar, cands, c + 1),
    {
        let f = spot.f as int;
        self.lemma_same_trans(level, start);
        level.lemma_same_place(start);
        assert(level.rels() == start.rels() && entered.rels() == start.rels());
        assert forall|row: Seq<Option<Seq<u8>>>| {
            &&& #[trigger] has_row(self.out@, row) ==> has_row(start.out@, row)
                || start.answers_upto(f, cands, c + 1, row)
            &&& has_row(start.out@, row) ==> has_row(self.out@, row)
            &&& start.due_upto(f, cands, c + 1, row) ==> has_row(self.out@, row)
        } by {
            start.lemma_upto(f, cands, c, row);
            assert(level.answers_with(f, cands[c]@, row) == start.answers_with(f, cands[c]@, row));
            assert(level.due_with(f, cands[c]@, row) == start.due_with(f, cands[c]@, row));
            if level.due_with(f, cands[c]@, row) {
                level.lemma_due_with(f, cands[c]@, row);
            }
            if ok {
                assert(entered.answers(row) == level.answers_with(f, cands[c]@, row));
                assert(entered.due(row) == level.due_with(f, cands[c]@, row));
                assert(has_row(entered.out@, row) ==> has_row(back.out@, row));
            }
        }
    }

    proof fn lemma_upto(&self, f: int, cands: Seq<Cand>, n: int, row: Seq<Option<Seq<u8>>>)
        requires
            0 <= n < cands.len(),
        ensures
            self.answers_upto(f, cands, n + 1, row) == (self.answers_upto(f, cands, n, row)
                || self.answers_with(f, cands[n]@, row)),
            self.due_upto(f, cands, n + 1, row) == (self.due_upto(f, cands, n, row)
                || self.due_with(f, cands[n]@, row)),
    {
    }

    proof fn lemma_same_trans(&self, mid: &Self, base: &Self)
        requires
            self.same_place(mid),
            mid.same_place(base),
        ensures
            self.same_place(base),
    {
        assert forall|f: int| 0 <= f < self.bound@.len() implies (#[trigger] self.bound@[f])@
            == base.bound@[f]@ by {
            assert(self.bound@[f]@ == mid.bound@[f]@);
        }
        self.env.lemma_restores_trans(&mid.env, &base.env);
    }

    proof fn lemma_same_parts(&self, other: &Self, parts: Seq<usize>, i: int)
        requires
            self.same_place(other),
            other.state_ok(),
            ascending(self.out@),
            other.parts_ok(parts, i),
        ensures
            self.parts_ok(parts, i),
    {
        self.lemma_same_place(other);
        assert forall|f: int| 0 <= f < self.factors@.len() implies #[trigger] self.ahead(f, i) by {
            assert(other.ahead(f, i));
        }
        assert forall|f: usize|
            f < self.factors@.len() && !parts.contains(f) implies #[trigger] self.ahead(
            f as int,
            i + 1,
        ) by {
            assert(other.ahead(f as int, i + 1));
        }
    }

    /// The parts of a level stay its parts when one of them takes a column.
    proof fn lemma_parts(&self, before: &Self, parts: Seq<usize>, f: usize, i: int)
        requires
            before.state_ok(),
            self.came_from(before, f as int),
            f < before.factors@.len(),
            parts.contains(f),
            before.next_col@[f as int] < before.cols(f as int).len(),
            self.next_col@[f as int] == before.next_col@[f as int] + 1,
            before.parts_ok(parts, i),
        ensures
            self.parts_ok(parts, i),
            forall|g: int, n: int|
                0 <= g < before.factors@.len() && g != f ==> #[trigger] self.ahead(g, n)
                    == before.ahead(g, n),
            forall|g: int, v: usize|
                0 <= g < before.factors@.len() && g != f ==> #[trigger] self.next_is(g, v)
                    == before.next_is(g, v),
    {
        assert(before.ahead(f as int, i));
        self.lemma_advanced(before, f as int, i);
        assert forall|g: int| 0 <= g < self.factors@.len() implies #[trigger] self.ahead(g, i) by {
            assert(before.ahead(g, i));
        }
        assert forall|g: usize|
            g < self.factors@.len() && !parts.contains(g) implies #[trigger] self.ahead(
            g as int,
            i + 1,
        ) by {
            assert(before.ahead(g as int, i + 1));
        }
    }

    /// Unify the next column of each factor of `parts`, from index `pi` on, with variable `v`.
    fn intersect_unify(&mut self, parts: &Vec<usize>, pi: usize, v: usize, i: usize)
        requires
            old(self).state_ok(),
            i < old(self).var_order@.len(),
            v == old(self).var_order@[i as int],
            pi <= parts@.len(),
            old(self).parts_ok(parts@, i as int),
            forall|p: int|
                pi <= p < parts@.len() ==> old(self).next_is(#[trigger] parts@[p] as int, v),
        ensures
            final(self).found(old(self)),
        decreases old(self).var_order@.len() - i, 2int, parts@.len() - pi, 0int,
    {
        if pi == parts.len() {
            self.catch_up(parts, 0, i);
            return ;
        }
        let ghost start = *self;
        let nparts: usize = parts.len();
        let f = parts[pi];
        assert(start.next_is(parts@[pi as int] as int, v));
        let cands = self.open_candidates(f, v);
        let spot = self.spot(f);
        proof {
            start.lemma_scan_start(spot, v, cands@);
        }
        let mut c: usize = 0;
        while c < cands.len()
            invariant
                start == *old(self),
                i < start.var_order@.len(),
                v == start.var_order@[i as int],
                pi < nparts == parts@.len(),
                f == parts@[pi as int] == spot.f,
                start.parts_ok(parts@, i as int),
                forall|p: int|
                    pi <= p < parts@.len() ==> start.next_is(#[trigger] parts@[p] as int, v),
                self.scanned(&start, spot, v, cands@, c as int),
            decreases cands@.len() - c,
        {
            let ghost level = *self;
            proof {
                level.lemma_scan_level(&start, spot, v, cands@, c as int);
            }
            let ok = self.enter(v, &cands[c], f);
            let ghost entered = *self;
            if ok {
                proof {
                    level.lemma_same_place(&start);
                    level.lemma_same_parts(&start, parts@, i as int);
                    entered.lemma_parts(&level, parts@, f, i as int);
                    assert forall|p: int| pi + 1 <= p < parts@.len() implies entered.next_is(
                        #[trigger] parts@[p] as int,
                        v,
                    ) by {
                        assert(parts@[pi as int] != parts@[p]);
                        assert(start.next_is(parts@[p] as int, v));
                        assert(level.next_is(parts@[p] as int, v));
                    }
                }
                self.intersect_unify(parts, pi + 1, v, i);
                proof {
                    self.lemma_came_back(&entered, &level, f as int);
                }
            }
            let ghost back = *self;
            self.leave(&spot, Ghost(level));
            proof {
                self.lemma_scan_next(
                    &start,
                    spot,
                    v,
                    cands@,
                    c as int,
                    &level,
                    &entered,
                    &back,
                    ok,
                );
            }
            c += 1;
        }
        proof {
            start.lemma_all_candidates(f as int, cands@);
        }
    }

    /// What is left of the columns of the factor at index `pj`.
    spec fn columns_left(&self, parts: Seq<usize>, pj: int) -> int {
        if pj < parts.len() {
            self.cols(parts[pj] as int).len() - self.next_col@[parts[pj] as int]
        } else {
            0
        }
    }

    /// After variable `var_order[i]`, advance each factor of `parts`, from index `pj` on, past any
    /// further column that names a variable bound already, unifying it. This can branch, since a
    /// wildcard child unifies as well as the value.
    fn catch_up(&mut self, parts: &Vec<usize>, pj: usize, i: usize)
        requires
            old(self).state_ok(),
            i < old(self).var_order@.len(),
            pj <= parts@.len(),
            old(self).parts_ok(parts@, i as int),
            forall|p: int|
                0 <= p < pj ==> old(self).ahead(#[trigger] parts@[p] as int, i + 1),
        ensures
            final(self).found(old(self)),
        decreases
                old(self).var_order@.len() - i,
                1int,
                parts@.len() - pj,
                old(self).columns_left(parts@, pj as int),
    {
        let ghost start = *self;
        let _nordered: usize = self.var_order.len();
        let _nfactors: usize = self.factors.len();
        if pj == parts.len() {
            proof {
                assert forall|f: int| 0 <= f < start.factors@.len() implies #[trigger] start.ahead(
                    f,
                    i + 1,
                ) by {
                    if exists|p: int| 0 <= p < parts@.len() && parts@[p] == f {
                        let p = choose|p: int| 0 <= p < parts@.len() && parts@[p] == f;
                        assert(start.ahead(parts@[p] as int, i + 1));
                    } else {
                        assert(!parts@.contains(f as usize));
                        assert(start.ahead((f as usize) as int, i + 1));
                    }
                }
            }
            self.recurse(i + 1);
            return ;
        }
        let f = parts[pj];
        proof {
            start.lemma_names_queries();
            assert(start.factor_ok(f as int));
            assert(start.ahead(f as int, i as int));
        }
        let col = self.next_col[f];
        let ncols = self.factors[f].cols.len();
        if col >= ncols {
            self.catch_up(parts, pj + 1, i);
            return ;
        }
        let vp = self.factors[f].cols[col];
        assert(self.cols(f as int)[col as int] < self.nvars);
        if self.var_pos[vp] > i {
            self.catch_up(parts, pj + 1, i);
            return ;
        }
        let cands = self.open_candidates(f, vp);
        let spot = self.spot(f);
        proof {
            start.lemma_scan_start(spot, vp, cands@);
        }
        let mut c: usize = 0;
        while c < cands.len()
            invariant
                start == *old(self),
                i < start.var_order@.len(),
                pj < parts@.len(),
                f == parts@[pj as int] == spot.f,
                start.parts_ok(parts@, i as int),
                forall|p: int| 0 <= p < pj ==> start.ahead(#[trigger] parts@[p] as int, i + 1),
                self.scanned(&start, spot, vp, cands@, c as int),
            decreases cands@.len() - c,
        {
            let ghost level = *self;
            proof {
                level.lemma_scan_level(&start, spot, vp, cands@, c as int);
            }
            let ok = self.enter(vp, &cands[c], f);
            let ghost entered = *self;
            if ok {
                proof {
                    level.lemma_same_place(&start);
                    level.lemma_same_parts(&start, parts@, i as int);
                    entered.lemma_parts(&level, parts@, f, i as int);
                    assert forall|p: int| 0 <= p < pj implies entered.ahead(
                        #[trigger] parts@[p] as int,
                        i + 1,
                    ) by {
                        assert(parts@[p] != parts@[pj as int]);
                        assert(start.ahead(parts@[p] as int, i + 1));
                        assert(level.ahead(parts@[p] as int, i + 1));
                    }
                }
                self.catch_up(parts, pj, i);
                proof {
                    self.lemma_came_back(&entered, &level, f as int);
                }
            }
            let ghost back = *self;
            self.leave(&spot, Ghost(level));
            proof {
                self.lemma_scan_next(
                    &start,
                    spot,
                    vp,
                    cands@,
                    c as int,
                    &level,
                    &entered,
                    &back,
                    ok,
                );
            }
            c += 1;
        }
        proof {
            start.lemma_all_candidates(f as int, cands@);
        }
    }

    /// Find the answers that go on from the columns bound now, from variable `var_order[i]` on.
    fn recurse(&mut self, i: usize)
        requires
            old(self).state_ok(),
            i <= old(self).var_order@.len(),
            forall|f: int|
                0 <= f < old(self).factors@.len() ==> #[trigger] old(self).ahead(f, i as int),
        ensures
            final(self).found(old(self)),
        decreases old(self).var_order@.len() - i, 3int, 0int, 0int,
    {
        let ghost start = *self;
        if i == self.var_order.len() {
            let row = self.ground_row();
            proof {
                start.lemma_leaf(row_of(row@));
                start.env.lemma_restores_refl();
            }
            insert_row(&mut self.out, row);
            return ;
        }
        let v = self.var_order[i];
        let _nordered: usize = self.var_order.len();
        let _nfactors: usize = self.factors.len();
        let parts = self.participants(v, Ghost(i as int));
        if parts.len() == 0 {
            proof {
                assert forall|f: int| 0 <= f < start.factors@.len() implies #[trigger] start.ahead(
                    f,
                    i + 1,
                ) by {
                    assert(start.ahead((f as usize) as int, i + 1));
                }
            }
            self.recurse(i + 1);
            return ;
        }
        let sorted = self.sort_by_estimate(&parts);
        proof {
            start.lemma_sorted_parts(parts@, sorted@, v, i as int);
        }
        self.intersect_unify(&sorted, 0, v, i);
    }

    /// The factors whose next column is variable `v`, at position `i` of the order.
    fn participants(&self, v: usize, Ghost(i): Ghost<int>) -> (parts: Vec<usize>)
        requires
            self.state_ok(),
            0 <= i < self.var_order@.len(),
            v == self.var_order@[i],
            forall|f: int| 0 <= f < self.factors@.len() ==> #[trigger] self.ahead(f, i),
        ensures
            self.parts_ok(parts@, i),
            forall|p: int, q: int|
                #![trigger parts@[p], parts@[q]]
                0 <= p < q < parts@.len() ==> parts@[p] < parts@[q],
            forall|p: int| 0 <= p < parts@.len() ==> self.next_is(#[trigger] parts@[p] as int, v),
    {
        let mut parts: Vec<usize> = Vec::new();
        let mut f: usize = 0;
        proof {
            self.lemma_names_queries();
        }
        while f < self.factors.len()
            invariant
                self.state_ok(),
                names_queries(self.rels(), self.nvars as nat),
                0 <= i < self.var_order@.len(),
                v == self.var_order@[i],
                f <= self.factors@.len(),
                forall|g: int| 0 <= g < self.factors@.len() ==> #[trigger] self.ahead(g, i),
                forall|p: int| 0 <= p < parts@.len() ==> #[trigger] parts@[p] < f,
                forall|p: int, q: int|
                    #![trigger parts@[p], parts@[q]]
                    0 <= p < q < parts@.len() ==> parts@[p] < parts@[q],
                forall|p: int|
                    0 <= p < parts@.len() ==> self.next_is(#[trigger] parts@[p] as int, v),
                forall|g: usize|
                    g < f && !parts@.contains(g) ==> #[trigger] self.ahead(g as int, i + 1),
            decreases self.factors@.len() - f,
        {
            let nc = self.next_col[f];
            let ghost old_parts = parts@;
            let part = nc < self.factors[f].cols.len() && self.factors[f].cols[nc] == v;
            if part {
                parts.push(f);
            }
            proof {
                assert forall|g: usize| g < f + 1 && !parts@.contains(g) implies #[trigger] self.ahead(
                    g as int,
                    i + 1,
                ) by {
                    if g < f {
                        if old_parts.contains(g) {
                            let p = choose|p: int| 0 <= p < old_parts.len() && old_parts[p] == g;
                            assert(parts@[p] == g);
                        }
                    } else {
                        if part {
                            assert(parts@[old_parts.len() as int] == f);
                        }
                        self.lemma_not_next(f as int, i);
                    }
                }
            }
            f += 1;
        }
        parts
    }

    /// A factor whose next column is not variable `var_order[i]` is past position `i`.
    proof fn lemma_not_next(&self, f: int, i: int)
        requires
            self.query_ok(),
            0 <= f < self.factors@.len(),
            0 <= i < self.var_order@.len(),
            self.ahead(f, i),
            !self.next_is(f, self.var_order@[i]),
        ensures
            self.ahead(f, i + 1),
    {
        let nc = self.next_col@[f] as int;
        if nc < self.cols(f).len() {
            let w = self.factors@[f].cols@[nc];
            assert(ordered_before(self.var_order@, self.var_order@.len() as int, w));
            let j = choose|j: int|
                0 <= j < self.var_order@.len() && #[trigger] self.var_order@[j] == w;
            assert(self.var_pos@[self.var_order@[j] as int] == j);
        }
    }

    /// The factors of `parts` with the smallest domains first, so that the leading factor has few
    /// candidates to enumerate and the rest seek. Equal estimates stay in order.
    fn sort_by_estimate(&self, parts: &Vec<usize>) -> (sorted: Vec<usize>)
        requires
            self.state_ok(),
            forall|p: int|
                0 <= p < parts@.len() ==> {
                    &&& #[trigger] parts@[p] < self.factors@.len()
                    &&& self.next_col@[parts@[p] as int] < self.cols(parts@[p] as int).len()
                },
            forall|p: int, q: int|
                #![trigger parts@[p], parts@[q]]
                0 <= p < q < parts@.len() ==> parts@[p] < parts@[q],
        ensures
            sorted@.to_multiset() == parts@.to_multiset(),
            forall|p: int, q: int|
                #![trigger sorted@[p], sorted@[q]]
                0 <= p < q < sorted@.len() ==> {
                    ||| self.estimate(sorted@[p] as int) < self.estimate(sorted@[q] as int)
                    ||| self.estimate(sorted@[p] as int) == self.estimate(sorted@[q] as int)
                        && sorted@[p] < sorted@[q]
                },
    {
        let mut sorted: Vec<usize> = Vec::new();
        let mut keys: Vec<usize> = Vec::new();
        let mut p: usize = 0;
        proof {
            assert(parts@.take(0) =~= sorted@);
        }
        while p < parts.len()
            invariant
                self.state_ok(),
                p <= parts@.len(),
                forall|p: int|
                    0 <= p < parts@.len() ==> {
                        &&& #[trigger] parts@[p] < self.factors@.len()
                        &&& self.next_col@[parts@[p] as int] < self.cols(parts@[p] as int).len()
                    },
                forall|q: int, r: int|
                    #![trigger parts@[q], parts@[r]]
                    0 <= q < r < parts@.len() ==> parts@[q] < parts@[r],
                sorted@.len() == keys@.len(),
                forall|q: int|
                    0 <= q < sorted@.len() && p < parts@.len() ==> #[trigger] sorted@[q]
                        < parts@[p as int],
                forall|q: int|
                    0 <= q < keys@.len() ==> #[trigger] keys@[q] == self.estimate(sorted@[q] as int),
                forall|q: int, r: int|
                    #![trigger keys@[q], keys@[r]]
                    0 <= q < r < keys@.len() ==> keys@[q] < keys@[r] || keys@[q] == keys@[r]
                        && sorted@[q] < sorted@[r],
                sorted@.to_multiset() == parts@.take(p as int).to_multiset(),
            decreases parts@.len() - p,
        {
            let f = parts[p];
            let key = self.domain_estimate(f);
            let mut at: usize = keys.len();
            while at > 0 && keys[at - 1] > key
                invariant
                    at <= keys@.len(),
                    forall|q: int| at <= q < keys@.len() ==> #[trigger] keys@[q] > key,
                decreases at,
            {
                at -= 1;
            }
            let ghost sorted0 = sorted@;
            let ghost keys0 = keys@;
            sorted.insert(at, f);
            keys.insert(at, key);
            proof {
                vstd::seq_lib::to_multiset_insert(sorted0, at as int, f);
                assert(parts@.take(p + 1) =~= parts@.take(p as int).push(f));
                vstd::seq_lib::to_multiset_build(parts@.take(p as int), f);
            }
            p += 1;
        }
        proof {
            assert(parts@.take(parts@.len() as int) =~= parts@);
            assert forall|p: int, q: int|
                #![trigger sorted@[p], sorted@[q]]
                0 <= p < q < sorted@.len() implies {
                ||| self.estimate(sorted@[p] as int) < self.estimate(sorted@[q] as int)
                ||| self.estimate(sorted@[p] as int) == self.estimate(sorted@[q] as int)
                    && sorted@[p] < sorted@[q]
            } by {
                assert(keys@[p] <= keys@[q]);
            }
        }
        sorted
    }

    /// The parts of a level are its parts in any order.
    proof fn lemma_sorted_parts(&self, parts: Seq<usize>, sorted: Seq<usize>, v: usize, i: int)
        requires
            self.parts_ok(parts, i),
            sorted.to_multiset() == parts.to_multiset(),
            forall|p: int| 0 <= p < parts.len() ==> self.next_is(#[trigger] parts[p] as int, v),
        ensures
            self.parts_ok(sorted, i),
            forall|p: int| 0 <= p < sorted.len() ==> self.next_is(#[trigger] sorted[p] as int, v),
    {
        assert forall|f: usize| #[trigger] sorted.contains(f) == parts.contains(f) by {
            vstd::seq_lib::to_multiset_contains(sorted, f);
            vstd::seq_lib::to_multiset_contains(parts, f);
        }
        parts.lemma_multiset_has_no_duplicates();
        sorted.lemma_multiset_has_no_duplicates_conv();
        assert forall|p: int| 0 <= p < sorted.len() implies #[trigger] sorted[p]
            < self.factors@.len() && self.next_is(sorted[p] as int, v) by {
            assert(sorted.contains(sorted[p]));
            let q = choose|q: int| 0 <= q < parts.len() && parts[q] == sorted[p];
            assert(self.next_is(parts[q] as int, v));
        }
    }

    /// What the bindings say of each query variable.
    fn ground_row(&self) -> (row: Vec<Option<Vec<u8>>>)
        requires
            self.state_ok(),
        ensures
            row@.len() == self.nvars,
            forall|v: int|
                0 <= v < row@.len() ==> match #[trigger] row_of(row@)[v] {
                    Some(g) => self.env.determines(v, g),
                    None => forall|g: Seq<u8>| !self.env.determines(v, g),
                },
    {
        let mut row: Vec<Option<Vec<u8>>> = Vec::new();
        while row.len() < self.nvars
            invariant
                self.state_ok(),
                row@.len() <= self.nvars,
                forall|v: int|
                    0 <= v < row@.len() ==> match #[trigger] row_of(row@)[v] {
                        Some(g) => self.env.determines(v, g),
                        None => forall|g: Seq<u8>| !self.env.determines(v, g),
                    },
            decreases self.nvars - row@.len(),
        {
            let ghost before = row@;
            let part = self.env.ground_of(row.len());
            row.push(part);
            proof {
                assert forall|v: int| 0 <= v < row@.len() implies match #[trigger] row_of(row@)[v] {
                    Some(g) => self.env.determines(v, g),
                    None => forall|g: Seq<u8>| !self.env.determines(v, g),
                } by {
                    if v < before.len() {
                        assert(row_of(row@)[v] == row_of(before)[v]);
                    }
                }
            }
        }
        row
    }

    /// When every column is bound, the row of the bindings is the only answer.
    proof fn lemma_leaf(&self, found: Seq<Option<Seq<u8>>>)
        requires
            self.state_ok(),
            forall|f: int|
                0 <= f < self.factors@.len() ==> #[trigger] self.ahead(
                    f,
                    self.var_order@.len() as int,
                ),
            found.len() == self.nvars,
            forall|v: int|
                0 <= v < found.len() ==> match #[trigger] found[v] {
                    Some(g) => self.env.determines(v, g),
                    None => forall|g: Seq<u8>| !self.env.determines(v, g),
                },
        ensures
            forall|row: Seq<Option<Seq<u8>>>| #[trigger] self.answers(row) == (row == found),
            forall|row: Seq<Option<Seq<u8>>>| #[trigger] self.due(row) ==> self.answers(row),
    {
        assert forall|row: Seq<Option<Seq<u8>>>| #[trigger] self.due(row) implies self.answers(
            row,
        ) by {
            let choice = choose|choice: Seq<Seq<Seq<u8>>>| #[trigger]
                is_choice(self.rels(), choice) && goes_on(self.taken@, choice) && gives(
                    self.rels(),
                    choice,
                    self.nvars as nat,
                    row,
                ) && choice_walked(self.rels(), choice);
            assert(is_choice(self.rels(), choice) && goes_on(self.taken@, choice));
        }
        let rels = self.rels();
        let taken = self.taken@;
        let nvars = self.nvars as nat;
        self.lemma_names_queries();
        assert forall|f: int| 0 <= f < rels.len() implies (#[trigger] taken[f]).len()
            == rels[f].vars.len() && columns_at(rels[f].paths, rels[f].prefix, taken[f]) by {
            assert(self.factor_ok(f));
            assert(self.has_fact(f));
            assert(rels[f].prefix + Seq::<u8>::empty() =~= rels[f].prefix);
            assert(self.ahead(f, self.var_order@.len() as int));
            let nc = self.next_col@[f] as int;
            if nc < self.cols(f).len() {
                let w = self.factors@[f].cols@[nc];
                assert(ordered_before(self.var_order@, self.var_order@.len() as int, w));
                let j = choose|j: int|
                    0 <= j < self.var_order@.len() && #[trigger] self.var_order@[j] == w;
                assert(self.var_pos@[self.var_order@[j] as int] == j);
            }
        }
        assert(is_choice(rels, taken));
        assert(goes_on(taken, taken)) by {
            assert forall|f: int| 0 <= f < taken.len() implies (#[trigger] taken[f]).take(
                taken[f].len() as int,
            ) == taken[f] by {
                assert(taken[f].take(taken[f].len() as int) =~= taken[f]);
            }
        }
        assert forall|v: int, g: Seq<u8>| 0 <= v < nvars implies #[trigger] self.env.determines(v, g)
            == forces(rels, taken, v, g) by {
            if self.env.determines(v, g) {
                assert forall|q: Assignment| #[trigger] solves(rels, taken, q) implies q(v) == g by {
                    lemma_extended(rels, taken, self.slots(), nvars, q);
                    let s = extended(rels, taken, self.slots(), nvars, q);
                    assert(self.env.allows(s));
                    assert(s(v) == q(v));
                }
            }
            if forces(rels, taken, v, g) {
                assert forall|s: Assignment| #[trigger] self.env.allows(s) implies s(v) == g by {
                    lemma_system_solves(rels, taken, self.slots(), s);
                }
            }
        }
        let s = self.env.lemma_free(|x: int| Seq::empty());
        lemma_system_solves(rels, taken, self.slots(), s);
        assert(gives(rels, taken, nvars, found)) by {
            assert forall|v: int| 0 <= v < nvars implies settles(
                rels,
                taken,
                v,
                #[trigger] found[v],
            ) by {
                match found[v] {
                    Some(g) => {
                        assert(self.env.determines(v, g));
                    },
                    None => {
                        assert forall|g: Seq<u8>| !forces(rels, taken, v, g) by {
                            assert(!self.env.determines(v, g));
                        }
                    },
                }
            }
        }
        assert forall|row: Seq<Option<Seq<u8>>>| #[trigger] self.answers(row) == (row == found) by {
            if self.answers(row) {
                let choice = choose|choice: Seq<Seq<Seq<u8>>>| #[trigger]
                    is_choice(rels, choice) && goes_on(taken, choice) && gives(
                        rels,
                        choice,
                        nvars,
                        row,
                    );
                assert(choice =~= taken) by {
                    assert forall|f: int| 0 <= f < taken.len() implies choice[f] == taken[f] by {
                        assert(taken[f].len() == rels[f].vars.len());
                        assert(choice[f].len() == rels[f].vars.len());
                        assert(choice[f].take(taken[f].len() as int) =~= choice[f]);
                    }
                }
                lemma_gives_unique(rels, taken, nvars, row, found);
            }
        }
    }
}

/// Leapfrog unification join over a byte trie: each factor contributes one of its facts, a stored
/// variable in a fact unifies with whatever the join variable is, and each answer row holds the
/// value of every variable that is ground, and `None` for one that stayed free. The rows are in
/// ascending order, each once.
///
/// Inverted factors (a cyclic query has one) are re-indexed up front so that the join can seek them;
/// every other factor is read from the map as it is. Where the trie breaks off within a factor's
/// column, answers beyond that dead end may be missing; an answer of facts whose columns all lie
/// before the first dead end is not.
pub fn unify_join_zipper_partial<T: PathTrie>(
    map: &T,
    factors: &[Factor],
    var_order: &[usize],
    nvars: usize,
) -> (rows: Vec<Vec<Option<Vec<u8>>>>)
    requires
        lists_vars(factors@, var_order@, nvars as nat),
        all_joinable(map.values(), query_relations(map.paths(), factors@), var_order@),
    ensures
        ascending(rows@),
        forall|row: Seq<Option<Seq<u8>>>| #[trigger]
            has_row(rows@, row) ==> is_unifier_row(
                query_relations(map.paths(), factors@),
                nvars as nat,
                row,
            ),
        forall|row: Seq<Option<Seq<u8>>>|
            is_read_row(
                map.values(),
                query_relations(map.paths(), factors@),
                var_order@,
                nvars as nat,
                row,
            ) ==> #[trigger] has_row(rows@, row),
        all_read_whole(map.values(), query_relations(map.paths(), factors@), var_order@)
            ==> forall|row: Seq<Option<Seq<u8>>>|
            is_unifier_row(query_relations(map.paths(), factors@), nvars as nat, row)
                ==> #[trigger] has_row(rows@, row),
{
    if !facts_present(map, factors) {
        proof {
            let query = query_relations(map.paths(), factors@);
            let f = choose|f: int|
                0 <= f < factors@.len() && (#[trigger] factors@[f]).cols@.len() == 0
                    && !map.paths().contains(factors@[f].prefix@);
            assert forall|choice: Seq<Seq<Seq<u8>>>| !#[trigger] is_choice(query, choice) by {
                if is_choice(query, choice) {
                    assert(choice[f].len() == query[f].vars.len());
                    assert(joined(choice[f]) =~= Seq::<u8>::empty());
                    assert(factors@[f].prefix@ + Seq::<u8>::empty() =~= factors@[f].prefix@);
                }
            }
        }
        return Vec::new();
    }
    let nf = factors.len();
    let var_pos = variable_positions(var_order, nvars);
    let prepared = prepare(map, factors, &var_pos, Ghost(var_order@));
    let ghost ready = prepared;
    let mut state = UnifyJoin {
        map,
        reindexes: prepared.reindexes,
        factor_src: prepared.factor_src,
        factors: prepared.factors,
        var_order,
        var_pos,
        nvars,
        bound: empty_strings(nf),
        next_col: zeros(nf),
        stored_slots: empty_lists(nf),
        env: Env::new(nvars),
        out: Vec::new(),
        taken: Ghost(Seq::new(nf as nat, |f: int| Seq::empty())),
    };
    let ghost start = state;
    proof {
        let rels = state.rels();
        assert forall|f: int| 0 <= f < nf implies #[trigger] ready.factor_ready(
            *map,
            factors@[f],
            var_order@,
            var_pos@,
            f,
        ) by {}
        assert forall|f: int| 0 <= f < nf implies is_scoped(#[trigger] state.rels()[f]) by {
            assert(ready.factor_ready(*map, factors@[f], var_order@, var_pos@, f));
        }
        assert forall|f: int| 0 <= f < nf implies #[trigger] is_forward(
            state.cols(f),
            state.var_pos@,
        ) by {
            assert(ready.factor_ready(*map, factors@[f], var_order@, var_pos@, f));
        }
        assert forall|f: int| 0 <= f < nf implies match #[trigger] state.factor_src@[f] {
            Some(r) => r < state.reindexes@.len(),
            None => true,
        } by {
            assert(ready.factor_ready(*map, factors@[f], var_order@, var_pos@, f));
        }
        assert forall|f: int, c: int|
            #![trigger state.factors@[f].cols@[c]]
            0 <= f < nf && 0 <= c < state.factors@[f].cols@.len() implies ordered_before(
            var_order@,
            var_order@.len() as int,
            state.factors@[f].cols@[c],
        ) by {
            assert(ready.factor_ready(*map, factors@[f], var_order@, var_pos@, f));
        }
        assert forall|f: int| 0 <= f < nf implies #[trigger] state.has_fact(f) by {
            assert(ready.factor_ready(*map, factors@[f], var_order@, var_pos@, f));
            assert(factors@[f].cols@.len() == 0 ==> map.paths().contains(factors@[f].prefix@));
        }
        assert(state.query_ok());
        assert forall|f: int| 0 <= f < nf implies #[trigger] state.factor_ok(f) by {
            assert(state.bound@[f]@ =~= joined(state.taken@[f]));
        }
        assert forall|s: Assignment| #[trigger] state.env.allows(s) == system(
            rels,
            state.taken@,
            state.slots(),
            s,
        ) by {
            assert forall|id: int| 0 <= id < nvars implies #[trigger] state.env.meets(id, s) by {
                assert(state.env.at(id) is None);
            }
            assert forall|f: int| 0 <= f < rels.len() implies equations(
                rels[f].vars,
                #[trigger] state.taken@[f],
                state.slots()[f],
                s,
            ) by {}
        }
        assert(state.state_ok());
        assert forall|f: int| 0 <= f < nf implies #[trigger] state.ahead(f, 0) by {}
    }
    state.recurse(0);
    proof {
        let rels = start.rels();
        let query = query_relations(map.paths(), factors@);
        let whole = all_read_whole(map.values(), query, var_order@);
        assert forall|f: int| 0 <= f < rels.len() implies is_covered(#[trigger] rels[f], query[f]) by {
            assert(ready.factor_ready(*map, factors@[f], var_order@, var_pos@, f));
        }
        assert forall|row: Seq<Option<Seq<u8>>>| {
            &&& #[trigger] has_row(state.out@, row) ==> is_unifier_row(query, nvars as nat, row)
            &&& is_read_row(map.values(), query, var_order@, nvars as nat, row) ==> has_row(
                state.out@,
                row,
            )
            &&& whole && is_unifier_row(query, nvars as nat, row) ==> has_row(state.out@, row)
        } by {
            assert(!has_row(start.out@, row));
            if is_unifier_row(rels, nvars as nat, row) {
                lemma_rows_covered(rels, query, nvars as nat, row);
            }
            if whole && is_unifier_row(query, nvars as nat, row) {
                lemma_read_whole(map.values(), query, var_order@, nvars as nat, row);
            }
            if is_read_row(map.values(), query, var_order@, nvars as nat, row) {
                let choice = choose|choice: Seq<Seq<Seq<u8>>>| #[trigger]
                    is_choice(query, choice) && gives(query, choice, nvars as nat, row)
                        && all_read(map.values(), query, var_order@, choice);
                let other = Seq::new(
                    nf as nat,
                    |f: int|
                        choose|other: Seq<Seq<u8>>| #[trigger]
                            is_walked_as(query[f], choice[f], rels[f], other),
                );
                assert forall|f: int| 0 <= f < nf implies #[trigger] is_walked_as(
                    query[f],
                    choice[f],
                    rels[f],
                    other[f],
                ) by {
                    assert(choice[f].len() == query[f].vars.len());
                    assert(is_read(map.values(), query[f], var_order@, choice[f]));
                    assert(ready.factor_ready(*map, factors@[f], var_order@, var_pos@, f));
                    assert(is_fact(query[f], choice[f]));
                    assert(has_walked(query[f], choice[f], rels[f]));
                }
                assert forall|f: int| 0 <= f < nf implies is_fact(rels[f], #[trigger] other[f])
                    && says_same(query[f].vars, choice[f], rels[f].vars, other[f]) by {
                    assert(is_walked_as(query[f], choice[f], rels[f], other[f]));
                }
                lemma_choice_carries(query, choice, rels, other, nvars as nat, row);
                assert(choice_walked(rels, other)) by {
                    assert forall|f: int| 0 <= f < rels.len() implies walked(
                        rels[f].paths,
                        rels[f].prefix,
                        #[trigger] other[f],
                    ) by {
                        assert(is_walked_as(query[f], choice[f], rels[f], other[f]));
                    }
                }
                assert(goes_on(start.taken@, other)) by {
                    assert forall|f: int| 0 <= f < start.taken@.len() implies (
                    #[trigger] start.taken@[f]).len() <= other[f].len() && other[f].take(
                        start.taken@[f].len() as int,
                    ) == start.taken@[f] by {
                        assert(other[f].take(0) =~= start.taken@[f]);
                    }
                }
                assert(start.due(row));
            }
            assert(start.answers(row) == is_unifier_row(rels, nvars as nat, row)) by {
                if is_unifier_row(rels, nvars as nat, row) {
                    let choice = choose|choice: Seq<Seq<Seq<u8>>>| #[trigger]
                        is_choice(rels, choice) && gives(rels, choice, nvars as nat, row);
                    assert(goes_on(start.taken@, choice)) by {
                        assert forall|f: int| 0 <= f < start.taken@.len() implies (
                        #[trigger] start.taken@[f]).len() <= choice[f].len() && choice[f].take(
                            start.taken@[f].len() as int,
                        ) == start.taken@[f] by {
                            assert(choice[f].take(0) =~= start.taken@[f]);
                        }
                    }
                    assert(start.answers(row));
                }
            }
        }
    }
    state.out
}

/// A row in which every component is ground.
pub open spec fn all_ground(row: Seq<Seq<u8>>) -> Seq<Option<Seq<u8>>> {
    row.map_values(|g: Seq<u8>| Some(g))
}

/// The ground rows are strictly ascending.
pub open spec fn ground_ascending(rows: Seq<Vec<Vec<u8>>>) -> bool {
    forall|i: int, j: int|
        #![trigger rows[i], rows[j]]
        0 <= i < j < rows.len() ==> row_lt(
            all_ground(bytes_of(rows[i]@)),
            all_ground(bytes_of(rows[j]@)),
        )
}

/// The ground rows are exactly the rows of `partial` in which every component is ground.
pub open spec fn keeps_ground(
    partial: Seq<Vec<Option<Vec<u8>>>>,
    rows: Seq<Vec<Vec<u8>>>,
) -> bool {
    forall|row: Seq<Seq<u8>>| #[trigger]
        row_found(rows, 0, row) == has_row(partial, all_ground(row))
}

/// The values of a row, if every component is ground.
fn ground_values(row: &Vec<Option<Vec<u8>>>) -> (r: Option<Vec<Vec<u8>>>)
    ensures
        match r {
            Some(values) => row_of(row@) == all_ground(bytes_of(values@)),
            None => forall|values: Seq<Seq<u8>>| row_of(row@) != #[trigger] all_ground(values),
        },
{
    let mut values: Vec<Vec<u8>> = Vec::new();
    while values.len() < row.len()
        invariant
            values@.len() <= row@.len(),
            forall|v: int|
                0 <= v < values@.len() ==> #[trigger] row_of(row@)[v] == Some(values@[v]@),
        decreases row@.len() - values@.len(),
    {
        let v = values.len();
        match &row[v] {
            Some(g) => {
                let part = to_vec(g);
                assert(row_of(row@)[v as int] == Some(part@));
                values.push(part);
            },
            None => {
                proof {
                    assert(row_of(row@)[v as int] is None);
                    assert forall|values: Seq<Seq<u8>>| row_of(row@) != #[trigger] all_ground(
                        values,
                    ) by {
                        if row_of(row@) == all_ground(values) {
                            assert(all_ground(values).len() == values.len());
                            assert(row_of(row@).len() == row@.len());
                            assert(all_ground(values)[v as int] is Some);
                        }
                    }
                }
                return None;
            },
        }
    }
    assert(row_of(row@) =~= all_ground(bytes_of(values@))) by {
        assert forall|v: int| 0 <= v < row@.len() implies row_of(row@)[v] == all_ground(
            bytes_of(values@),
        )[v] by {}
    }
    Some(values)
}

/// The fully ground answers of the unification join: `row[v]` is the value of variable `v`. These are
/// the rows of [`unify_join_zipper_partial`], whatever the trie holds, but for those in which some
/// variable stayed free.
pub fn unify_join_zipper<T: PathTrie>(
    map: &T,
    factors: &[Factor],
    var_order: &[usize],
    nvars: usize,
) -> (rows: Vec<Vec<Vec<u8>>>)
    requires
        lists_vars(factors@, var_order@, nvars as nat),
        all_joinable(map.values(), query_relations(map.paths(), factors@), var_order@),
    ensures
        exists|partial: Vec<Vec<Option<Vec<u8>>>>| #[trigger]
            call_ensures(
                unify_join_zipper_partial::<T>,
                (map, factors, var_order, nvars),
                partial,
            ) && keeps_ground(partial@, rows@),
        ground_ascending(rows@),
        forall|row: Seq<Seq<u8>>| #[trigger]
            row_found(rows@, 0, row) ==> is_unifier_row(
                query_relations(map.paths(), factors@),
                nvars as nat,
                all_ground(row),
            ),
        forall|row: Seq<Seq<u8>>|
            is_read_row(
                map.values(),
                query_relations(map.paths(), factors@),
                var_order@,
                nvars as nat,
                all_ground(row),
            ) ==> #[trigger] row_found(rows@, 0, row),
        all_read_whole(map.values(), query_relations(map.paths(), factors@), var_order@)
            ==> forall|row: Seq<Seq<u8>>|
            is_unifier_row(
                query_relations(map.paths(), factors@),
                nvars as nat,
                all_ground(row),
            ) ==> #[trigger] row_found(rows@, 0, row),
{
    let partial = unify_join_zipper_partial(map, factors, var_order, nvars);
    let mut rows: Vec<Vec<Vec<u8>>> = Vec::new();
    let mut from: Ghost<Seq<int>> = Ghost(Seq::empty());
    let mut i: usize = 0;
    while i < partial.len()
        invariant
            i <= partial@.len(),
            ascending(partial@),
            from@.len() == rows@.len(),
            forall|n: int|
                0 <= n < rows@.len() ==> {
                    &&& 0 <= #[trigger] from@[n] < i
                    &&& row_of(partial@[from@[n]]@) == all_ground(bytes_of(rows@[n]@))
                },
            forall|m: int, n: int|
                #![trigger from@[m], from@[n]]
                0 <= m < n < rows@.len() ==> from@[m] < from@[n],
            forall|row: Seq<Seq<u8>>| #[trigger]
                row_found(rows@, 0, row) == has_row(partial@.take(i as int), all_ground(row)),
        decreases partial@.len() - i,
    {
        let ghost before = rows@;
        let ghost front = partial@.take(i as int);
        let ghost next = partial@.take(i + 1);
        match ground_values(&partial[i]) {
            Some(values) => {
                rows.push(values);
                proof {
                    from@ = from@.push(i as int);
                }
            },
            None => {},
        }
        proof {
            assert(next[i as int] == partial@[i as int]);
            assert forall|row: Seq<Seq<u8>>| #[trigger] row_found(rows@, 0, row) == has_row(
                next,
                all_ground(row),
            ) by {
                if row_found(before, 0, row) {
                    let n = choose|n: int|
                        0 <= n < before.len() && bytes_of((#[trigger] before[n])@) == row;
                    assert(rows@[n] == before[n]);
                }
                if has_row(front, all_ground(row)) {
                    let n = choose|n: int|
                        0 <= n < front.len() && row_of((#[trigger] front[n])@) == all_ground(row);
                    assert(next[n] == front[n]);
                }
                if has_row(next, all_ground(row)) {
                    let n = choose|n: int|
                        0 <= n < next.len() && row_of((#[trigger] next[n])@) == all_ground(row);
                    if n < i {
                        assert(front[n] == next[n]);
                    } else {
                        assert(rows@.len() == before.len() + 1);
                        let last = rows@[before.len() as int];
                        lemma_all_ground(bytes_of(last@), row);
                        assert(bytes_of(rows@[before.len() as int]@) == row);
                    }
                }
                if row_found(rows@, 0, row) {
                    let n = choose|n: int|
                        0 <= n < rows@.len() && bytes_of((#[trigger] rows@[n])@) == row;
                    if n < before.len() {
                        assert(before[n] == rows@[n]);
                    } else {
                        assert(row_of(next[i as int]@) == all_ground(row));
                    }
                }
            }
        }
        i += 1;
    }
    proof {
        assert(partial@.take(partial@.len() as int) =~= partial@);
        assert forall|m: int, n: int|
            #![trigger rows@[m], rows@[n]]
            0 <= m < n < rows@.len() implies row_lt(
            all_ground(bytes_of(rows@[m]@)),
            all_ground(bytes_of(rows@[n]@)),
        ) by {
            assert(from@[m] < from@[n]);
            assert(row_lt(row_of(partial@[from@[m]]@), row_of(partial@[from@[n]]@)));
        }
    }
    rows
}

/// Ground rows differ as their values do.
proof fn lemma_all_ground(a: Seq<Seq<u8>>, b: Seq<Seq<u8>>)
    requires
        all_ground(a) == all_ground(b),
    ensures
        a == b,
{
    assert(all_ground(a).len() == a.len() && all_ground(b).len() == b.len());
    assert forall|v: int| 0 <= v < a.len() implies a[v] == b[v] by {
        assert(all_ground(a)[v] == Some(a[v]));
        assert(all_ground(b)[v] == Some(b[v]));
    }
    assert(a =~= b);
}

} // verus!
