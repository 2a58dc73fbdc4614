//! What a unification join reads: each factor as it is stored, or re-indexed.

use vstd::prelude::*;
use crate::equivalence::{
    all_stored, is_covered, is_fact, lemma_covered_refl, lemma_fact_moved, lemma_permuted_forward,
    lemma_reindex, says_same,
};
use crate::fact::{gives, is_choice, is_scoped, is_unifier_row, is_whole, Relation};
use crate::factor::{is_forward, lemma_whole_walked, walked, Factor};
use crate::ground::{lists_vars, ordered_before};
use crate::lists::{copy_indices, zeros};
use crate::mask::ByteMask;
use crate::order::to_vec;
use crate::path_set::{PathSet, SetZipper};
use crate::reindex::{
    build_reindex, is_inverted, is_moved_fact, is_stable_order, lemma_simple_numberable, permuted,
    reordered, starts_with, values_simple,
};
use crate::trie::{PathTrie, Zipper};

verus! {

/// The paths that factor `f` reads: those of its re-indexed copy if it has one, else the map's.
pub open spec fn source_paths<T: PathTrie>(
    map: T,
    reindexes: Seq<PathSet>,
    src: Option<usize>,
) -> Set<Seq<u8>> {
    match src {
        Some(r) => reindexes[r as int].paths(),
        None => map.paths(),
    }
}

/// A zipper over what a factor reads: the map, or a re-indexed copy.
pub enum SourceZipper<'a, Z> {
    Live(Z),
    Copy(SetZipper<'a>),
}

impl<'a, Z: Zipper> Zipper for SourceZipper<'a, Z> {
    open spec fn paths(&self) -> Set<Seq<u8>> {
        match self {
            SourceZipper::Live(z) => z.paths(),
            SourceZipper::Copy(z) => z.paths(),
        }
    }

    open spec fn root(&self) -> Seq<u8> {
        match self {
            SourceZipper::Live(z) => z.root(),
            SourceZipper::Copy(z) => z.root(),
        }
    }

    open spec fn focus(&self) -> Seq<u8> {
        match self {
            SourceZipper::Live(z) => z.focus(),
            SourceZipper::Copy(z) => z.focus(),
        }
    }

    fn path_exists(&self) -> (r: bool) {
        match self {
            SourceZipper::Live(z) => z.path_exists(),
            SourceZipper::Copy(z) => z.path_exists(),
        }
    }

    fn child_mask(&self) -> (m: ByteMask) {
        match self {
            SourceZipper::Live(z) => z.child_mask(),
            SourceZipper::Copy(z) => z.child_mask(),
        }
    }

    fn descend_to_byte(&mut self, b: u8) {
        match self {
            SourceZipper::Live(z) => z.descend_to_byte(b),
            SourceZipper::Copy(z) => z.descend_to_byte(b),
        }
    }

    fn ascend_byte(&mut self) -> (moved: bool) {
        match self {
            SourceZipper::Live(z) => z.ascend_byte(),
            SourceZipper::Copy(z) => z.ascend_byte(),
        }
    }
}

/// The relation that each factor reads.
pub open spec fn relations<T: PathTrie>(
    map: T,
    reindexes: Seq<PathSet>,
    srcs: Seq<Option<usize>>,
    factors: Seq<Factor>,
) -> Seq<Relation> {
    Seq::new(
        factors.len(),
        |f: int|
            Relation {
                paths: source_paths(map, reindexes, srcs[f]),
                prefix: factors[f].prefix@,
                vars: factors[f].cols@,
            },
    )
}

/// `pos` holds the position of every ordered variable.
pub open spec fn positions(var_order: Seq<usize>, pos: Seq<usize>) -> bool {
    forall|i: int|
        0 <= i < var_order.len() ==> (#[trigger] var_order[i]) < pos.len()
            && pos[var_order[i] as int] == i
}

/// The facts that a factor stands for in a trie.
pub open spec fn relation_of(paths: Set<Seq<u8>>, factor: Factor) -> Relation {
    Relation { paths, prefix: factor.prefix@, vars: factor.cols@ }
}

/// The facts that each factor of a query stands for.
pub open spec fn query_relations(paths: Set<Seq<u8>>, factors: Seq<Factor>) -> Seq<Relation> {
    factors.map_values(|factor: Factor| relation_of(paths, factor))
}

/// The columns are in the order of the variables: a later column's variable is never ordered before
/// an earlier one's.
pub open spec fn in_order(cols: Seq<usize>, var_order: Seq<usize>) -> bool {
    forall|a: int, b: int, i: int, j: int|
        #![trigger cols[a], cols[b], var_order[i], var_order[j]]
        0 <= a < b < cols.len() && 0 <= i < var_order.len() && 0 <= j < var_order.len()
            && var_order[i] == cols[a] && var_order[j] == cols[b] ==> i <= j
}

/// The facts of a relation can be joined: columns in the order of the variables are read as they
/// are stored, and refer back only to variables introduced before; other facts are re-indexed, and
/// are simple.
pub open spec fn is_joinable(values: Set<Seq<u8>>, r: Relation, var_order: Seq<usize>) -> bool {
    if in_order(r.vars, var_order) {
        is_scoped(r)
    } else {
        values_simple(values, r.prefix, r.vars.len())
    }
}

/// Every relation can be joined.
pub open spec fn all_joinable(
    values: Set<Seq<u8>>,
    rels: Seq<Relation>,
    var_order: Seq<usize>,
) -> bool {
    forall|f: int| 0 <= f < rels.len() ==> is_joinable(values, #[trigger] rels[f], var_order)
}

/// A join comes to the fact `cols` of the relation: a fact that is read as it is stored lies, in each
/// column, before the first dead end, and one that is re-indexed is stored as a value.
pub open spec fn is_read(
    values: Set<Seq<u8>>,
    r: Relation,
    var_order: Seq<usize>,
    cols: Seq<Seq<u8>>,
) -> bool {
    if in_order(r.vars, var_order) {
        walked(r.paths, r.prefix, cols)
    } else {
        exists|v: Seq<u8>| #[trigger]
            values.contains(v) && starts_with(r.prefix, r.vars.len(), v, cols)
    }
}

/// A join comes to every chosen fact.
pub open spec fn all_read(
    values: Set<Seq<u8>>,
    rels: Seq<Relation>,
    var_order: Seq<usize>,
    choice: Seq<Seq<Seq<u8>>>,
) -> bool {
    forall|f: int|
        0 <= f < rels.len() ==> is_read(values, rels[f], var_order, #[trigger] choice[f])
}

/// `row` answers the conjunction by facts that a join comes to.
pub open spec fn is_read_row(
    values: Set<Seq<u8>>,
    rels: Seq<Relation>,
    var_order: Seq<usize>,
    nvars: nat,
    row: Seq<Option<Seq<u8>>>,
) -> bool {
    exists|choice: Seq<Seq<Seq<u8>>>| #[trigger]
        is_choice(rels, choice) && gives(rels, choice, nvars, row) && all_read(
            values,
            rels,
            var_order,
            choice,
        )
}

/// Where a join reads every fact, it comes to every answer.
pub proof fn lemma_read_whole(
    values: Set<Seq<u8>>,
    rels: Seq<Relation>,
    var_order: Seq<usize>,
    nvars: nat,
    row: Seq<Option<Seq<u8>>>,
)
    requires
        all_read_whole(values, rels, var_order),
        is_unifier_row(rels, nvars, row),
    ensures
        is_read_row(values, rels, var_order, nvars, row),
{
    let choice = choose|choice: Seq<Seq<Seq<u8>>>| #[trigger]
        is_choice(rels, choice) && gives(rels, choice, nvars, row);
    assert forall|f: int| 0 <= f < rels.len() implies is_read(
        values,
        rels[f],
        var_order,
        #[trigger] choice[f],
    ) by {
        assert(is_read_whole(values, rels[f], var_order));
        assert(choice[f].len() == rels[f].vars.len());
        if in_order(rels[f].vars, var_order) {
            lemma_whole_walked(rels[f].paths, rels[f].prefix, choice[f]);
        }
    }
}

/// A join reads every fact of the relation: facts that are read as they are stored are whole, and
/// those that are re-indexed are all stored as values.
pub open spec fn is_read_whole(values: Set<Seq<u8>>, r: Relation, var_order: Seq<usize>) -> bool {
    if in_order(r.vars, var_order) {
        is_whole(r)
    } else {
        all_stored(values, r)
    }
}

/// A join reads every fact of every relation.
pub open spec fn all_read_whole(
    values: Set<Seq<u8>>,
    rels: Seq<Relation>,
    var_order: Seq<usize>,
) -> bool {
    forall|f: int| 0 <= f < rels.len() ==> is_read_whole(values, #[trigger] rels[f], var_order)
}

/// Position by position is the order of the variables.
proof fn lemma_in_order(cols: Seq<usize>, var_order: Seq<usize>, pos: Seq<usize>)
    requires
        positions(var_order, pos),
        forall|c: int|
            0 <= c < cols.len() ==> ordered_before(
                var_order,
                var_order.len() as int,
                #[trigger] cols[c],
            ),
    ensures
        in_order(cols, var_order) == is_forward(cols, pos),
        forall|c: int| 0 <= c < cols.len() ==> (#[trigger] cols[c]) < pos.len(),
{
    assert forall|c: int| 0 <= c < cols.len() implies (#[trigger] cols[c]) < pos.len() by {
        assert(ordered_before(var_order, var_order.len() as int, cols[c]));
        let i = choose|i: int| 0 <= i < var_order.len() && #[trigger] var_order[i] == cols[c];
        assert(var_order[i] < pos.len());
    }
    if in_order(cols, var_order) {
        assert forall|a: int, b: int|
            #![trigger cols[a], cols[b]]
            0 <= a < b < cols.len() implies pos[cols[a] as int] <= pos[cols[b] as int] by {
            assert(ordered_before(var_order, var_order.len() as int, cols[a]));
            assert(ordered_before(var_order, var_order.len() as int, cols[b]));
            let i = choose|i: int| 0 <= i < var_order.len() && #[trigger] var_order[i] == cols[a];
            let j = choose|j: int| 0 <= j < var_order.len() && #[trigger] var_order[j] == cols[b];
            assert(pos[var_order[i] as int] == i && pos[var_order[j] as int] == j);
        }
    }
    if is_forward(cols, pos) {
        assert forall|a: int, b: int, i: int, j: int|
            #![trigger cols[a], cols[b], var_order[i], var_order[j]]
            0 <= a < b < cols.len() && 0 <= i < var_order.len() && 0 <= j < var_order.len()
                && var_order[i] == cols[a] && var_order[j] == cols[b] implies i <= j by {
            assert(pos[cols[a] as int] <= pos[cols[b] as int]);
            assert(pos[var_order[i] as int] == i && pos[var_order[j] as int] == j);
        }
    }
}

/// The position of each variable in the order.
pub(crate) fn variable_positions(var_order: &[usize], nvars: usize) -> (pos: Vec<usize>)
    requires
        forall|i: int| 0 <= i < var_order@.len() ==> #[trigger] var_order@[i] < nvars,
        forall|i: int, j: int|
            #![trigger var_order@[i], var_order@[j]]
            0 <= i < j < var_order@.len() ==> var_order@[i] != var_order@[j],
    ensures
        pos@.len() == nvars,
        positions(var_order@, pos@),
{
    let mut pos = zeros(nvars);
    let mut i: usize = 0;
    while i < var_order.len()
        invariant
            i <= var_order@.len(),
            forall|i: int| 0 <= i < var_order@.len() ==> #[trigger] var_order@[i] < nvars,
            forall|i: int, j: int|
                #![trigger var_order@[i], var_order@[j]]
                0 <= i < j < var_order@.len() ==> var_order@[i] != var_order@[j],
            pos@.len() == nvars,
            forall|j: int| 0 <= j < i ==> pos@[(#[trigger] var_order@[j]) as int] == j,
        decreases var_order@.len() - i,
    {
        let v = var_order[i];
        pos[v] = i;
        i += 1;
    }
    pos
}

/// The relation `r` has a fact that says what the fact `cols` of `q` says, and a walk comes to it.
pub open spec fn has_walked(q: Relation, cols: Seq<Seq<u8>>, r: Relation) -> bool {
    exists|other: Seq<Seq<u8>>| #[trigger] is_walked_as(q, cols, r, other)
}

/// A walk comes to the fact `other` of `r`, which says what the fact `cols` of `q` says.
pub open spec fn is_walked_as(
    q: Relation,
    cols: Seq<Seq<u8>>,
    r: Relation,
    other: Seq<Seq<u8>>,
) -> bool {
    &&& is_fact(r, other)
    &&& walked(r.paths, r.prefix, other)
    &&& says_same(q.vars, cols, r.vars, other)
}

/// What the join works on: each factor as it is, or re-indexed.
pub(crate) struct Prepared {
    pub(crate) reindexes: Vec<PathSet>,
    pub(crate) factor_src: Vec<Option<usize>>,
    pub(crate) factors: Vec<Factor>,
}

impl Prepared {
    pub(crate) open spec fn ok<T: PathTrie>(
        &self,
        map: T,
        factors: Seq<Factor>,
        var_order: Seq<usize>,
        pos: Seq<usize>,
    ) -> bool {
        &&& self.factor_src@.len() == factors.len()
        &&& self.factors@.len() == factors.len()
        &&& forall|f: int| 0 <= f < factors.len() ==> #[trigger] self.factor_ready(
            map,
            factors[f],
            var_order,
            pos,
            f,
        )
    }

    /// Factor `f` stands for the facts of `factor`, and can be read in the order of the variables.
    pub(crate) open spec fn factor_ready<T: PathTrie>(
        &self,
        map: T,
        factor: Factor,
        var_order: Seq<usize>,
        pos: Seq<usize>,
        f: int,
    ) -> bool {
        let r = relations(map, self.reindexes@, self.factor_src@, self.factors@)[f];
        &&& match self.factor_src@[f] {
            Some(n) => n < self.reindexes@.len(),
            None => true,
        }
        &&& self.factors@[f].cols@.len() == factor.cols@.len()
        &&& factor.cols@.len() == 0 ==> r == relation_of(map.paths(), factor)
        &&& is_scoped(r)
        &&& is_forward(self.factors@[f].cols@, pos)
        &&& forall|c: int|
            0 <= c < self.factors@[f].cols@.len() ==> ordered_before(
                var_order,
                var_order.len() as int,
                #[trigger] self.factors@[f].cols@[c],
            )
        &&& is_covered(r, relation_of(map.paths(), factor))
        &&& forall|cols: Seq<Seq<u8>>| #[trigger]
            is_fact(relation_of(map.paths(), factor), cols) && is_read(
                map.values(),
                relation_of(map.paths(), factor),
                var_order,
                cols,
            ) ==> has_walked(relation_of(map.paths(), factor), cols, r)
    }

    /// Add a factor that is read as it is stored, from the map.
    fn add_live<T: PathTrie>(
        &mut self,
        map: &T,
        factor: &Factor,
        Ghost(done): Ghost<Seq<Factor>>,
        Ghost(var_order): Ghost<Seq<usize>>,
        Ghost(pos): Ghost<Seq<usize>>,
    )
        requires
            old(self).ok(*map, done, var_order, pos),
            is_scoped(relation_of(map.paths(), *factor)),
            in_order(factor.cols@, var_order),
            is_forward(factor.cols@, pos),
            forall|c: int|
                0 <= c < factor.cols@.len() ==> ordered_before(
                    var_order,
                    var_order.len() as int,
                    #[trigger] factor.cols@[c],
                ),
        ensures
            final(self).ok(*map, done.push(*factor), var_order, pos),
    {
        let ghost before = *self;
        let copy = Factor { prefix: to_vec(&factor.prefix), cols: copy_indices(&factor.cols) };
        self.factor_src.push(None);
        self.factors.push(copy);
        proof {
            let n = done.len() as int;
            let q = relation_of(map.paths(), *factor);
            lemma_covered_refl(q);
            let rels = relations(*map, self.reindexes@, self.factor_src@, self.factors@);
            assert(rels[n] == q);
            assert forall|cols: Seq<Seq<u8>>| #[trigger]
                is_fact(q, cols) && is_read(map.values(), q, var_order, cols) implies has_walked(
                q,
                cols,
                q,
            ) by {
                assert(is_walked_as(q, cols, q, cols));
            }
            assert forall|f: int| 0 <= f < n + 1 implies #[trigger] self.factor_ready(
                *map,
                done.push(*factor)[f],
                var_order,
                pos,
                f,
            ) by {
                if f < n {
                    assert(before.factor_ready(*map, done[f], var_order, pos, f));
                    let old_rels = relations(
                        *map,
                        before.reindexes@,
                        before.factor_src@,
                        before.factors@,
                    );
                    assert(rels[f] == old_rels[f]);
                }
            }
        }
    }

    /// Add an inverted factor, re-indexed.
    fn add_reindexed<T: PathTrie>(
        &mut self,
        map: &T,
        factor: &Factor,
        var_pos: &[usize],
        Ghost(done): Ghost<Seq<Factor>>,
        Ghost(var_order): Ghost<Seq<usize>>,
    )
        requires
            old(self).ok(*map, done, var_order, var_pos@),
            values_simple(map.values(), factor.prefix@, factor.cols@.len()),
            !in_order(factor.cols@, var_order),
            !is_forward(factor.cols@, var_pos@),
            forall|c: int|
                0 <= c < factor.cols@.len() ==> ordered_before(
                    var_order,
                    var_order.len() as int,
                    #[trigger] factor.cols@[c],
                ) && factor.cols@[c] < var_pos@.len(),
        ensures
            final(self).ok(*map, done.push(*factor), var_order, var_pos@),
    {
        let ghost before = *self;
        proof {
            lemma_simple_numberable(map.values(), factor.prefix@, factor.cols@.len());
        }
        let (ri, new_cols) = build_reindex(map, factor, var_pos);
        let ghost r = relation_of(map.paths(), *factor);
        let ghost copy = Relation { paths: ri.paths(), prefix: Seq::empty(), vars: new_cols@ };
        let ghost order = choose|order: Seq<usize>| #[trigger]
            is_stable_order(order, factor.cols@, var_pos@) && new_cols@ == permuted(
                factor.cols@,
                order,
            ) && forall|key: Seq<u8>| #[trigger]
                ri@.contains(key) == is_moved_fact(map.values(), factor.prefix@, order, key);
        proof {
            lemma_reindex(map.values(), r, order, ri@, copy);
            assert forall|cols: Seq<Seq<u8>>| #[trigger]
                is_fact(r, cols) && is_read(map.values(), r, var_order, cols) implies has_walked(
                r,
                cols,
                copy,
            ) by {
                let v = choose|v: Seq<u8>| #[trigger]
                    map.values().contains(v) && starts_with(r.prefix, r.vars.len(), v, cols);
                lemma_fact_moved(map.values(), r, order, ri@, copy, v, cols);
                let other = reordered(cols, order);
                lemma_whole_walked(copy.paths, copy.prefix, other);
                assert(is_walked_as(r, cols, copy, other));
            }
            lemma_permuted_forward(factor.cols@, order, var_pos@);
            assert forall|c: int| 0 <= c < new_cols@.len() implies ordered_before(
                var_order,
                var_order.len() as int,
                #[trigger] new_cols@[c],
            ) by {
                assert(order[c] < factor.cols@.len());
                assert(new_cols@[c] == factor.cols@[order[c] as int]);
            }
        }
        self.factor_src.push(Some(self.reindexes.len()));
        self.reindexes.push(ri);
        let moved = Factor { prefix: Vec::new(), cols: new_cols };
        self.factors.push(moved);
        proof {
            let n = done.len() as int;
            let rels = relations(*map, self.reindexes@, self.factor_src@, self.factors@);
            assert(moved.prefix@ =~= Seq::<u8>::empty());
            assert(rels[n] == copy);
            assert forall|f: int| 0 <= f < n + 1 implies #[trigger] self.factor_ready(
                *map,
                done.push(*factor)[f],
                var_order,
                var_pos@,
                f,
            ) by {
                if f < n {
                    assert(before.factor_ready(*map, done[f], var_order, var_pos@, f));
                    let old_rels = relations(
                        *map,
                        before.reindexes@,
                        before.factor_src@,
                        before.factors@,
                    );
                    assert(rels[f] == old_rels[f]);
                }
            }
        }
    }
}

/// Re-index the inverted factors, so that the join can seek every factor in the order of the
/// variables; any other factor is read from the map as it is.
pub(crate) fn prepare<T: PathTrie>(
    map: &T,
    factors: &[Factor],
    var_pos: &[usize],
    Ghost(var_order): Ghost<Seq<usize>>,
) -> (p: Prepared)
    requires
        lists_vars(factors@, var_order, var_pos@.len()),
        positions(var_order, var_pos@),
        all_joinable(map.values(), query_relations(map.paths(), factors@), var_order),
    ensures
        p.ok(*map, factors@, var_order, var_pos@),
{
    let mut p = Prepared { reindexes: Vec::new(), factor_src: Vec::new(), factors: Vec::new() };
    let mut f: usize = 0;
    assert(factors@.take(0) =~= Seq::<Factor>::empty());
    while f < factors.len()
        invariant
            f <= factors@.len(),
            lists_vars(factors@, var_order, var_pos@.len()),
            positions(var_order, var_pos@),
            all_joinable(map.values(), query_relations(map.paths(), factors@), var_order),
            p.ok(*map, factors@.take(f as int), var_order, var_pos@),
        decreases factors@.len() - f,
    {
        let factor = &factors[f];
        proof {
            assert forall|c: int| 0 <= c < factor.cols@.len() implies ordered_before(
                var_order,
                var_order.len() as int,
                #[trigger] factor.cols@[c],
            ) by {
                assert(factors@[f as int].cols@[c] == factor.cols@[c]);
            }
            lemma_in_order(factor.cols@, var_order, var_pos@);
            let rels = query_relations(map.paths(), factors@);
            assert(is_joinable(map.values(), rels[f as int], var_order));
            assert(factors@.take(f + 1) =~= factors@.take(f as int).push(*factor));
        }
        if is_inverted(factor, var_pos) {
            p.add_reindexed(
                map,
                factor,
                var_pos,
                Ghost(factors@.take(f as int)),
                Ghost(var_order),
            );
        } else {
            p.add_live(
                map,
                factor,
                Ghost(factors@.take(f as int)),
                Ghost(var_order),
                Ghost(var_pos@),
            );
        }
        f += 1;
    }
    assert(factors@.take(factors@.len() as int) =~= factors@);
    p
}

} // verus!
