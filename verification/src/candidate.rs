//! The children of a column that can unify with a join variable.

use vstd::prelude::*;
use crate::cursor::{
    after, anywhere, at_least, is_dead_end, is_shown, is_stop, is_subterm, is_visible, lands,
    lemma_none_before, SubtermCursor,
};
use crate::env::Resolved;
use crate::fact::is_wild;
use crate::order::{bytes_eq, diverges, is_prefix, lemma_lt_total, lemma_lt_trans, lt, to_vec};
use crate::term::{is_term, is_var_tag, lemma_holds_extend, lemma_prefix_free, lemma_var_is_term};
use crate::trie::Zipper;

verus! {

/// A candidate child at a factor's column: a ground subterm value, or a stored-variable wildcard
/// (its one tag byte, which introduces a variable or refers back to one).
pub enum Cand {
    Ground(Vec<u8>),
    Wild(u8),
}

impl View for Cand {
    type V = Seq<u8>;

    /// The bytes of the column.
    open spec fn view(&self) -> Seq<u8> {
        match self {
            Cand::Ground(g) => g@,
            Cand::Wild(w) => seq![*w],
        }
    }
}

impl Cand {
    /// A wildcard is told from a value.
    pub open spec fn wf(&self) -> bool {
        (self is Wild) == is_wild(self@)
    }
}

/// Every candidate is well-formed.
pub open spec fn cands_ok(cands: Seq<Cand>) -> bool {
    forall|i: int| 0 <= i < cands.len() ==> (#[trigger] cands[i]).wf()
}

/// `k` is one of the candidates.
pub open spec fn offered(cands: Seq<Cand>, k: Seq<u8>) -> bool {
    exists|i: int| 0 <= i < cands.len() && (#[trigger] cands[i])@ == k
}

/// From index `from` on the candidates are strictly ascending, so each is there once.
pub open spec fn cands_ascend(cands: Seq<Cand>, from: int) -> bool {
    forall|i: int, j: int|
        #![trigger cands[i], cands[j]]
        from <= i < j < cands.len() ==> lt(cands[i]@, cands[j]@)
}

/// From index `from` on the candidates are wildcards, strictly ascending.
pub open spec fn wilds_from(cands: Seq<Cand>, from: int) -> bool {
    &&& forall|i: int| from <= i < cands.len() ==> (#[trigger] cands[i]) is Wild
    &&& cands_ascend(cands, from)
}

/// The candidates are the value `g`, if it is there, and then wildcards, strictly ascending.
pub open spec fn value_then_wilds(cands: Seq<Cand>, g: Seq<u8>) -> bool {
    if cands.len() > 0 && cands[0]@ == g {
        wilds_from(cands, 1)
    } else {
        wilds_from(cands, 0)
    }
}

/// Column `k` can be equal to what `vb` resolves to.
pub open spec fn can_unify(vb: Resolved, k: Seq<u8>) -> bool {
    match vb {
        Resolved::Ground(g) => k == g@ || is_wild(k),
        Resolved::Var(_) => true,
    }
}

/// Column `k` of the branch is a candidate for what `vb` resolves to: a value is sought, and so are
/// the wildcards; for a free variable the branch is walked.
pub open spec fn is_candidate(branch: Set<Seq<u8>>, vb: Resolved, k: Seq<u8>) -> bool {
    match vb {
        Resolved::Ground(g) => is_subterm(branch, k) && (k == g@ || is_wild(k)),
        Resolved::Var(_) => is_visible(branch, k),
    }
}

/// Whether the column `k` is a stored variable.
pub fn is_wildcard_byte(k: &[u8]) -> (r: bool)
    ensures
        r == is_wild(k@),
{
    k.len() == 1 && 0x80 <= k[0] && k[0] <= 0xC0
}

/// The wildcards sort after `0x80` and before every value that does.
proof fn lemma_wild_order(k: Seq<u8>, w: Seq<u8>)
    requires
        is_term(k),
        !is_wild(k),
        is_wild(w),
        !lt(k, seq![0x80u8]),
    ensures
        lt(w, k),
{
    let low = seq![0x80u8];
    let b = k[0];
    if is_var_tag(b) {
        let one = seq![b];
        lemma_var_is_term(b);
        assert(one =~= k.take(1));
        lemma_prefix_free(1, one, k);
    }
    if b < 0x80 {
        assert(k.take(0) =~= low.take(0));
        assert(diverges(k, low, 0));
    }
    assert(w.take(0) =~= k.take(0));
    assert(diverges(w, k, 0));
}

/// One more candidate.
proof fn lemma_offered_push(cands: Seq<Cand>, c: Cand)
    ensures
        forall|k: Seq<u8>| #[trigger]
            offered(cands.push(c), k) == (offered(cands, k) || k == c@),
{
    let more = cands.push(c);
    assert forall|k: Seq<u8>| #[trigger] offered(more, k) == (offered(cands, k) || k == c@) by {
        if offered(cands, k) {
            let i = choose|i: int| 0 <= i < cands.len() && (#[trigger] cands[i])@ == k;
            assert(more[i]@ == k);
        }
        if k == c@ {
            assert(more[cands.len() as int]@ == k);
        }
        if offered(more, k) {
            let i = choose|i: int| 0 <= i < more.len() && (#[trigger] more[i])@ == k;
            if i < cands.len() {
                assert(cands[i]@ == k);
            }
        }
    }
}

/// What a walk from `from` on has come to before `at`, or in all.
spec fn passed(branch: Set<Seq<u8>>, from: Seq<u8>, at: Option<Seq<u8>>, k: Seq<u8>) -> bool {
    is_shown(branch, from, k) && match at {
        Some(a) => lt(k, a),
        None => true,
    }
}

/// What a walk from `from` on has still to come to.
spec fn ahead(branch: Set<Seq<u8>>, from: Seq<u8>, at: Option<Seq<u8>>) -> Set<Seq<u8>> {
    Set::new(|k: Seq<u8>| is_shown(branch, from, k) && !passed(branch, from, at, k))
}

/// A walk starts where a search for `from` lands.
proof fn lemma_start(
    branch: Set<Seq<u8>>,
    from: Seq<u8>,
    wanted: spec_fn(Seq<u8>) -> bool,
    at: Option<Seq<u8>>,
)
    requires
        lands(branch, wanted, at),
        forall|s: Seq<u8>| #[trigger] is_stop(branch, s) ==> wanted(s) == !lt(s, from),
    ensures
        at is Some ==> is_shown(branch, from, at->0),
        forall|k: Seq<u8>| !#[trigger] passed(branch, from, at, k),
{
    if at is Some {
        let c = at->0;
        assert(is_stop(branch, c));
        assert forall|d: Seq<u8>| #[trigger] is_dead_end(branch, d) && !lt(d, from) implies !lt(
            d,
            c,
        ) by {
            assert(is_stop(branch, d));
            lemma_lt_total(c, d);
        }
    }
    assert forall|k: Seq<u8>| !#[trigger] passed(branch, from, at, k) by {
        if passed(branch, from, at, k) {
            assert(is_stop(branch, k));
            if at is Some {
                lemma_lt_total(at->0, k);
            } else {
                let d = choose|d: Seq<u8>| #[trigger]
                    is_dead_end(branch, d) && wanted(d) && lt(d, k);
                assert(is_stop(branch, d));
            }
        }
    }
}

/// Stepping on from a subterm passes that subterm and nothing else.
proof fn lemma_step(branch: Set<Seq<u8>>, from: Seq<u8>, a: Seq<u8>, next: Option<Seq<u8>>)
    requires
        branch.finite(),
        is_shown(branch, from, a),
        lands(branch, after(a), next),
    ensures
        next is Some ==> is_shown(branch, from, next->0) && lt(a, next->0),
        forall|k: Seq<u8>| #[trigger]
            passed(branch, from, next, k) == (passed(branch, from, Some(a), k) || k == a),
        ahead(branch, from, next).len() < ahead(branch, from, Some(a)).len(),
{
    let before = ahead(branch, from, Some(a));
    lemma_lt_total(a, a);
    assert(before.subset_of(branch));
    vstd::set_lib::lemma_set_subset_finite(branch, before);
    if next is Some {
        let n = next->0;
        if lt(n, from) {
            lemma_lt_trans(a, n, from);
        }
        assert forall|d: Seq<u8>| #[trigger] is_dead_end(branch, d) && !lt(d, from) implies !lt(
            d,
            n,
        ) by {
            lemma_lt_total(d, a);
            lemma_lt_total(d, n);
            assert(is_stop(branch, d));
        }
    }
    assert forall|k: Seq<u8>| #[trigger]
        passed(branch, from, next, k) == (passed(branch, from, Some(a), k) || k == a) by {
        lemma_lt_total(k, a);
        if is_shown(branch, from, k) {
            assert(is_stop(branch, k));
            if next is Some {
                lemma_lt_total(k, next->0);
                if lt(k, a) {
                    lemma_lt_trans(k, a, next->0);
                }
            } else if lt(a, k) {
                let d = choose|d: Seq<u8>| #[trigger]
                    is_dead_end(branch, d) && after(a)(d) && lt(d, k);
                if lt(d, from) {
                    lemma_lt_trans(a, d, from);
                }
            }
        }
    }
    assert(ahead(branch, from, next) =~= before.remove(a));
    assert(before.contains(a));
}

/// A walk from `0x80` on comes to every wildcard: no dead end lies among them.
proof fn lemma_wilds_shown(branch: Set<Seq<u8>>, k: Seq<u8>)
    requires
        is_wild(k),
        is_subterm(branch, k),
    ensures
        is_shown(branch, seq![0x80u8], k),
{
    let low = seq![0x80u8];
    if k != low {
        assert(low.take(0) =~= k.take(0));
        if k[0] == 0x80 {
            assert(k =~= low);
        }
        assert(diverges(low, k, 0));
    }
    lemma_lt_total(k, low);
    assert forall|d: Seq<u8>| #[trigger] is_dead_end(branch, d) && !lt(d, low) implies !lt(d, k) by {
        if lt(d, k) {
            if d.len() == 0 {
                assert(d =~= low.take(0));
                assert(is_prefix(d, low));
            }
            let b = d[0];
            if b < 0x80 {
                assert(d.take(0) =~= low.take(0));
                assert(diverges(d, low, 0));
            }
            if b > k[0] {
                assert(k.take(0) =~= d.take(0));
                assert(diverges(k, d, 0));
                lemma_lt_total(k, d);
            }
            let one = seq![b];
            lemma_var_is_term(b);
            assert(one =~= d.take(1));
            assert(is_prefix(one, d));
            lemma_holds_extend(1, one, d);
        }
    }
}

/// One more candidate, after the others and before what comes next.
proof fn lemma_ascend_push(cands: Seq<Cand>, c: Cand, from: int, next: Option<Seq<u8>>)
    requires
        0 <= from <= cands.len(),
        cands_ascend(cands, from),
        forall|i: int| from <= i < cands.len() ==> lt((#[trigger] cands[i])@, c@),
        next is Some ==> lt(c@, next->0),
    ensures
        cands_ascend(cands.push(c), from),
        next is Some ==> forall|i: int|
            from <= i < cands.push(c).len() ==> lt((#[trigger] cands.push(c)[i])@, next->0),
{
    let more = cands.push(c);
    assert forall|i: int, j: int|
        #![trigger more[i], more[j]]
        from <= i < j < more.len() implies lt(more[i]@, more[j]@) by {
        assert(more[i] == cands[i]);
        if j < cands.len() {
            assert(more[j] == cands[j]);
        }
    }
    if next is Some {
        assert forall|i: int| from <= i < more.len() implies lt((#[trigger] more[i])@, next->0) by {
            if i < cands.len() {
                assert(more[i] == cands[i]);
                lemma_lt_trans(cands[i]@, c@, next->0);
            }
        }
    }
}

/// Add the wildcards from the cursor's position on to the candidates. The walk starts at `0x80`.
fn add_wildcards<Z: Zipper>(cur: &mut SubtermCursor<Z>, out: &mut Vec<Cand>)
    requires
        old(cur).wf(),
        old(cur).current() is Some ==> is_shown(
            old(cur).branch(),
            seq![0x80u8],
            old(cur).current()->0,
        ),
        forall|k: Seq<u8>| !#[trigger]
            passed(old(cur).branch(), seq![0x80u8], old(cur).current(), k),
        cands_ok(old(out)@),
    ensures
        final(cur).wf(),
        final(cur).same_floor(old(cur)),
        cands_ok(final(out)@),
        old(out)@.len() <= final(out)@.len(),
        final(out)@.take(old(out)@.len() as int) == old(out)@,
        wilds_from(final(out)@, old(out)@.len() as int),
        forall|k: Seq<u8>| #[trigger]
            offered(final(out)@, k) == (offered(old(out)@, k) || is_wild(k) && is_subterm(
                old(cur).branch(),
                k,
            )),
{
    let ghost branch = cur.branch();
    let ghost low = seq![0x80u8];
    proof {
        cur.lemma_branch();
    }
    assert(out@.take(out@.len() as int) =~= out@);
    loop
        invariant
            cur.wf(),
            cur.same_floor(old(cur)),
            branch == old(cur).branch(),
            low == seq![0x80u8],
            branch.finite(),
            cands_ok(out@),
            cur.current() is Some ==> is_shown(branch, low, cur.current()->0),
            old(out)@.len() <= out@.len(),
            out@.take(old(out)@.len() as int) == old(out)@,
            wilds_from(out@, old(out)@.len() as int),
            cur.current() is Some ==> forall|i: int|
                old(out)@.len() <= i < out@.len() ==> lt((#[trigger] out@[i])@, cur.current()->0),
            forall|k: Seq<u8>| #[trigger]
                offered(out@, k) == (offered(old(out)@, k) || is_wild(k) && passed(
                    branch,
                    low,
                    cur.current(),
                    k,
                )),
        decreases ahead(branch, low, cur.current()).len(),
    {
        let byte: Option<u8> = match cur.key() {
            Some(k) => {
                if is_wildcard_byte(k) {
                    Some(k[0])
                } else {
                    None
                }
            },
            None => None,
        };
        let ghost at = cur.current();
        match byte {
            None => {
                proof {
                    assert forall|k: Seq<u8>| is_wild(k) && #[trigger] is_subterm(
                        branch,
                        k,
                    ) implies passed(branch, low, at, k) by {
                        lemma_wilds_shown(branch, k);
                        if at is Some {
                            lemma_wild_order(at->0, k);
                        }
                    }
                }
                return ;
            },
            Some(b) => {
                let c = Cand::Wild(b);
                proof {
                    assert(c@ =~= at->0);
                    lemma_offered_push(out@, c);
                }
                let ghost out0 = out@;
                out.push(c);
                cur.next();
                proof {
                    assert(out@.take(old(out)@.len() as int) =~= out0.take(old(out)@.len() as int));
                    lemma_step(branch, low, at->0, cur.current());
                    lemma_ascend_push(out0, c, old(out)@.len() as int, cur.current());
                }
            },
        }
    }
}

/// The whole column as candidates.
fn whole_column<Z: Zipper>(cur: &mut SubtermCursor<Z>) -> (out: Vec<Cand>)
    requires
        old(cur).wf(),
    ensures
        final(cur).wf(),
        final(cur).same_floor(old(cur)),
        cands_ok(out@),
        cands_ascend(out@, 0),
        forall|k: Seq<u8>| #[trigger] offered(out@, k) == is_visible(old(cur).branch(), k),
{
    let mut out: Vec<Cand> = Vec::new();
    let ghost branch = cur.branch();
    let ghost none = Seq::<u8>::empty();
    cur.first();
    proof {
        cur.lemma_branch();
        lemma_walk_start(branch, cur.current());
    }
    loop
        invariant
            cur.wf(),
            cur.same_floor(old(cur)),
            branch == old(cur).branch(),
            none == Seq::<u8>::empty(),
            branch.finite(),
            cands_ok(out@),
            cur.current() is Some ==> is_visible(branch, cur.current()->0),
            cands_ascend(out@, 0),
            cur.current() is Some ==> forall|i: int|
                0 <= i < out@.len() ==> lt((#[trigger] out@[i])@, cur.current()->0),
            forall|k: Seq<u8>| #[trigger]
                offered(out@, k) == passed(branch, none, cur.current(), k),
        decreases ahead(branch, none, cur.current()).len(),
    {
        let ghost at = cur.current();
        let c = match cur.key() {
            None => {
                return out;
            },
            Some(k) => {
                if is_wildcard_byte(k) {
                    assert(k@ =~= seq![k@[0]]);
                    Cand::Wild(k[0])
                } else {
                    Cand::Ground(to_vec(k))
                }
            },
        };
        proof {
            assert(c@ =~= at->0);
            lemma_offered_push(out@, c);
        }
        let ghost out0 = out@;
        out.push(c);
        cur.next();
        proof {
            lemma_step(branch, none, at->0, cur.current());
            lemma_ascend_push(out0, c, 0, cur.current());
        }
    }
}

/// A walk of the whole branch starts at its first subterm.
proof fn lemma_walk_start(branch: Set<Seq<u8>>, at: Option<Seq<u8>>)
    requires
        lands(branch, anywhere(), at),
    ensures
        at is Some ==> is_visible(branch, at->0),
        forall|k: Seq<u8>| !#[trigger] passed(branch, Seq::empty(), at, k),
{
    assert forall|s: Seq<u8>| #[trigger] is_stop(branch, s) implies anywhere()(s) == !lt(
        s,
        Seq::empty(),
    ) by {
        lemma_none_before(s);
    }
    lemma_start(branch, Seq::empty(), anywhere(), at);
}

/// A search for a complete subterm lands on it exactly where the branch has it.
pub proof fn lemma_sought_value(branch: Set<Seq<u8>>, g: Seq<u8>, at: Option<Seq<u8>>)
    requires
        is_term(g),
        lands(branch, at_least(g), at),
    ensures
        is_subterm(branch, g) == (at == Some(g)),
{
    lemma_lt_total(g, g);
    if is_subterm(branch, g) {
        assert(is_stop(branch, g));
        if at is Some {
            let k = at->0;
            lemma_lt_total(g, k);
            if is_prefix(k, g) {
                lemma_prefix_free(1, k, g);
            }
        } else {
            let d = choose|d: Seq<u8>| #[trigger]
                is_dead_end(branch, d) && at_least(g)(d) && lt(d, g);
            assert(!is_term(d));
        }
    }
}

/// The children of a factor's current column that can unify with what the join variable resolves
/// to. For a ground value, seek that value and add the wildcard children, which all unify with it;
/// the wildcards lie next to each other, so they are a short scan. For a free variable, enumerate
/// the whole column, up to the first dead end if the branch has one.
pub fn candidates<Z: Zipper>(cur: &mut SubtermCursor<Z>, vb: &Resolved) -> (cands: Vec<Cand>)
    requires
        old(cur).wf(),
        match *vb {
            Resolved::Ground(g) => !is_wild(g@) && is_term(g@),
            Resolved::Var(_) => true,
        },
    ensures
        final(cur).wf(),
        final(cur).same_floor(old(cur)),
        cands_ok(cands@),
        match *vb {
            Resolved::Ground(g) => value_then_wilds(cands@, g@),
            Resolved::Var(_) => cands_ascend(cands@, 0),
        },
        forall|k: Seq<u8>| #[trigger] offered(cands@, k) == is_candidate(old(cur).branch(), *vb, k),
{
    match vb {
        Resolved::Ground(g) => {
            let mut out: Vec<Cand> = Vec::new();
            let ghost branch = cur.branch();
            cur.seek(g);
            proof {
                lemma_sought_value(branch, g@, cur.current());
            }
            let found = match cur.key() {
                Some(k) => bytes_eq(k, g),
                None => false,
            };
            assert(found == is_subterm(branch, g@));
            if found {
                let c = Cand::Ground(to_vec(g));
                proof {
                    lemma_offered_push(out@, c);
                }
                out.push(c);
            }
            let low: [u8; 1] = [0x80];
            cur.seek(&low);
            proof {
                let bottom = seq![0x80u8];
                assert(low@ =~= bottom);
                assert forall|s: Seq<u8>| #[trigger] is_stop(branch, s) implies at_least(bottom)(s)
                    == !lt(s, bottom) by {
                    if is_term(s) && is_prefix(s, bottom) {
                        lemma_var_is_term(0x80);
                        lemma_prefix_free(1, s, bottom);
                        lemma_lt_total(s, bottom);
                    }
                }
                lemma_start(branch, bottom, at_least(bottom), cur.current());
            }
            assert(found == offered(out@, g@));
            let ghost value = out@;
            add_wildcards(cur, &mut out);
            proof {
                if found {
                    assert(out@.take(value.len() as int)[0] == out@[0]);
                } else if out@.len() > 0 {
                    assert(out@[0] is Wild && out@[0].wf());
                }
            }
            out
        },
        Resolved::Var(_) => whole_column(cur),
    }
}

/// The subterms of a branch.
pub open spec fn subterms(branch: Set<Seq<u8>>) -> Set<Seq<u8>> {
    Set::new(|k: Seq<u8>| is_subterm(branch, k))
}

/// The subterms that a walk of the branch comes to.
pub open spec fn visible(branch: Set<Seq<u8>>) -> Set<Seq<u8>> {
    Set::new(|k: Seq<u8>| is_visible(branch, k))
}

/// How many subterms a walk of the column comes to, but no more than `cap`: which factor has the
/// fewest candidates is all that matters, so a bounded count will do.
pub fn count_subterms<Z: Zipper>(cur: &mut SubtermCursor<Z>, cap: usize) -> (n: usize)
    requires
        old(cur).wf(),
    ensures
        visible(old(cur).branch()).finite(),
        n == if visible(old(cur).branch()).len() < cap {
            visible(old(cur).branch()).len() as int
        } else {
            cap as int
        },
{
    let ghost branch = cur.branch();
    let ghost all = visible(branch);
    let ghost none = Seq::<u8>::empty();
    cur.first();
    proof {
        cur.lemma_branch();
        assert(all.subset_of(branch));
        vstd::set_lib::lemma_set_subset_finite(branch, all);
        lemma_walk_start(branch, cur.current());
    }
    let ghost mut seen: Set<Seq<u8>> = Set::empty();
    let mut n: usize = 0;
    while !cur.at_end() && n < cap
        invariant
            cur.wf(),
            cur.same_floor(old(cur)),
            branch == old(cur).branch(),
            all == visible(branch),
            none == Seq::<u8>::empty(),
            all.finite(),
            branch.finite(),
            cur.current() is Some ==> is_visible(branch, cur.current()->0),
            seen.finite(),
            seen.len() == n,
            n <= cap,
            forall|k: Seq<u8>| #[trigger]
                seen.contains(k) == passed(branch, none, cur.current(), k),
        decreases cap - n,
    {
        let ghost at = cur.current()->0;
        cur.next();
        n += 1;
        proof {
            lemma_lt_total(at, at);
            assert(!seen.contains(at));
            seen = seen.insert(at);
            lemma_step(branch, none, at, cur.current());
        }
    }
    proof {
        assert(seen.subset_of(all));
        if cur.current() is None {
            assert(seen =~= all);
        }
        vstd::set_lib::lemma_len_subset(seen, all);
    }
    n
}

} // verus!
