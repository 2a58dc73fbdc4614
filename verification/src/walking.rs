//! Walks over a branch in plain terms: where a cursor stands, and what an intersection of cursors
//! finds.

use vstd::prelude::*;
use crate::answers::{holds_columns, paths_of_values, spells_columns};
use crate::candidate::{
    candidates, cands_ok, count_subterms, is_candidate, is_wildcard_byte, offered, visible, Cand,
};
use crate::cursor::{
    after, anywhere, at_least, has_child, is_dead_end, is_stop, is_subterm, is_visible, lands,
    lemma_none_before, SubtermCursor,
};
use crate::env::Resolved;
use crate::leapfrog::{all_visible, intersect, is_common, listed};
use crate::mask::{has_bit, least_ge, ByteMask};
use crate::meaning::{lemma_front_term, lemma_prefix_plain};
use crate::order::{is_prefix, lt};
use crate::term::{holds, is_term, lemma_holds_extend, step_parse};
use crate::trie::{below, Zipper};

verus! {

/// A complete term follows `floor` along a path.
pub open spec fn is_term_at(paths: Set<Seq<u8>>, floor: Seq<u8>, s: Seq<u8>) -> bool {
    is_term(s) && paths.contains(floor + s)
}

/// The paths end at `floor` followed by `d`, before any term is complete.
pub open spec fn breaks_off(paths: Set<Seq<u8>>, floor: Seq<u8>, d: Seq<u8>) -> bool {
    &&& d.len() > 0 ==> paths.contains(floor + d)
    &&& forall|b: u8| !paths.contains(#[trigger] (floor + d).push(b))
    &&& forall|t: Seq<u8>| #[trigger] is_term(t) ==> !t.is_prefix_of(d)
}

proof fn lemma_breaks_off(paths: Set<Seq<u8>>, floor: Seq<u8>, d: Seq<u8>)
    ensures
        breaks_off(paths, floor, d) == is_dead_end(below(paths, floor), d),
{
    let branch = below(paths, floor);
    lemma_front_term(d);
    assert forall|b: u8| #[trigger] (floor + d).push(b) == floor + d.push(b) by {
        assert((floor + d).push(b) =~= floor + d.push(b));
    }
    if d.len() > 0 && holds(1, d.drop_last()) {
        assert(is_prefix(d.drop_last(), d)) by {
            assert(d.drop_last() =~= d.take(d.len() - 1));
        }
        lemma_holds_extend(1, d.drop_last(), d);
    }
    if breaks_off(paths, floor, d) {
        assert(!has_child(branch, d)) by {
            assert forall|b: u8| !branch.contains(#[trigger] d.push(b)) by {
                assert(!paths.contains((floor + d).push(b)));
            }
        }
    }
    if is_dead_end(branch, d) {
        assert forall|b: u8| !paths.contains(#[trigger] (floor + d).push(b)) by {
            assert(!branch.contains(d.push(b)));
        }
    }
}

/// Where a search for what `wanted` accepts comes to stand.
spec fn found(
    paths: Set<Seq<u8>>,
    floor: Seq<u8>,
    wanted: spec_fn(Seq<u8>) -> bool,
    at: Option<Seq<u8>>,
) -> bool {
    match at {
        Some(k) => {
            &&& is_term_at(paths, floor, k)
            &&& wanted(k)
            &&& forall|s: Seq<u8>| #[trigger]
                is_term_at(paths, floor, s) && wanted(s) ==> s == k || lt(k, s)
            &&& forall|d: Seq<u8>| #[trigger]
                breaks_off(paths, floor, d) && wanted(d) ==> lt(k, d)
        },
        None => forall|s: Seq<u8>| #[trigger]
            is_term_at(paths, floor, s) && wanted(s) ==> exists|d: Seq<u8>| #[trigger]
                breaks_off(paths, floor, d) && wanted(d) && lt(d, s),
    }
}

proof fn lemma_found(
    paths: Set<Seq<u8>>,
    floor: Seq<u8>,
    wanted: spec_fn(Seq<u8>) -> bool,
    at: Option<Seq<u8>>,
)
    requires
        lands(below(paths, floor), wanted, at),
    ensures
        found(paths, floor, wanted, at),
{
    let branch = below(paths, floor);
    match at {
        Some(k) => {
            assert forall|s: Seq<u8>| #[trigger]
                is_term_at(paths, floor, s) && wanted(s) implies s == k || lt(k, s) by {
                assert(is_stop(branch, s));
            }
            assert forall|d: Seq<u8>| #[trigger]
                breaks_off(paths, floor, d) && wanted(d) implies lt(k, d) by {
                lemma_breaks_off(paths, floor, d);
                assert(is_stop(branch, d));
                if d == k {
                    assert(holds(1, k));
                }
            }
        },
        None => {
            assert forall|s: Seq<u8>| #[trigger]
                is_term_at(paths, floor, s) && wanted(s) implies exists|d: Seq<u8>| #[trigger]
                breaks_off(paths, floor, d) && wanted(d) && lt(d, s) by {
                assert(is_subterm(branch, s) && wanted(s));
                let d = choose|d: Seq<u8>| #[trigger]
                    is_dead_end(branch, d) && wanted(d) && lt(d, s);
                lemma_breaks_off(paths, floor, d);
                assert(breaks_off(paths, floor, d) && wanted(d) && lt(d, s));
            }
        },
    }
}

/// The first stop of a walk is the least complete term below the floor. If there is none the cursor
/// is at the end, and so it is if the paths break off before they come to a term.
pub proof fn lemma_first_stop<Z: Zipper>(c: &mut SubtermCursor<Z>)
    requires
        call_ensures(SubtermCursor::<Z>::first, (c,), ()),
    ensures
        final(c).paths() == old(c).paths(),
        final(c).floor() == old(c).floor(),
        match final(c).current() {
            Some(k) => {
                &&& is_term_at(old(c).paths(), old(c).floor(), k)
                &&& forall|s: Seq<u8>| #[trigger]
                    is_term_at(old(c).paths(), old(c).floor(), s) ==> s == k || lt(k, s)
                &&& forall|d: Seq<u8>| #[trigger]
                    breaks_off(old(c).paths(), old(c).floor(), d) ==> lt(k, d)
            },
            None => forall|s: Seq<u8>| #[trigger]
                is_term_at(old(c).paths(), old(c).floor(), s) ==> exists|d: Seq<u8>| #[trigger]
                    breaks_off(old(c).paths(), old(c).floor(), d) && lt(d, s),
        },
{
    lemma_found(old(c).paths(), old(c).floor(), anywhere(), final(c).current());
}

/// The next stop of a walk is the least complete term after the one that the cursor stands at. A
/// cursor at the end stays there.
pub proof fn lemma_next_stop<Z: Zipper>(c: &mut SubtermCursor<Z>)
    requires
        call_ensures(SubtermCursor::<Z>::next, (c,), ()),
    ensures
        final(c).paths() == old(c).paths(),
        final(c).floor() == old(c).floor(),
        match (old(c).current(), final(c).current()) {
            (None, at) => at is None,
            (Some(k0), Some(k)) => {
                &&& is_term_at(old(c).paths(), old(c).floor(), k)
                &&& lt(k0, k)
                &&& forall|s: Seq<u8>| #[trigger]
                    is_term_at(old(c).paths(), old(c).floor(), s) && lt(k0, s) ==> s == k || lt(
                        k,
                        s,
                    )
                &&& forall|d: Seq<u8>| #[trigger]
                    breaks_off(old(c).paths(), old(c).floor(), d) && lt(k0, d) ==> lt(k, d)
            },
            (Some(k0), None) => forall|s: Seq<u8>| #[trigger]
                is_term_at(old(c).paths(), old(c).floor(), s) && lt(k0, s) ==> exists|
                    d: Seq<u8>,
                | #[trigger]
                    breaks_off(old(c).paths(), old(c).floor(), d) && lt(k0, d) && lt(d, s),
        },
{
    match old(c).current() {
        Some(k0) => {
            lemma_found(old(c).paths(), old(c).floor(), after(k0), final(c).current());
        },
        None => {},
    }
}

/// A seek stands at the least complete term that is not before the target, or at one that the target
/// starts with.
pub proof fn lemma_seek_stop<Z: Zipper>(c: &mut SubtermCursor<Z>, target: &[u8])
    requires
        call_ensures(SubtermCursor::<Z>::seek, (c, target), ()),
    ensures
        final(c).paths() == old(c).paths(),
        final(c).floor() == old(c).floor(),
        match final(c).current() {
            Some(k) => {
                &&& is_term_at(old(c).paths(), old(c).floor(), k)
                &&& !lt(k, target@) || k.is_prefix_of(target@)
                &&& forall|s: Seq<u8>| #[trigger]
                    is_term_at(old(c).paths(), old(c).floor(), s) && (!lt(s, target@)
                        || s.is_prefix_of(target@)) ==> s == k || lt(k, s)
                &&& forall|d: Seq<u8>| #[trigger]
                    breaks_off(old(c).paths(), old(c).floor(), d) && !lt(d, target@) ==> lt(k, d)
            },
            None => forall|s: Seq<u8>| #[trigger]
                is_term_at(old(c).paths(), old(c).floor(), s) && (!lt(s, target@)
                    || s.is_prefix_of(target@)) ==> exists|d: Seq<u8>| #[trigger]
                    breaks_off(old(c).paths(), old(c).floor(), d) && !lt(d, target@) && lt(d, s),
        },
{
    let paths = old(c).paths();
    let floor = old(c).floor();
    let wanted = at_least(target@);
    lemma_found(paths, floor, wanted, final(c).current());
    assert forall|s: Seq<u8>| #[trigger] is_term_at(paths, floor, s) implies wanted(s) == (!lt(
        s,
        target@,
    ) || s.is_prefix_of(target@)) by {
        lemma_prefix_plain(s, target@);
    }
    assert forall|d: Seq<u8>| #[trigger] breaks_off(paths, floor, d) implies wanted(d) == !lt(
        d,
        target@,
    ) by {
        if is_term(d) {
            assert(d.is_prefix_of(d));
        }
    }
    match final(c).current() {
        Some(k) => {},
        None => {
            assert forall|s: Seq<u8>| #[trigger]
                is_term_at(paths, floor, s) && (!lt(s, target@) || s.is_prefix_of(
                    target@,
                )) implies exists|d: Seq<u8>| #[trigger]
                breaks_off(paths, floor, d) && !lt(d, target@) && lt(d, s) by {
                assert(is_term_at(paths, floor, s) && wanted(s));
                let d = choose|d: Seq<u8>| #[trigger]
                    breaks_off(paths, floor, d) && wanted(d) && lt(d, s);
                assert(breaks_off(paths, floor, d) && !lt(d, target@) && lt(d, s));
            }
        },
    }
}

/// Where every value below the floor has a complete term after it, and some value is below the floor,
/// the paths below the floor do not break off, so a walk comes to every term.
pub proof fn lemma_no_break(
    paths: Set<Seq<u8>>,
    values: Set<Seq<u8>>,
    floor: Seq<u8>,
    d: Seq<u8>,
    v: Seq<u8>,
)
    requires
        paths_of_values(paths, values),
        holds_columns(values, floor, 1),
        values.contains(v),
        floor.is_prefix_of(v),
    ensures
        !breaks_off(paths, floor, d),
{
    reveal(paths_of_values);
    reveal(holds_columns);
    if breaks_off(paths, floor, d) {
        let u = if d.len() == 0 {
            assert(floor + d =~= floor);
            v
        } else {
            choose|u: Seq<u8>| #[trigger] values.contains(u) && (floor + d).is_prefix_of(u)
        };
        assert((floor + d).is_prefix_of(u));
        assert(floor.is_prefix_of(u)) by {
            assert(floor =~= (floor + d).subrange(0, floor.len() as int));
            assert(floor =~= u.subrange(0, floor.len() as int));
        }
        let cols = choose|cols: Seq<Seq<u8>>| #[trigger] spells_columns(floor, 1, u, cols);
        let t = cols[0];
        cols.lemma_flatten_singleton();
        assert(is_term(t));
        assert((floor + t).is_prefix_of(u));
        let rest = u.skip(floor.len() as int);
        assert(t =~= rest.subrange(0, t.len() as int)) by {
            assert(floor + t =~= u.subrange(0, (floor + t).len() as int));
            assert forall|i: int| 0 <= i < t.len() implies t[i] == rest[i] by {
                assert((floor + t)[floor.len() + i] == u[floor.len() + i]);
            }
        }
        assert(d =~= rest.subrange(0, d.len() as int)) by {
            assert(floor + d =~= u.subrange(0, (floor + d).len() as int));
            assert forall|i: int| 0 <= i < d.len() implies d[i] == rest[i] by {
                assert((floor + d)[floor.len() + i] == u[floor.len() + i]);
            }
        }
        if t.len() <= d.len() {
            assert(t =~= d.subrange(0, t.len() as int));
            assert(t.is_prefix_of(d));
        } else {
            let b = t[d.len() as int];
            let on = (floor + d).push(b);
            assert(on =~= u.subrange(0, on.len() as int));
            assert(on.is_prefix_of(u));
            assert(paths.contains(on));
        }
    }
}

/// One byte of a parse, whatever has been read: within a symbol's name it counts the name down, and a
/// tag is one term less to come and then what the tag says is to follow.
pub proof fn lemma_step_counts(b: u8, subterms: &mut u128, payload: &mut u8)
    requires
        call_ensures(step_parse, (b, subterms, payload), ()),
        *old(payload) > 0 || *old(subterms) > 0,
    ensures
        *old(payload) > 0 ==> *final(payload) == *old(payload) - 1 && *final(subterms) == *old(
            subterms,
        ),
        *old(payload) == 0 && b < 0x40 ==> *final(payload) == 0 && *final(subterms) == *old(
            subterms,
        ) - 1 + b,
        *old(payload) == 0 && 0x40 <= b < 0x80 ==> *final(payload) == b - 0x40 && *final(subterms)
            == *old(subterms) - 1,
        *old(payload) == 0 && 0x80 <= b <= 0xC0 ==> *final(payload) == 0 && *final(subterms)
            == *old(subterms) - 1,
        *old(payload) == 0 && 0xC1 <= b ==> *final(payload) == b - 0xC0 && *final(subterms) == *old(
            subterms,
        ) - 1,
{
}

/// No path below the floor breaks off before the complete term `k`.
pub open spec fn comes_to(paths: Set<Seq<u8>>, floor: Seq<u8>, k: Seq<u8>) -> bool {
    &&& is_term_at(paths, floor, k)
    &&& forall|d: Seq<u8>| #[trigger] breaks_off(paths, floor, d) ==> !lt(d, k)
}

pub proof fn lemma_comes_to(paths: Set<Seq<u8>>, floor: Seq<u8>, k: Seq<u8>)
    ensures
        comes_to(paths, floor, k) == is_visible(below(paths, floor), k),
{
    let branch = below(paths, floor);
    lemma_none_before(k);
    if comes_to(paths, floor, k) {
        assert forall|d: Seq<u8>| #[trigger]
            is_dead_end(branch, d) && !lt(d, Seq::empty()) implies !lt(d, k) by {
            lemma_breaks_off(paths, floor, d);
            assert(breaks_off(paths, floor, d));
        }
    }
    if is_visible(branch, k) {
        assert forall|d: Seq<u8>| #[trigger] breaks_off(paths, floor, d) implies !lt(d, k) by {
            lemma_breaks_off(paths, floor, d);
            lemma_none_before(d);
            assert(is_dead_end(branch, d));
        }
    }
}

/// What an intersection of cursors lists are complete terms below every floor, in ascending order and
/// each once. It lists every one of them that all the walks come to. Without a cursor it lists
/// nothing. The cursors keep their floors.
pub proof fn lemma_intersection<Z: Zipper>(cursors: &mut Vec<SubtermCursor<Z>>, out: Vec<Vec<u8>>)
    requires
        call_ensures(intersect::<Z>, (cursors,), out),
    ensures
        forall|i: int, j: int|
            #![trigger out@[i], out@[j]]
            0 <= i < j < out@.len() ==> lt(out@[i]@, out@[j]@),
        forall|i: int, c: int|
            #![trigger out@[i], old(cursors)@[c]]
            0 <= i < out@.len() && 0 <= c < old(cursors)@.len() ==> is_term_at(
                old(cursors)@[c].paths(),
                old(cursors)@[c].floor(),
                out@[i]@,
            ),
        old(cursors)@.len() == 0 ==> out@.len() == 0,
        old(cursors)@.len() > 0 ==> forall|k: Seq<u8>| #[trigger]
            is_term(k) && (forall|c: int|
                0 <= c < old(cursors)@.len() ==> comes_to(
                    (#[trigger] old(cursors)@[c]).paths(),
                    old(cursors)@[c].floor(),
                    k,
                )) ==> exists|i: int| 0 <= i < out@.len() && (#[trigger] out@[i])@ == k,
        final(cursors)@.len() == old(cursors)@.len(),
        forall|c: int|
            #![trigger final(cursors)@[c]]
            0 <= c < final(cursors)@.len() ==> final(cursors)@[c].paths() == old(cursors)@[c].paths()
                && final(cursors)@[c].floor() == old(cursors)@[c].floor(),
{
    let cs = old(cursors)@;
    assert forall|i: int, c: int|
        #![trigger out@[i], cs[c]]
        0 <= i < out@.len() && 0 <= c < cs.len() implies is_term_at(
        cs[c].paths(),
        cs[c].floor(),
        out@[i]@,
    ) by {
        assert(listed(out@, out@[i]@));
        assert(is_common(cs, out@[i]@));
        assert(is_subterm(cs[c].branch(), out@[i]@));
    }
    if cs.len() == 0 && out@.len() > 0 {
        assert(listed(out@, out@[0]@));
    }
    if cs.len() > 0 {
        assert forall|k: Seq<u8>| #[trigger]
            is_term(k) && (forall|c: int|
                0 <= c < cs.len() ==> comes_to(
                    (#[trigger] cs[c]).paths(),
                    cs[c].floor(),
                    k,
                )) implies exists|i: int| 0 <= i < out@.len() && (#[trigger] out@[i])@ == k by {
            assert forall|c: int| 0 <= c < cs.len() implies is_visible(
                (#[trigger] cs[c]).branch(),
                k,
            ) by {
                lemma_comes_to(cs[c].paths(), cs[c].floor(), k);
            }
            assert(all_visible(cs, k));
            assert(listed(out@, k));
        }
    }
    assert forall|c: int|
        #![trigger final(cursors)@[c]]
        0 <= c < final(cursors)@.len() implies final(cursors)@[c].paths() == cs[c].paths()
        && final(cursors)@[c].floor() == cs[c].floor() by {
        assert(final(cursors)@[c].same_floor(&cs[c]));
    }
}

/// The column is a variable that a fact stores: one byte, from `0x80` to `0xC0`.
pub open spec fn is_stored_variable(k: Seq<u8>) -> bool {
    k.len() == 1 && 0x80 <= k[0] <= 0xC0
}

/// Some candidate has the bytes `k`: a value its own, and a wildcard its one byte.
pub open spec fn offers(cands: Seq<Cand>, k: Seq<u8>) -> bool {
    exists|i: int|
        0 <= i < cands.len() && match #[trigger] cands[i] {
            Cand::Ground(g) => g@ == k && !is_stored_variable(k),
            Cand::Wild(b) => k == seq![b] && is_stored_variable(k),
        }
}

/// The candidates for a value are that value and the stored variables, as far as the column has
/// them. The candidates for a free variable are all the column's terms that a walk comes to.
pub proof fn lemma_offers<Z: Zipper>(cur: &mut SubtermCursor<Z>, vb: &Resolved, cands: Vec<Cand>)
    requires
        call_ensures(candidates::<Z>, (cur, vb), cands),
    ensures
        match *vb {
            Resolved::Ground(g) => forall|k: Seq<u8>| #[trigger]
                offers(cands@, k) <==> is_term_at(old(cur).paths(), old(cur).floor(), k) && (k
                    == g@ || is_stored_variable(k)),
            Resolved::Var(_) => forall|k: Seq<u8>| #[trigger]
                offers(cands@, k) <==> comes_to(old(cur).paths(), old(cur).floor(), k),
        },
        final(cur).paths() == old(cur).paths(),
        final(cur).floor() == old(cur).floor(),
{
    let paths = old(cur).paths();
    let floor = old(cur).floor();
    assert forall|k: Seq<u8>| #[trigger]
        offers(cands@, k) == is_candidate(old(cur).branch(), *vb, k) by {
        lemma_offered(cands@, k);
        assert(offered(cands@, k) == is_candidate(old(cur).branch(), *vb, k));
    }
    match *vb {
        Resolved::Ground(g) => {},
        Resolved::Var(_) => {
            assert forall|k: Seq<u8>| #[trigger]
                offers(cands@, k) <==> comes_to(paths, floor, k) by {
                lemma_comes_to(paths, floor, k);
            }
        },
    }
}

proof fn lemma_offered(cands: Seq<Cand>, k: Seq<u8>)
    requires
        cands_ok(cands),
    ensures
        offers(cands, k) == offered(cands, k),
{
    if offers(cands, k) {
        let i = choose|i: int|
            0 <= i < cands.len() && match #[trigger] cands[i] {
                Cand::Ground(g) => g@ == k && !is_stored_variable(k),
                Cand::Wild(b) => k == seq![b] && is_stored_variable(k),
            };
        assert(cands[i]@ == k);
    }
    if offered(cands, k) {
        let i = choose|i: int| 0 <= i < cands.len() && (#[trigger] cands[i])@ == k;
        assert(cands[i].wf());
    }
}

/// Which of two candidates comes first: a value that was sought comes before the wildcards, and
/// otherwise they are in ascending order.
pub proof fn lemma_offers_order<Z: Zipper>(
    cur: &mut SubtermCursor<Z>,
    vb: &Resolved,
    cands: Vec<Cand>,
    i: int,
    j: int,
)
    requires
        call_ensures(candidates::<Z>, (cur, vb), cands),
        match *vb {
            Resolved::Ground(g) => !is_stored_variable(g@),
            Resolved::Var(_) => true,
        },
        0 <= i < j < cands@.len(),
    ensures
        match (*vb, cands@[i], cands@[j]) {
            (_, Cand::Wild(a), Cand::Wild(b)) => a < b,
            (Resolved::Ground(g), Cand::Ground(_), other) => i == 0 && other is Wild,
            (Resolved::Ground(_), Cand::Wild(_), other) => other is Wild,
            (Resolved::Var(_), a, b) => lt(a@, b@),
        },
{
    assert(cands@[i].wf() && cands@[j].wf());
    let a = cands@[i]@;
    let b = cands@[j]@;
    if cands@[i] is Wild && cands@[j] is Wild {
        assert(lt(a, b));
        let n = choose|n: int| crate::order::diverges(a, b, n);
        assert(n == 0);
    }
}

/// A stored variable is told by its one byte.
pub proof fn lemma_wildcard_byte(k: &[u8], r: bool)
    requires
        call_ensures(is_wildcard_byte, (k,), r),
    ensures
        r == is_stored_variable(k@),
{
}

/// The count of a column's terms is how many a walk comes to, or the cap if there are more.
pub proof fn lemma_count<Z: Zipper>(cur: &mut SubtermCursor<Z>, cap: usize, n: usize)
    requires
        call_ensures(count_subterms::<Z>, (cur, cap), n),
    ensures
        ({
            let all = Set::new(|k: Seq<u8>| comes_to(old(cur).paths(), old(cur).floor(), k));
            all.finite() && n == (if all.len() < cap {
                all.len() as int
            } else {
                cap as int
            })
        }),
{
    let paths = old(cur).paths();
    let floor = old(cur).floor();
    let all = Set::new(|k: Seq<u8>| comes_to(paths, floor, k));
    assert forall|k: Seq<u8>| all.contains(k) == visible(old(cur).branch()).contains(k) by {
        lemma_comes_to(paths, floor, k);
    }
    assert(all =~= visible(old(cur).branch()));
}

/// The least byte of a mask that is at least `k`, by the mask's bits: byte `b` is bit `b % 64` of
/// word `b / 64`.
pub proof fn lemma_least_bit(mask: &ByteMask, k: u8, r: Option<u8>)
    requires
        call_ensures(least_ge, (mask, k), r),
    ensures
        match r {
            Some(b) => {
                &&& k <= b
                &&& (mask.0@[(b / 64) as int] >> ((b % 64) as u64)) & 1u64 == 1u64
                &&& forall|c: u8|
                    k <= c < b ==> (mask.0@[(#[trigger] (c / 64)) as int] >> ((c % 64) as u64)) & 1u64
                        != 1u64
            },
            None => forall|c: u8|
                k <= c ==> (mask.0@[(#[trigger] (c / 64)) as int] >> ((c % 64) as u64)) & 1u64
                    != 1u64,
        },
{
    assert forall|c: u8| #[trigger] mask@.contains(c) == ((mask.0@[(c / 64) as int] >> ((c
        % 64) as u64)) & 1u64 == 1u64) by {}
    match r {
        Some(b) => {
            assert(mask@.contains(b));
            assert forall|c: u8| k <= c < b implies (mask.0@[(#[trigger] (c / 64)) as int] >> ((c
                % 64) as u64)) & 1u64 != 1u64 by {
                assert(!mask@.contains(c));
            }
        },
        None => {
            let low = Set::new(|c: u8| c < k);
            assert(mask@.subset_of(low));
            assert forall|c: u8| k <= c implies (mask.0@[(#[trigger] (c / 64)) as int] >> ((c
                % 64) as u64)) & 1u64 != 1u64 by {
                assert(mask@.contains(c) ==> low.contains(c));
            }
        },
    }
}

/// A byte is in a mask when its bit is set.
pub proof fn lemma_mask_bit(mask: &ByteMask, b: u8, r: bool)
    requires
        call_ensures(has_bit, (mask, b), r),
    ensures
        r == ((mask.0@[(b / 64) as int] >> ((b % 64) as u64)) & 1u64 == 1u64),
{
}


/// A cursor can be built over any trie, and moved wherever it stands. It starts at no term, below the
/// path that the zipper stands at.
pub proof fn lemma_cursor_starts<Z: Zipper>(z: Z, c: SubtermCursor<Z>)
    requires
        z.paths().finite(),
        forall|a: Seq<u8>, p: Seq<u8>| #[trigger]
            z.paths().contains(p) && #[trigger] a.is_prefix_of(p) ==> z.paths().contains(a),
        z.root().is_prefix_of(z.focus()),
        call_ensures(SubtermCursor::<Z>::new, (z,), c),
    ensures
        call_requires(SubtermCursor::<Z>::new, (z,)),
        c.paths() == z.paths(),
        c.floor() == z.focus(),
        c.current() is None,
        c.wf(),
{
    lemma_prefix_plain(z.root(), z.focus());
    assert forall|a: Seq<u8>, p: Seq<u8>| #[trigger]
        z.paths().contains(p) && #[trigger] is_prefix(a, p) implies z.paths().contains(a) by {
        lemma_prefix_plain(a, p);
    }
}

/// A cursor says the term that it stands at, and whether it stands at none.
pub proof fn lemma_cursor_key<Z: Zipper>(c: SubtermCursor<Z>, k: Option<&[u8]>, end: bool)
    requires
        call_ensures(SubtermCursor::<Z>::key, (&c,), k),
        call_ensures(SubtermCursor::<Z>::at_end, (&c,), end),
    ensures
        end == (k is None),
        match k {
            Some(bytes) => c.current() == Some(bytes@),
            None => c.current() is None,
        },
{
}


} // verus!
