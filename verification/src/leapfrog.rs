//! Leapfrog intersection of subterm cursors.

use vstd::prelude::*;
use crate::cursor::{
    after, anywhere, at_least, is_subterm, is_visible, lemma_visible_lands, SubtermCursor,
};
use crate::factor::{is_clear, lemma_clear_visible};
use crate::order::{bytes_eq, bytes_lt, le, lemma_lt_total, lemma_lt_trans, lt, to_vec};
use crate::term::{is_term, lemma_prefix_free};
use crate::trie::Zipper;

verus! {

/// The strings are strictly ascending.
pub open spec fn strictly_ascending(vals: Seq<Vec<u8>>) -> bool {
    forall|i: int, j: int|
        #![trigger vals[i], vals[j]]
        0 <= i < j < vals.len() ==> lt(vals[i]@, vals[j]@)
}

/// `k` is one of the strings.
pub open spec fn listed(vals: Seq<Vec<u8>>, k: Seq<u8>) -> bool {
    exists|i: int| 0 <= i < vals.len() && (#[trigger] vals[i])@ == k
}

/// `k` is a subterm of every cursor's branch.
pub open spec fn is_common<Z: Zipper>(cursors: Seq<SubtermCursor<Z>>, k: Seq<u8>) -> bool {
    forall|c: int| 0 <= c < cursors.len() ==> is_subterm((#[trigger] cursors[c]).branch(), k)
}

/// Every cursor is well-formed.
pub open spec fn cursors_wf<Z: Zipper>(cursors: Seq<SubtermCursor<Z>>) -> bool {
    forall|c: int| 0 <= c < cursors.len() ==> (#[trigger] cursors[c]).wf()
}

/// Every cursor's branch is clear.
pub open spec fn all_clear<Z: Zipper>(cursors: Seq<SubtermCursor<Z>>) -> bool {
    forall|c: int| 0 <= c < cursors.len() ==> is_clear((#[trigger] cursors[c]).branch())
}

/// `k` is a subterm of every cursor's branch, before the first dead end in each.
pub open spec fn all_visible<Z: Zipper>(cursors: Seq<SubtermCursor<Z>>, k: Seq<u8>) -> bool {
    forall|c: int| 0 <= c < cursors.len() ==> is_visible((#[trigger] cursors[c]).branch(), k)
}

/// In clear branches all that is common is visible.
pub proof fn lemma_clear_common<Z: Zipper>(cursors: Seq<SubtermCursor<Z>>, k: Seq<u8>)
    requires
        all_clear(cursors),
    ensures
        all_visible(cursors, k) == is_common(cursors, k),
{
    if all_visible(cursors, k) {
        assert forall|c: int| 0 <= c < cursors.len() implies is_subterm(
            (#[trigger] cursors[c]).branch(),
            k,
        ) by {
            assert(is_visible(cursors[c].branch(), k));
        }
    }
    if is_common(cursors, k) {
        assert forall|c: int| 0 <= c < cursors.len() implies is_visible(
            (#[trigger] cursors[c]).branch(),
            k,
        ) by {
            assert(is_clear(cursors[c].branch()));
            lemma_clear_visible(cursors[c].branch());
            assert(is_subterm(cursors[c].branch(), k));
        }
    }
}

/// The same cursors, whatever their positions.
pub open spec fn same_floors<Z: Zipper>(
    a: Seq<SubtermCursor<Z>>,
    b: Seq<SubtermCursor<Z>>,
) -> bool {
    a.len() == b.len() && forall|c: int| 0 <= c < a.len() ==> (#[trigger] a[c]).same_floor(&b[c])
}

/// All that branches from some cursor.
spec fn all_branches<Z: Zipper>(cursors: Seq<SubtermCursor<Z>>) -> Set<Seq<u8>>
    decreases cursors.len(),
{
    if cursors.len() == 0 {
        Set::empty()
    } else {
        all_branches(cursors.drop_last()).union(cursors.last().branch())
    }
}

proof fn lemma_all_branches<Z: Zipper>(cursors: Seq<SubtermCursor<Z>>)
    requires
        cursors_wf(cursors),
    ensures
        all_branches(cursors).finite(),
        forall|c: int, w: Seq<u8>|
            0 <= c < cursors.len() && #[trigger] cursors[c].branch().contains(w) ==> all_branches(
                cursors,
            ).contains(w),
    decreases cursors.len(),
{
    if cursors.len() > 0 {
        let rest = cursors.drop_last();
        assert forall|c: int| 0 <= c < rest.len() implies (#[trigger] rest[c]).wf() by {
            assert(rest[c] == cursors[c]);
        }
        lemma_all_branches(rest);
        assert(cursors[cursors.len() - 1].wf());
        cursors.last().lemma_branch();
        assert forall|c: int, w: Seq<u8>|
            0 <= c < cursors.len() && #[trigger] cursors[c].branch().contains(
                w,
            ) implies all_branches(cursors).contains(w) by {
            if c < rest.len() {
                assert(rest[c].branch().contains(w));
            }
        }
    }
}

/// The greatest of the cursors' current subterms.
fn greatest_key<Z: Zipper>(cursors: &Vec<SubtermCursor<Z>>) -> (max: Vec<u8>)
    requires
        cursors@.len() > 0,
        forall|c: int|
            0 <= c < cursors@.len() ==> (#[trigger] cursors@[c]).wf() && cursors@[c].current() is Some,
    ensures
        forall|c: int| 0 <= c < cursors@.len() ==> le((#[trigger] cursors@[c]).current()->0, max@),
        exists|c: int| 0 <= c < cursors@.len() && (#[trigger] cursors@[c]).current()->0 == max@,
{
    let mut best: usize = 0;
    let mut i: usize = 1;
    while i < cursors.len()
        invariant
            forall|c: int|
                0 <= c < cursors@.len() ==> (#[trigger] cursors@[c]).wf()
                    && cursors@[c].current() is Some,
            best < i <= cursors@.len(),
            forall|c: int|
                0 <= c < i ==> le(
                    (#[trigger] cursors@[c]).current()->0,
                    cursors@[best as int].current()->0,
                ),
        decreases cursors@.len() - i,
    {
        if let (Some(a), Some(b)) = (cursors[best].key(), cursors[i].key()) {
            if bytes_lt(a, b) {
                proof {
                    assert forall|c: int| 0 <= c < i + 1 implies le(
                        (#[trigger] cursors@[c]).current()->0,
                        b@,
                    ) by {
                        if c < i && cursors@[c].current()->0 != a@ {
                            lemma_lt_trans(cursors@[c].current()->0, a@, b@);
                        }
                    }
                }
                best = i;
            } else {
                proof {
                    lemma_lt_total(a@, b@);
                }
            }
        }
        i += 1;
    }
    match cursors[best].key() {
        Some(k) => to_vec(k),
        None => Vec::new(),
    }
}

/// What is left to find lies at or after every cursor.
spec fn rest_ahead<Z: Zipper>(cursors: Seq<SubtermCursor<Z>>, out: Seq<Vec<u8>>) -> bool {
    forall|k: Seq<u8>, c: int|
        #![trigger all_visible(cursors, k), cursors[c]]
        all_visible(cursors, k) && !listed(out, k) && 0 <= c < cursors.len() ==> le(
            cursors[c].current()->0,
            k,
        )
}

/// Leapfrog intersection of several subterm cursors: the subterms present in all of them, in
/// ascending order. Each round seeks every cursor to the greatest current key; when they all agree,
/// that key is in the intersection, and one cursor steps past it. A dead end in some branch may end
/// the search, but not before what lies before it in every branch.
pub fn intersect<Z: Zipper>(cursors: &mut Vec<SubtermCursor<Z>>) -> (out: Vec<Vec<u8>>)
    requires
        cursors_wf(old(cursors)@),
    ensures
        cursors_wf(final(cursors)@),
        same_floors(final(cursors)@, old(cursors)@),
        strictly_ascending(out@),
        forall|k: Seq<u8>| #[trigger]
            listed(out@, k) ==> old(cursors)@.len() > 0 && is_common(old(cursors)@, k),
        old(cursors)@.len() > 0 ==> forall|k: Seq<u8>| #[trigger]
            all_visible(old(cursors)@, k) ==> listed(out@, k),
{
    let mut out: Vec<Vec<u8>> = Vec::new();
    if cursors.len() == 0 {
        return out;
    }
    let ghost start = cursors@;
    let mut i: usize = 0;
    while i < cursors.len()
        invariant
            i <= cursors@.len(),
            out@.len() == 0,
            start.len() > 0,
            start == old(cursors)@,
            cursors_wf(cursors@),
            same_floors(cursors@, start),
            forall|c: int|
                0 <= c < i ==> (#[trigger] cursors@[c]).current() is Some && is_subterm(
                    cursors@[c].branch(),
                    cursors@[c].current()->0,
                ),
            forall|c: int, k: Seq<u8>|
                #![trigger cursors@[c], all_visible(start, k)]
                0 <= c < i && all_visible(start, k) ==> le(cursors@[c].current()->0, k),
        decreases cursors@.len() - i,
    {
        let ghost prev = cursors@;
        cursors[i].first();
        proof {
            assert(prev[i as int].wf());
            lemma_visible_lands(
                cursors@[i as int].branch(),
                anywhere(),
                cursors@[i as int].current(),
            );
            assert forall|k: Seq<u8>| all_visible(start, k) implies #[trigger] is_visible(
                cursors@[i as int].branch(),
                k,
            ) by {
                assert(is_visible(start[i as int].branch(), k));
            }
        }
        if cursors[i].at_end() {
            proof {
                assert forall|k: Seq<u8>| !all_visible(start, k) by {
                    if all_visible(start, k) {
                        assert(is_visible(cursors@[i as int].branch(), k));
                    }
                }
            }
            return out;
        }
        i += 1;
    }
    proof {
        lemma_all_branches(start);
        assert(rest_ahead(cursors@, out@)) by {
            assert forall|k: Seq<u8>, c: int|
                #![trigger all_visible(cursors@, k), cursors@[c]]
                all_visible(cursors@, k) && !listed(out@, k) && 0 <= c < cursors@.len() implies le(
                cursors@[c].current()->0,
                k,
            ) by {
                lemma_common_same(start, cursors@, k);
            }
        }
    }
    let ghost all = all_branches(start);
    let ghost mut seen: Set<Seq<u8>> = Set::empty();
    loop
        invariant
            start.len() > 0,
            start == old(cursors)@,
            all == all_branches(start),
            all.finite(),
            forall|c: int, w: Seq<u8>|
                0 <= c < start.len() && #[trigger] start[c].branch().contains(w) ==> all.contains(w),
            cursors_wf(cursors@),
            same_floors(cursors@, start),
            forall|c: int| 0 <= c < cursors@.len() ==> (#[trigger] cursors@[c]).current() is Some,
            forall|c: int|
                0 <= c < cursors@.len() ==> is_subterm(
                    (#[trigger] cursors@[c]).branch(),
                    cursors@[c].current()->0,
                ),
            rest_ahead(cursors@, out@),
            strictly_ascending(out@),
            forall|k: Seq<u8>| #[trigger] listed(out@, k) ==> is_common(start, k),
            forall|j: int| 0 <= j < out@.len() ==> lt((#[trigger] out@[j])@, cursors@[0].current()->0),
            forall|s: Seq<u8>| #[trigger]
                seen.contains(s) ==> exists|c: int|
                    0 <= c < cursors@.len() && lt(s, (#[trigger] cursors@[c]).current()->0),
        decreases all.difference(seen).len(),
    {
        let max = greatest_key(cursors);
        let ghost round = cursors@;
        let ghost seen0 = seen;
        proof {
            let c = choose|c: int| 0 <= c < round.len() && (#[trigger] round[c]).current()->0 == max@;
            assert(round[c].branch() == start[c].branch());
            assert(start[c].branch().contains(max@));
            assert(all.contains(max@));
            if seen.contains(max@) {
                let e = choose|e: int|
                    0 <= e < round.len() && lt(max@, (#[trigger] round[e]).current()->0);
                lemma_lt_total(max@, round[e].current()->0);
            }
            seen = seen.insert(max@);
            assert(all.difference(seen) =~= all.difference(seen0).remove(max@));
            assert(is_term(max@));
            assert forall|k: Seq<u8>| all_visible(start, k) && !listed(out@, k) implies #[trigger] le(
                max@,
                k,
            ) by {
                lemma_common_same(start, round, k);
                assert(le(round[c].current()->0, k));
            }
        }
        let mut all_match = true;
        let ghost mut past: int = 0;
        proof {
            assert forall|j: int| 0 <= j < out@.len() implies lt((#[trigger] out@[j])@, max@) by {
                assert(le(round[0].current()->0, max@));
                if round[0].current()->0 != max@ {
                    lemma_lt_trans(out@[j]@, round[0].current()->0, max@);
                }
            }
        }
        let mut i: usize = 0;
        while i < cursors.len()
            invariant
                i <= cursors@.len(),
                start.len() > 0,
                start == old(cursors)@,
                is_term(max@),
                cursors_wf(cursors@),
                same_floors(cursors@, start),
                forall|c: int| 0 <= c < cursors@.len() ==> (#[trigger] cursors@[c]).current() is Some,
                forall|c: int|
                    0 <= c < cursors@.len() ==> is_subterm(
                        (#[trigger] cursors@[c]).branch(),
                        cursors@[c].current()->0,
                    ),
                forall|c: int|
                    i <= c < cursors@.len() ==> le((#[trigger] cursors@[c]).current()->0, max@),
                forall|c: int| 0 <= c < i ==> le(max@, (#[trigger] cursors@[c]).current()->0),
                forall|c: int, k: Seq<u8>|
                    #![trigger cursors@[c], all_visible(start, k)]
                    0 <= c < i && all_visible(start, k) && !listed(out@, k) ==> le(
                        cursors@[c].current()->0,
                        k,
                    ),
                forall|k: Seq<u8>|
                    all_visible(start, k) && !listed(out@, k) ==> #[trigger] le(max@, k),
                strictly_ascending(out@),
                forall|k: Seq<u8>| #[trigger] listed(out@, k) ==> is_common(start, k),
                forall|j: int| 0 <= j < out@.len() ==> lt((#[trigger] out@[j])@, max@),
                all_match ==> forall|c: int|
                    0 <= c < i ==> (#[trigger] cursors@[c]).current()->0 == max@,
                !all_match ==> 0 <= past < i && lt(max@, cursors@[past].current()->0),
            decreases cursors@.len() - i,
        {
            let same = match cursors[i].key() {
                Some(k) => bytes_eq(k, &max),
                None => false,
            };
            if !same {
                let ghost prev = cursors@;
                cursors[i].seek(&max);
                proof {
                    assert(prev[i as int].wf());
                    lemma_visible_lands(
                        cursors@[i as int].branch(),
                        at_least(max@),
                        cursors@[i as int].current(),
                    );
                    assert forall|k: Seq<u8>| all_visible(start, k) && !listed(out@, k) implies at_least(
                        max@,
                    )(k) && #[trigger] is_visible(cursors@[i as int].branch(), k) by {
                        assert(is_visible(start[i as int].branch(), k));
                        assert(le(max@, k));
                        lemma_lt_total(max@, k);
                    }
                }
                if cursors[i].at_end() {
                    proof {
                        assert forall|k: Seq<u8>| all_visible(start, k) implies #[trigger] listed(out@, k) by {
                            if !listed(out@, k) {
                                assert(is_visible(cursors@[i as int].branch(), k));
                            }
                        }
                    }
                    return out;
                }
                proof {
                    let now = cursors@[i as int].current()->0;
                    lemma_sought(max@, now);
                }
                let reached = match cursors[i].key() {
                    Some(k) => bytes_eq(k, &max),
                    None => false,
                };
                if !reached {
                    all_match = false;
                    proof {
                        past = i as int;
                    }
                }
            } else {
                proof {
                    assert forall|k: Seq<u8>| all_visible(start, k) && !listed(out@, k) implies le(
                        cursors@[i as int].current()->0,
                        k,
                    ) by {
                        assert(le(max@, k));
                    }
                }
            }
            i += 1;
        }
        proof {
            assert forall|k: Seq<u8>| all_visible(cursors@, k) == all_visible(start, k) by {
                lemma_common_same(start, cursors@, k);
            }
        }
        if all_match {
            let ghost out0 = out@;
            let ghost prev = cursors@;
            out.push(max);
            cursors[0].next();
            proof {
                assert(prev[0].current()->0 == max@);
                lemma_visible_lands(cursors@[0].branch(), after(max@), cursors@[0].current());
                assert(is_common(start, max@)) by {
                    assert forall|c: int| 0 <= c < start.len() implies is_subterm(
                        (#[trigger] start[c]).branch(),
                        max@,
                    ) by {
                        assert(prev[c].current()->0 == max@);
                    }
                }
                assert forall|k: Seq<u8>| #[trigger] listed(out@, k) == (listed(out0, k) || k
                    == max@) by {
                    if listed(out@, k) {
                        let j = choose|j: int| 0 <= j < out@.len() && (#[trigger] out@[j])@ == k;
                        if j < out0.len() {
                            assert(out0[j]@ == k);
                        }
                    }
                    if listed(out0, k) {
                        let j = choose|j: int| 0 <= j < out0.len() && (#[trigger] out0[j])@ == k;
                        assert(out@[j]@ == k);
                    }
                    assert(out@[out0.len() as int]@ == max@);
                }
                assert forall|k: Seq<u8>| all_visible(start, k) && !listed(out@, k) implies lt(
                    max@,
                    k,
                ) && #[trigger] is_visible(cursors@[0].branch(), k) by {
                    assert(le(max@, k));
                    assert(is_visible(start[0].branch(), k));
                }
            }
            if cursors[0].at_end() {
                proof {
                    assert forall|k: Seq<u8>| all_visible(start, k) implies #[trigger] listed(out@, k) by {
                        if !listed(out@, k) {
                            assert(is_visible(cursors@[0].branch(), k));
                        }
                    }
                }
                return out;
            }
            proof {
                assert forall|k: Seq<u8>, c: int|
                    #![trigger all_visible(cursors@, k), cursors@[c]]
                    all_visible(cursors@, k) && !listed(out@, k) && 0 <= c < cursors@.len() implies le(
                    cursors@[c].current()->0,
                    k,
                ) by {
                    lemma_common_same(start, cursors@, k);
                    assert(is_visible(cursors@[0].branch(), k));
                    if c > 0 {
                        assert(cursors@[c] == prev[c]);
                    }
                }
                assert forall|j: int| 0 <= j < out@.len() implies lt(
                    (#[trigger] out@[j])@,
                    cursors@[0].current()->0,
                ) by {
                    if j < out0.len() {
                        assert(out0[j] == out@[j]);
                        lemma_lt_trans(out0[j]@, max@, cursors@[0].current()->0);
                    }
                }
            }
        }
        proof {
            if !all_match {
                assert forall|k: Seq<u8>, c: int|
                    #![trigger all_visible(cursors@, k), cursors@[c]]
                    all_visible(cursors@, k) && !listed(out@, k) && 0 <= c < cursors@.len() implies le(
                    cursors@[c].current()->0,
                    k,
                ) by {
                    lemma_common_same(start, cursors@, k);
                }
                assert forall|j: int| 0 <= j < out@.len() implies lt(
                    (#[trigger] out@[j])@,
                    cursors@[0].current()->0,
                ) by {
                    assert(le(max@, cursors@[0].current()->0));
                    if cursors@[0].current()->0 != max@ {
                        lemma_lt_trans(out@[j]@, max@, cursors@[0].current()->0);
                    }
                }
            }
            assert forall|s: Seq<u8>| #[trigger] seen.contains(s) implies exists|c: int|
                0 <= c < cursors@.len() && lt(s, (#[trigger] cursors@[c]).current()->0) by {
                let c = if all_match {
                    0
                } else {
                    past
                };
                assert(lt(max@, cursors@[c].current()->0));
                if s != max@ {
                    let e = choose|e: int|
                        0 <= e < round.len() && lt(s, (#[trigger] round[e]).current()->0);
                    assert(le(round[e].current()->0, max@));
                    if round[e].current()->0 != max@ {
                        lemma_lt_trans(s, round[e].current()->0, max@);
                    }
                    lemma_lt_trans(s, max@, cursors@[c].current()->0);
                }
            }
        }
    }
}

proof fn lemma_common_same<Z: Zipper>(
    a: Seq<SubtermCursor<Z>>,
    b: Seq<SubtermCursor<Z>>,
    k: Seq<u8>,
)
    requires
        same_floors(b, a),
    ensures
        is_common(a, k) == is_common(b, k),
        all_visible(a, k) == all_visible(b, k),
{
    if all_visible(a, k) {
        assert forall|c: int| 0 <= c < b.len() implies is_visible((#[trigger] b[c]).branch(), k) by {
            assert(is_visible(a[c].branch(), k));
        }
    }
    if all_visible(b, k) {
        assert forall|c: int| 0 <= c < a.len() implies is_visible((#[trigger] a[c]).branch(), k) by {
            assert(is_visible(b[c].branch(), k));
        }
    }
    if is_common(a, k) {
        assert forall|c: int| 0 <= c < b.len() implies is_subterm((#[trigger] b[c]).branch(), k) by {
            assert(is_subterm(a[c].branch(), k));
        }
    }
    if is_common(b, k) {
        assert forall|c: int| 0 <= c < a.len() implies is_subterm((#[trigger] a[c]).branch(), k) by {
            assert(is_subterm(b[c].branch(), k));
        }
    }
}

/// A search for a complete subterm lands at it or after it.
proof fn lemma_sought(target: Seq<u8>, k: Seq<u8>)
    requires
        is_term(target),
        is_term(k),
        at_least(target)(k),
    ensures
        le(target, k),
{
    lemma_lt_total(target, k);
    if lt(k, target) {
        lemma_prefix_free(1, k, target);
    }
}

} // verus!
