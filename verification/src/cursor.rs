//! A cursor over the complete subterms that branch from a zipper's focus.

use vstd::prelude::*;
use crate::mask::{has_bit, least_ge, ByteMask};
use crate::order::{
    before, diverges, is_prefix, lemma_before_exclusive, lemma_before_extend, lemma_lt_total,
    lemma_prefix_of_prefix, lemma_prefix_refl, lemma_prefixes_comparable, lemma_trichotomy, lt,
};
use crate::term::{holds, is_complete, is_term, lemma_open_prefix};
use crate::trie::{below, is_placed, is_trie, prefix_closed, Zipper};

verus! {

/// `k` can be walked to in `branch`: it is there, and no proper prefix of it is complete.
pub open spec fn is_reached(branch: Set<Seq<u8>>, k: Seq<u8>) -> bool {
    k.len() > 0 ==> branch.contains(k) && !holds(1, k.drop_last())
}

/// `branch` goes on from `k`.
pub open spec fn has_child(branch: Set<Seq<u8>>, k: Seq<u8>) -> bool {
    exists|b: u8| branch.contains(#[trigger] k.push(b))
}

/// `k` is a complete subterm of `branch`.
pub open spec fn is_subterm(branch: Set<Seq<u8>>, k: Seq<u8>) -> bool {
    is_term(k) && branch.contains(k)
}

/// `branch` ends at `k` in the middle of a subterm. A trie of well-formed terms has no dead end.
pub open spec fn is_dead_end(branch: Set<Seq<u8>>, k: Seq<u8>) -> bool {
    is_reached(branch, k) && !holds(1, k) && !has_child(branch, k)
}

/// A walk down `branch` stops at `k`: at a complete subterm or at a dead end.
pub open spec fn is_stop(branch: Set<Seq<u8>>, k: Seq<u8>) -> bool {
    is_subterm(branch, k) || is_dead_end(branch, k)
}

/// Where a search of `branch` lands: at the least stop that `wanted` accepts. A search that meets a
/// dead end there, or no stop at all, lands nowhere.
pub open spec fn lands(
    branch: Set<Seq<u8>>,
    wanted: spec_fn(Seq<u8>) -> bool,
    at: Option<Seq<u8>>,
) -> bool {
    match at {
        Some(k) => {
            &&& is_subterm(branch, k)
            &&& wanted(k)
            &&& forall|s: Seq<u8>| #[trigger]
                is_stop(branch, s) && wanted(s) ==> s == k || lt(k, s)
        },
        None => forall|k: Seq<u8>| #[trigger]
            is_subterm(branch, k) && wanted(k) ==> exists|d: Seq<u8>| #[trigger]
                is_dead_end(branch, d) && wanted(d) && lt(d, k),
    }
}

/// A walk from `from` on comes to the subterm `k`: no dead end lies between them.
pub open spec fn is_shown(branch: Set<Seq<u8>>, from: Seq<u8>, k: Seq<u8>) -> bool {
    &&& is_subterm(branch, k)
    &&& !lt(k, from)
    &&& forall|d: Seq<u8>| #[trigger] is_dead_end(branch, d) && !lt(d, from) ==> !lt(d, k)
}

/// A walk of the whole branch comes to the subterm `k`: no dead end lies before it. In a clear branch
/// that is every subterm.
pub open spec fn is_visible(branch: Set<Seq<u8>>, k: Seq<u8>) -> bool {
    is_shown(branch, Seq::empty(), k)
}

/// Nothing comes before the empty string.
pub proof fn lemma_none_before(k: Seq<u8>)
    ensures
        !lt(k, Seq::empty()),
{
    let none = Seq::<u8>::empty();
    if k.len() == 0 {
        assert(k =~= none);
        lemma_lt_total(k, none);
    } else {
        assert(none =~= k.take(0));
        assert(is_prefix(none, k));
        lemma_lt_total(none, k);
    }
}

/// A search that some visible subterm would do for lands there, or before.
pub proof fn lemma_visible_lands(
    branch: Set<Seq<u8>>,
    wanted: spec_fn(Seq<u8>) -> bool,
    at: Option<Seq<u8>>,
)
    requires
        lands(branch, wanted, at),
    ensures
        forall|k: Seq<u8>| #[trigger]
            is_visible(branch, k) && wanted(k) ==> at is Some && (k == at->0 || lt(at->0, k)),
{
    assert forall|k: Seq<u8>| #[trigger] is_visible(branch, k) && wanted(k) implies at is Some && (k
        == at->0 || lt(at->0, k)) by {
        assert(is_stop(branch, k));
        if at is None {
            let d = choose|d: Seq<u8>| #[trigger] is_dead_end(branch, d) && wanted(d) && lt(d, k);
            lemma_none_before(d);
        }
    }
}

/// Any stop will do.
pub open spec fn anywhere() -> spec_fn(Seq<u8>) -> bool {
    |s: Seq<u8>| true
}

/// Stops after `key`.
pub open spec fn after(key: Seq<u8>) -> spec_fn(Seq<u8>) -> bool {
    |s: Seq<u8>| lt(key, s)
}

/// Stops at or after `target`, and a complete subterm that `target` starts with.
pub open spec fn at_least(target: Seq<u8>) -> spec_fn(Seq<u8>) -> bool {
    |s: Seq<u8>| !lt(s, target) || (is_term(s) && is_prefix(s, target))
}

pub proof fn lemma_below_closed(paths: Set<Seq<u8>>, floor: Seq<u8>)
    requires
        prefix_closed(paths),
    ensures
        prefix_closed(below(paths, floor)),
{
    let t = below(paths, floor);
    assert forall|a: Seq<u8>, p: Seq<u8>| #[trigger]
        t.contains(p) && #[trigger] is_prefix(a, p) implies t.contains(a) by {
        assert(floor + a =~= (floor + p).take((floor + a).len() as int));
        assert(is_prefix(floor + a, floor + p));
    }
}

/// A proper extension of `k` in a closed branch goes through a child of `k`.
proof fn lemma_child_on_way(t: Set<Seq<u8>>, k: Seq<u8>, s: Seq<u8>)
    requires
        prefix_closed(t),
        t.contains(s),
        is_prefix(k, s),
        k.len() < s.len(),
    ensures
        t.contains(k.push(s[k.len() as int])),
        is_prefix(k.push(s[k.len() as int]), s),
        has_child(t, k),
{
    let c = k.push(s[k.len() as int]);
    assert(c =~= s.take(c.len() as int));
    assert(is_prefix(c, s));
}

/// No stop is a proper prefix of another.
pub proof fn lemma_stops_apart(t: Set<Seq<u8>>, a: Seq<u8>, b: Seq<u8>)
    requires
        prefix_closed(t),
        is_stop(t, a),
        is_stop(t, b),
        is_prefix(a, b),
    ensures
        a == b,
{
    if a.len() < b.len() {
        lemma_open_prefix(1, a, b);
        lemma_child_on_way(t, a, b);
    } else {
        assert(a =~= b);
    }
}

/// The cursor. It is built at a zipper's focus (its floor) and walks the complete subterms that
/// branch from there in ascending order. `key` holds the bytes of the current subterm, so the
/// zipper always stands at the floor followed by the key.
pub struct SubtermCursor<Z> {
    z: Z,
    key: Vec<u8>,
    at_end: bool,
}

impl<Z: Zipper> SubtermCursor<Z> {
    /// The path that the cursor was built at.
    pub closed spec fn floor(&self) -> Seq<u8> {
        self.z.focus().take(self.z.focus().len() - self.key@.len())
    }

    /// The paths of the trie.
    pub closed spec fn paths(&self) -> Set<Seq<u8>> {
        self.z.paths()
    }

    /// What branches from the floor.
    pub open spec fn branch(&self) -> Set<Seq<u8>> {
        below(self.paths(), self.floor())
    }

    /// The subterm that the cursor stands at, or `None` when it is not at one.
    pub closed spec fn current(&self) -> Option<Seq<u8>> {
        if self.at_end {
            None
        } else {
            Some(self.key@)
        }
    }

    /// The zipper stands at the floor followed by the key, which was walked to.
    spec fn inv(&self) -> bool {
        &&& is_trie(self.z.paths())
        &&& self.z.focus().len() - self.key@.len() >= self.z.root().len()
        &&& self.z.focus() == self.floor() + self.key@
        &&& is_reached(self.branch(), self.key@)
    }

    /// The cursor is well-formed.
    pub closed spec fn wf(&self) -> bool {
        &&& self.inv()
        &&& !self.at_end ==> holds(1, self.key@)
    }

    /// The same floor in the same trie.
    pub open spec fn same_floor(&self, other: &Self) -> bool {
        self.paths() == other.paths() && self.floor() == other.floor()
    }

    /// What branches from the floor is finite and closed under prefixes.
    pub proof fn lemma_branch(&self)
        requires
            self.wf(),
        ensures
            self.branch().finite(),
            prefix_closed(self.branch()),
    {
        lemma_below_closed(self.paths(), self.floor());
        let floor = self.floor();
        let drop = |p: Seq<u8>| p.skip(floor.len() as int);
        self.paths().lemma_map_finite(drop);
        assert(self.branch().subset_of(self.paths().map(drop))) by {
            assert forall|w: Seq<u8>| self.branch().contains(w) implies self.paths().map(
                drop,
            ).contains(w) by {
                assert(drop(floor + w) =~= w);
                assert(self.paths().contains(floor + w));
            }
        }
        vstd::set_lib::lemma_set_subset_finite(self.paths().map(drop), self.branch());
    }

    /// Build a cursor at the zipper's current focus. It is not positioned until `first` or `seek`
    /// is called.
    pub fn new(z: Z) -> (c: Self)
        requires
            is_placed(&z),
        ensures
            c.wf(),
            c.paths() == z.paths(),
            c.floor() == z.focus(),
            c.current() is None,
    {
        let c = SubtermCursor { z, key: Vec::new(), at_end: true };
        assert(c.floor() =~= c.z.focus());
        assert(c.floor() + c.key@ =~= c.z.focus());
        c
    }

    /// The bytes by which the branch goes on from the key.
    fn children(&self) -> (mask: ByteMask)
        requires
            self.inv(),
        ensures
            forall|b: u8|
                #![trigger mask@.contains(b)]
                #![trigger self.key@.push(b)]
                mask@.contains(b) == self.branch().contains(self.key@.push(b)),
    {
        let mask = self.z.child_mask();
        assert forall|b: u8|
            #![trigger mask@.contains(b)]
            #![trigger self.key@.push(b)]
            mask@.contains(b) == self.branch().contains(self.key@.push(b)) by {
            assert(self.floor() + self.key@.push(b) =~= self.z.focus().push(b));
        }
        mask
    }

    /// Move down by one byte.
    fn descend(&mut self, b: u8)
        requires
            old(self).inv(),
            !holds(1, old(self).key@),
            old(self).branch().contains(old(self).key@.push(b)),
        ensures
            final(self).inv(),
            final(self).same_floor(old(self)),
            final(self).key@ == old(self).key@.push(b),
            final(self).at_end == old(self).at_end,
    {
        let ghost floor = self.floor();
        self.z.descend_to_byte(b);
        self.key.push(b);
        assert(self.floor() =~= floor);
        assert(self.z.focus() =~= self.floor() + self.key@);
        assert(self.key@.drop_last() =~= old(self).key@);
    }

    /// Move up by one byte, unless the key is empty.
    fn ascend(&mut self) -> (last: Option<u8>)
        requires
            old(self).inv(),
        ensures
            final(self).inv(),
            final(self).same_floor(old(self)),
            final(self).at_end == old(self).at_end,
            match last {
                Some(b) => {
                    &&& old(self).key@.len() > 0
                    &&& final(self).key@ == old(self).key@.drop_last()
                    &&& b == old(self).key@.last()
                },
                None => old(self).key@.len() == 0 && final(self).key@ == old(self).key@,
            },
    {
        let ghost floor = self.floor();
        let ghost key = self.key@;
        let ghost t = self.branch();
        match self.key.pop() {
            None => None,
            Some(last) => {
                proof {
                    lemma_below_closed(self.z.paths(), floor);
                }
                self.z.ascend_byte();
                assert(self.key@ =~= key.drop_last());
                assert(self.floor() =~= floor);
                assert(self.z.focus() =~= self.floor() + self.key@);
                proof {
                    if self.key@.len() > 0 {
                        assert(is_prefix(self.key@, key)) by {
                            assert(self.key@ =~= key.take(self.key@.len() as int));
                        }
                        assert(t.contains(self.key@));
                        assert(is_prefix(self.key@.drop_last(), key)) by {
                            assert(self.key@.drop_last() =~= key.take(self.key@.len() - 1));
                        }
                        lemma_open_prefix(1, self.key@.drop_last(), key);
                    }
                }
                Some(last)
            },
        }
    }

    /// Move back up to the floor, clearing the key.
    fn reset_to_floor(&mut self)
        requires
            old(self).inv(),
        ensures
            final(self).inv(),
            final(self).same_floor(old(self)),
            final(self).key@.len() == 0,
            final(self).at_end == false,
    {
        while self.ascend().is_some()
            invariant
                self.inv(),
                self.same_floor(old(self)),
            ensures
                self.key@.len() == 0,
            decreases self.key@.len(),
        {
        }
        self.at_end = false;
    }

    /// How many paths lie strictly below the key.
    spec fn depth_left(&self) -> nat {
        self.z.paths().filter(
            |p: Seq<u8>| is_prefix(self.z.focus(), p) && self.z.focus().len() < p.len(),
        ).len()
    }

    /// Descend the least child at each step until the key is a complete subterm. Returns false if
    /// a node runs out of children before that.
    fn complete_leftmost(&mut self) -> (complete: bool)
        requires
            old(self).inv(),
        ensures
            final(self).inv(),
            final(self).same_floor(old(self)),
            final(self).at_end == old(self).at_end,
            complete == holds(1, final(self).key@),
            is_prefix(old(self).key@, final(self).key@),
            is_stop(final(self).branch(), final(self).key@),
            forall|s: Seq<u8>| #[trigger]
                is_stop(final(self).branch(), s) && is_prefix(old(self).key@, s)
                    ==> s == final(self).key@ || before(final(self).key@, s),
    {
        let ghost key0 = self.key@;
        let ghost t = self.branch();
        proof {
            lemma_below_closed(self.z.paths(), self.floor());
            lemma_prefix_refl(key0);
        }
        while !is_complete(&self.key)
            invariant
                self.inv(),
                self.same_floor(old(self)),
                self.at_end == old(self).at_end,
                t == self.branch(),
                prefix_closed(t),
                key0 == old(self).key@,
                is_prefix(key0, self.key@),
                forall|s: Seq<u8>| #[trigger]
                    is_stop(t, s) && is_prefix(key0, s) ==> is_prefix(self.key@, s) || before(
                        self.key@,
                        s,
                    ),
            ensures
                holds(1, self.key@),
            decreases self.depth_left(),
        {
            let mask = self.children();
            let ghost key = self.key@;
            match least_ge(&mask, 0) {
                Some(b) => {
                    let ghost prev = *self;
                    self.descend(b);
                    proof {
                        assert(is_prefix(key, self.key@)) by {
                            assert(key =~= self.key@.take(key.len() as int));
                        }
                        lemma_prefix_of_prefix(key0, key, self.key@);
                        assert forall|s: Seq<u8>| #[trigger]
                            is_stop(t, s) && is_prefix(key0, s) implies is_prefix(self.key@, s)
                            || before(self.key@, s) by {
                            lemma_least_child(t, key, b, s);
                        }
                        prev.lemma_depth(self, b);
                    }
                },
                None => {
                    proof {
                        assert(!has_child(t, key));
                        assert forall|s: Seq<u8>| #[trigger]
                            is_stop(t, s) && is_prefix(key0, s) implies s == key || before(key, s) by {
                            if is_prefix(key, s) {
                                lemma_stops_apart(t, key, s);
                            }
                        }
                    }
                    return false;
                },
            }
        }
        proof {
            let key = self.key@;
            assert(is_subterm(t, key));
            assert forall|s: Seq<u8>| #[trigger] is_stop(t, s) && is_prefix(key0, s) implies s == key
                || before(key, s) by {
                if is_prefix(key, s) {
                    lemma_stops_apart(t, key, s);
                }
            }
        }
        true
    }

    /// Move to the first stop that comes after the key without extending it: ascend until a level
    /// offers a larger sibling, take the least such, then complete leftmost. Returns false if there
    /// is no such stop or if it is a dead end.
    fn backtrack_then_leftmost(&mut self) -> (found: bool)
        requires
            old(self).inv(),
        ensures
            final(self).inv(),
            final(self).same_floor(old(self)),
            final(self).at_end == old(self).at_end,
            found ==> is_subterm(final(self).branch(), final(self).key@),
            found ==> is_first_after(final(self).branch(), old(self).key@, final(self).key@),
            !found ==> is_first_after(final(self).branch(), old(self).key@, final(self).key@)
                && is_dead_end(final(self).branch(), final(self).key@) || forall|s: Seq<u8>|
                #[trigger] is_stop(final(self).branch(), s) ==> !before(old(self).key@, s),
    {
        let ghost key0 = self.key@;
        let ghost t = self.branch();
        proof {
            lemma_below_closed(self.z.paths(), self.floor());
            lemma_prefix_refl(key0);
        }
        loop
            invariant
                self.inv(),
                self.same_floor(old(self)),
                self.at_end == old(self).at_end,
                t == self.branch(),
                prefix_closed(t),
                key0 == old(self).key@,
                is_prefix(self.key@, key0),
                forall|s: Seq<u8>| #[trigger] is_stop(t, s) && before(key0, s) ==> before(self.key@, s),
            decreases self.key@.len(),
        {
            let ghost key = self.key@;
            let last = match self.ascend() {
                None => {
                    return false;
                },
                Some(last) => last,
            };
            let ghost up = self.key@;
            let mask = self.children();
            assert(is_prefix(up, key)) by {
                assert(up =~= key.take(up.len() as int));
            }
            proof {
                lemma_prefix_of_prefix(up, key, key0);
                if key.len() > 0 {
                    lemma_open_prefix(1, up, key);
                }
            }
            match mask.next_bit(last) {
                Some(b) => {
                    self.descend(b);
                    let ghost turn = self.key@;
                    proof {
                        assert(key.take(up.len() as int) =~= turn.take(up.len() as int));
                        assert(diverges(key, turn, up.len() as int));
                        assert(before(key, turn));
                        assert forall|s: Seq<u8>| #[trigger]
                            is_stop(t, s) && before(key0, s) implies is_prefix(turn, s) || before(
                            turn,
                            s,
                        ) by {
                            lemma_next_sibling(t, key, Some(b), s);
                        }
                    }
                    let found = self.complete_leftmost();
                    proof {
                        lemma_before_extend(key, turn, key0, self.key@);
                        lemma_prefix_refl(self.key@);
                        assert forall|s: Seq<u8>| #[trigger]
                            is_stop(t, s) && before(key0, s) implies s == self.key@ || before(
                            self.key@,
                            s,
                        ) by {
                            if !is_prefix(turn, s) {
                                lemma_prefix_refl(s);
                                lemma_before_extend(turn, s, self.key@, s);
                            }
                        }
                    }
                    return found;
                },
                None => {
                    proof {
                        assert forall|s: Seq<u8>| #[trigger]
                            is_stop(t, s) && before(key0, s) implies before(up, s) by {
                            lemma_next_sibling(t, key, None, s);
                        }
                    }
                },
            }
        }
    }

    /// Position at the least subterm.
    pub fn first(&mut self)
        requires
            old(self).wf(),
        ensures
            final(self).wf(),
            final(self).same_floor(old(self)),
            lands(final(self).branch(), anywhere(), final(self).current()),
    {
        self.reset_to_floor();
        let ghost t = self.branch();
        let ghost start = self.key@;
        if !self.complete_leftmost() {
            self.at_end = true;
        }
        proof {
            let key = self.key@;
            assert forall|s: Seq<u8>| #[trigger] is_stop(t, s) implies s == key || lt(key, s) by {
                assert(is_prefix(start, s)) by {
                    assert(s.take(0) =~= start);
                }
            }
            lemma_lands(t, anywhere(), key);
        }
    }

    /// Advance to the next subterm.
    pub fn next(&mut self)
        requires
            old(self).wf(),
        ensures
            final(self).wf(),
            final(self).same_floor(old(self)),
            match old(self).current() {
                Some(k) => lands(final(self).branch(), after(k), final(self).current()),
                None => final(self).current() is None,
            },
    {
        if self.at_end {
            return;
        }
        let ghost key0 = self.key@;
        let ghost t = self.branch();
        proof {
            lemma_below_closed(self.z.paths(), self.floor());
            assert(is_stop(t, key0));
        }
        if !self.backtrack_then_leftmost() {
            self.at_end = true;
        }
        proof {
            let key = self.key@;
            assert forall|s: Seq<u8>| #[trigger] is_stop(t, s) && lt(key0, s) implies before(
                key0,
                s,
            ) by {
                if is_prefix(key0, s) {
                    lemma_stops_apart(t, key0, s);
                }
            }
            assert forall|k: Seq<u8>| #[trigger] is_subterm(t, k) implies is_stop(t, k) by {}
            if is_first_after(t, key0, key) {
                lemma_lands(t, after(key0), key);
            }
        }
    }

    /// The bytes of the current subterm, or `None` when there is none.
    pub fn key(&self) -> (k: Option<&[u8]>)
        requires
            self.wf(),
        ensures
            match k {
                Some(bytes) => self.current() == Some(bytes@),
                None => self.current() is None,
            },
    {
        if self.at_end {
            None
        } else {
            Some(&self.key)
        }
    }

    /// Whether the cursor is at no subterm.
    pub fn at_end(&self) -> (r: bool)
        ensures
            r == (self.current() is None),
    {
        self.at_end
    }

    /// Position at the least subterm that is at least `target`, when `target` is itself a complete
    /// subterm. A longer `target` is cut off at the first complete subterm that it starts with.
    ///
    /// The walk follows `target` as long as the branch does. Where they part it takes the least
    /// larger child and completes leftmost or, when no larger child exists at that level,
    /// backtracks to an ancestor that offers one.
    pub fn seek(&mut self, target: &[u8])
        requires
            old(self).wf(),
        ensures
            final(self).wf(),
            final(self).same_floor(old(self)),
            lands(final(self).branch(), at_least(target@), final(self).current()),
    {
        self.reset_to_floor();
        let ghost t = self.branch();
        let ghost wanted = at_least(target@);
        let mut ti: usize = 0;
        proof {
            lemma_below_closed(self.z.paths(), self.floor());
            assert(self.key@ =~= target@.take(0));
        }
        loop
            invariant
                self.inv(),
                self.same_floor(old(self)),
                !self.at_end,
                t == self.branch(),
                prefix_closed(t),
                wanted == at_least(target@),
                ti <= target@.len(),
                self.key@ == target@.take(ti as int),
            decreases target@.len() - ti,
        {
            let ghost key = self.key@;
            assert(is_prefix(key, target@));
            if is_complete(&self.key) {
                proof {
                    assert(is_subterm(t, key));
                    assert forall|s: Seq<u8>| #[trigger] is_stop(t, s) && wanted(s) implies s == key
                        || lt(key, s) by {
                        lemma_wanted(t, target@, key, s);
                        if is_prefix(key, s) {
                            lemma_stops_apart(t, key, s);
                        }
                    }
                    lemma_lands(t, wanted, key);
                }
                return ;
            }
            let mask = self.children();
            if ti < target.len() {
                let b = target[ti];
                if has_bit(&mask, b) {
                    self.descend(b);
                    proof {
                        assert(self.key@ =~= target@.take(ti + 1));
                    }
                    ti += 1;
                    continue ;
                }
                match mask.next_bit(b) {
                    Some(c) => {
                        self.descend(c);
                        let ghost turn = self.key@;
                        if !self.complete_leftmost() {
                            self.at_end = true;
                        }
                        proof {
                            assert(target@.take(ti as int) =~= turn.take(ti as int));
                            assert(diverges(target@, turn, ti as int));
                            lemma_prefix_refl(target@);
                            lemma_before_extend(target@, turn, target@, self.key@);
                            lemma_wanted_after(target@, self.key@);
                            assert forall|s: Seq<u8>| #[trigger] is_stop(t, s) && wanted(s) implies s
                                == self.key@ || lt(self.key@, s) by {
                                lemma_wanted(t, target@, key, s);
                                lemma_prefix_refl(s);
                                if is_prefix(key, s) {
                                    let d = s[ti as int];
                                    assert(t.contains(key.push(d)));
                                    if d == c {
                                        assert(is_prefix(turn, s)) by {
                                            assert(turn =~= s.take(turn.len() as int));
                                        }
                                    } else {
                                        assert(turn.take(ti as int) =~= s.take(ti as int));
                                        assert(diverges(turn, s, ti as int));
                                        lemma_before_extend(turn, s, self.key@, s);
                                    }
                                } else {
                                    assert(is_prefix(key, turn)) by {
                                        assert(key =~= turn.take(key.len() as int));
                                    }
                                    lemma_prefix_of_prefix(key, turn, self.key@);
                                    lemma_before_extend(key, s, self.key@, s);
                                }
                            }
                            lemma_lands(t, wanted, self.key@);
                        }
                    },
                    None => {
                        if !self.backtrack_then_leftmost() {
                            self.at_end = true;
                        }
                        proof {
                            assert forall|s: Seq<u8>| #[trigger]
                                is_stop(t, s) && wanted(s) implies before(key, s) by {
                                lemma_wanted(t, target@, key, s);
                                if is_prefix(key, s) {
                                    assert(t.contains(key.push(s[ti as int])));
                                }
                            }
                            assert forall|k: Seq<u8>| #[trigger] is_subterm(t, k) implies is_stop(
                                t,
                                k,
                            ) by {}
                            if is_first_after(t, key, self.key@) {
                                lemma_prefix_refl(self.key@);
                                lemma_before_extend(key, self.key@, target@, self.key@);
                                lemma_wanted_after(target@, self.key@);
                                lemma_lands(t, wanted, self.key@);
                            }
                        }
                    },
                }
                return ;
            } else {
                if !self.complete_leftmost() {
                    self.at_end = true;
                }
                proof {
                    assert(key =~= target@);
                    lemma_wanted_after(target@, self.key@);
                    assert forall|s: Seq<u8>| #[trigger] is_stop(t, s) && wanted(s) implies s
                        == self.key@ || lt(self.key@, s) by {
                        lemma_wanted(t, target@, key, s);
                        if !is_prefix(key, s) {
                            lemma_prefix_refl(s);
                            lemma_before_extend(key, s, self.key@, s);
                        }
                    }
                    lemma_lands(t, wanted, self.key@);
                }
                return ;
            }
        }
    }

    /// Moving down to a path leaves fewer paths below.
    proof fn lemma_depth(&self, next: &Self, b: u8)
        requires
            is_trie(self.z.paths()),
            next.z.paths() == self.z.paths(),
            next.z.focus() == self.z.focus().push(b),
            self.z.paths().contains(next.z.focus()),
        ensures
            next.depth_left() < self.depth_left(),
    {
        let f = self.z.focus();
        let g = next.z.focus();
        let paths = self.z.paths();
        let big = paths.filter(|p: Seq<u8>| is_prefix(f, p) && f.len() < p.len());
        let small = paths.filter(|p: Seq<u8>| is_prefix(g, p) && g.len() < p.len());
        assert(is_prefix(f, g)) by {
            assert(f =~= g.take(f.len() as int));
        }
        assert(small.subset_of(big.remove(g))) by {
            assert forall|p: Seq<u8>| small.contains(p) implies big.remove(g).contains(p) by {
                lemma_prefix_of_prefix(f, g, p);
            }
        }
        assert(big.contains(g));
        vstd::set_lib::lemma_set_subset_finite(paths, big);
        vstd::set_lib::lemma_len_subset(small, big.remove(g));
    }
}

/// When `b` is the least child of `key`, every stop that comes at or after `key` comes at or after
/// the child.
proof fn lemma_least_child(t: Set<Seq<u8>>, key: Seq<u8>, b: u8, s: Seq<u8>)
    requires
        prefix_closed(t),
        t.contains(key.push(b)),
        !holds(1, key),
        forall|c: u8| #[trigger] t.contains(key.push(c)) ==> b <= c,
        is_stop(t, s),
        is_prefix(key, s) || before(key, s),
    ensures
        is_prefix(key.push(b), s) || before(key.push(b), s),
{
    let child = key.push(b);
    assert(is_prefix(key, child)) by {
        assert(key =~= child.take(key.len() as int));
    }
    if before(key, s) {
        lemma_prefix_refl(s);
        lemma_before_extend(key, s, child, s);
    } else {
        assert(has_child(t, key));
        if s.len() == key.len() {
            assert(s =~= key);
            assert(false);
        }
        lemma_child_on_way(t, key, s);
        let c = s[key.len() as int];
        if c != b {
            assert(t.contains(key.push(c)));
            assert(child.take(key.len() as int) =~= s.take(key.len() as int));
            assert(diverges(child, s, key.len() as int));
        }
    }
}

/// `k` is the first stop that comes after `key` without extending it.
pub open spec fn is_first_after(branch: Set<Seq<u8>>, key: Seq<u8>, k: Seq<u8>) -> bool {
    &&& is_stop(branch, k)
    &&& before(key, k)
    &&& forall|s: Seq<u8>| #[trigger] is_stop(branch, s) && before(key, s) ==> s == k || before(k, s)
}

/// Going from `key` to its next sibling `b`, or up when there is none, passes over no stop.
proof fn lemma_next_sibling(t: Set<Seq<u8>>, key: Seq<u8>, b: Option<u8>, s: Seq<u8>)
    requires
        prefix_closed(t),
        key.len() > 0,
        match b {
            Some(b) => key.last() < b && forall|c: u8|
                key.last() < c < b ==> !t.contains(#[trigger] key.drop_last().push(c)),
            None => forall|c: u8|
                key.last() < c ==> !t.contains(#[trigger] key.drop_last().push(c)),
        },
        is_stop(t, s),
        before(key, s),
    ensures
        match b {
            Some(b) => is_prefix(key.drop_last().push(b), s) || before(key.drop_last().push(b), s),
            None => before(key.drop_last(), s),
        },
{
    let up = key.drop_last();
    let n = up.len() as int;
    let i = choose|i: int| diverges(key, s, i);
    if i < n {
        assert(up.take(i) =~= s.take(i)) by {
            assert(up.take(i) =~= key.take(i));
        }
        assert(diverges(up, s, i));
        if b is Some {
            let turn = up.push(b->0);
            assert(is_prefix(up, turn)) by {
                assert(up =~= turn.take(n));
            }
            lemma_prefix_refl(s);
            lemma_before_extend(up, s, turn, s);
        }
    } else {
        let c = s[n];
        assert(up =~= s.take(n)) by {
            assert(up =~= key.take(n));
        }
        assert(is_prefix(up, s));
        lemma_child_on_way(t, up, s);
        assert(t.contains(up.push(c)));
        if b is Some {
            let turn = up.push(b->0);
            if c != b->0 {
                assert(turn.take(n) =~= s.take(n));
                assert(diverges(turn, s, n));
            }
        }
    }
}

/// A search lands at the least stop that it wants, unless that is a dead end.
proof fn lemma_lands(t: Set<Seq<u8>>, wanted: spec_fn(Seq<u8>) -> bool, key: Seq<u8>)
    requires
        is_stop(t, key),
        wanted(key),
        forall|s: Seq<u8>| #[trigger] is_stop(t, s) && wanted(s) ==> s == key || lt(key, s),
    ensures
        lands(
            t,
            wanted,
            if holds(1, key) {
                Some(key)
            } else {
                None
            },
        ),
{
    if !holds(1, key) {
        assert forall|k: Seq<u8>| #[trigger] is_subterm(t, k) && wanted(k) implies exists|d: Seq<u8>|
            #[trigger] is_dead_end(t, d) && wanted(d) && lt(d, k) by {
            assert(is_stop(t, k));
            assert(is_dead_end(t, key) && wanted(key) && lt(key, k));
        }
    }
}

/// What comes after `target`, or extends it, is wanted by a search for `target`.
proof fn lemma_wanted_after(target: Seq<u8>, k: Seq<u8>)
    requires
        before(target, k) || is_prefix(target, k),
    ensures
        at_least(target)(k),
{
    if before(target, k) {
        lemma_before_exclusive(target, k);
    } else if lt(k, target) {
        if before(k, target) {
            lemma_before_exclusive(k, target);
        }
    }
}

/// A search for `target` that has followed it to `key` has passed over no stop that it wants. A
/// wanted stop that extends `key` goes on with the next byte of `target` or a larger one.
proof fn lemma_wanted(t: Set<Seq<u8>>, target: Seq<u8>, key: Seq<u8>, s: Seq<u8>)
    requires
        prefix_closed(t),
        is_prefix(key, target),
        is_reached(t, key),
        is_stop(t, s),
        at_least(target)(s),
    ensures
        is_prefix(key, s) || before(key, s),
        is_prefix(key, s) && key.len() < target.len() && !holds(1, key) ==> {
            &&& key.len() < s.len()
            &&& t.contains(key.push(s[key.len() as int]))
            &&& target[key.len() as int] <= s[key.len() as int]
        },
{
    let n = key.len() as int;
    lemma_trichotomy(s, target);
    if before(s, target) || (is_prefix(s, target) && s.len() < target.len()) {
        assert(is_term(s) && is_prefix(s, target));
        if s.len() < key.len() {
            lemma_prefixes_comparable(s, key, target);
            lemma_open_prefix(1, s, key);
        } else {
            lemma_prefixes_comparable(key, s, target);
        }
        if n < s.len() {
            assert(s[n] == target.take(s.len() as int)[n]);
        } else if is_prefix(key, s) {
            assert(key =~= s);
        }
    } else if is_prefix(s, target) || is_prefix(target, s) {
        if is_prefix(s, target) {
            assert(s =~= target);
        }
        lemma_prefix_of_prefix(key, target, s);
        if n < target.len() {
            assert(target[n] == s.take(target.len() as int)[n]);
        }
    } else {
        let i = choose|i: int| diverges(target, s, i);
        if i < n {
            assert(key.take(i) =~= s.take(i)) by {
                assert(key.take(i) =~= target.take(i));
            }
            assert(diverges(key, s, i));
            lemma_before_exclusive(key, s);
        } else {
            assert(key =~= s.take(n)) by {
                assert(s.take(i).take(n) =~= s.take(n));
                assert(target.take(i).take(n) =~= target.take(n));
            }
            if n < i {
                assert(target.take(i)[n] == s.take(i)[n]);
            }
        }
    }
    if is_prefix(key, s) && n < s.len() {
        lemma_child_on_way(t, key, s);
    }
}

} // verus!
