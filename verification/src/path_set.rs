//! A set of byte strings that can be walked as a trie.

use vstd::prelude::*;
use crate::mask::ByteMask;
use crate::order::{
    before, bytes_eq, bytes_lt, common_prefix, diverges, is_prefix, lemma_before_extend,
    lemma_lt_total, lemma_lt_trans, lemma_prefix_of_prefix, lemma_prefix_refl, lemma_trichotomy, lt,
    to_vec,
};
use crate::trie::{is_trie, prefix_closed, PathTrie, Zipper, ZipperIteration};

verus! {

/// The strings that some string of `values` starts with.
pub open spec fn prefixes(values: Set<Seq<u8>>) -> Set<Seq<u8>> {
    Set::new(|p: Seq<u8>| exists|v: Seq<u8>| #[trigger] values.contains(v) && is_prefix(p, v))
}

/// The strings in a list.
spec fn elements(keys: Seq<Vec<u8>>) -> Set<Seq<u8>> {
    Set::new(|v: Seq<u8>| exists|i: int| 0 <= i < keys.len() && (#[trigger] keys[i])@ == v)
}

/// The list is strictly ascending.
spec fn ascending(keys: Seq<Vec<u8>>) -> bool {
    forall|i: int, j: int|
        #![trigger keys[i], keys[j]]
        0 <= i < j < keys.len() ==> lt(keys[i]@, keys[j]@)
}

/// A set of byte strings, held in ascending order. The strings that share a prefix lie next to each
/// other, so the trie of all prefixes is walked by binary search.
pub struct PathSet {
    keys: Vec<Vec<u8>>,
}

impl View for PathSet {
    type V = Set<Seq<u8>>;

    closed spec fn view(&self) -> Set<Seq<u8>> {
        elements(self.keys@)
    }
}

/// The first index whose string is not before `target`.
fn lower_bound(keys: &Vec<Vec<u8>>, target: &[u8]) -> (n: usize)
    requires
        ascending(keys@),
    ensures
        n <= keys@.len(),
        forall|i: int| 0 <= i < n ==> lt((#[trigger] keys@[i])@, target@),
        forall|i: int| n <= i < keys@.len() ==> !lt((#[trigger] keys@[i])@, target@),
{
    let mut lo: usize = 0;
    let mut hi: usize = keys.len();
    while lo < hi
        invariant
            ascending(keys@),
            lo <= hi <= keys@.len(),
            forall|i: int| 0 <= i < lo ==> lt((#[trigger] keys@[i])@, target@),
            forall|i: int| hi <= i < keys@.len() ==> !lt((#[trigger] keys@[i])@, target@),
        decreases hi - lo,
    {
        let mid = lo + (hi - lo) / 2;
        if bytes_lt(&keys[mid], target) {
            proof {
                assert forall|i: int| 0 <= i < mid + 1 implies lt((#[trigger] keys@[i])@, target@) by {
                    if i < mid {
                        lemma_lt_trans(keys@[i]@, keys@[mid as int]@, target@);
                    }
                }
            }
            lo = mid + 1;
        } else {
            proof {
                assert forall|i: int| mid <= i < keys@.len() implies !lt(
                    (#[trigger] keys@[i])@,
                    target@,
                ) by {
                    if mid < i && lt(keys@[i]@, target@) {
                        lemma_lt_trans(keys@[mid as int]@, keys@[i]@, target@);
                    }
                }
            }
            hi = mid;
        }
    }
    lo
}

proof fn lemma_prefixes_finite(s: Seq<u8>)
    ensures
        Set::new(|p: Seq<u8>| is_prefix(p, s)).finite(),
    decreases s.len(),
{
    let all = Set::new(|p: Seq<u8>| is_prefix(p, s));
    if s.len() == 0 {
        assert(all =~= set![s]) by {
            assert forall|p: Seq<u8>| is_prefix(p, s) == (p == s) by {
                lemma_prefix_refl(s);
                if is_prefix(p, s) {
                    assert(p =~= s);
                }
            }
        }
    } else {
        let shorter = s.drop_last();
        lemma_prefixes_finite(shorter);
        let rest = Set::new(|p: Seq<u8>| is_prefix(p, shorter));
        assert(all =~= rest.insert(s)) by {
            assert forall|p: Seq<u8>| is_prefix(p, s) == (is_prefix(p, shorter) || p == s) by {
                lemma_prefix_refl(s);
                if is_prefix(p, s) {
                    if p.len() == s.len() {
                        assert(p =~= s);
                    } else {
                        assert(p =~= shorter.take(p.len() as int));
                    }
                }
                if is_prefix(p, shorter) {
                    assert(p =~= s.take(p.len() as int));
                }
            }
        }
    }
}

proof fn lemma_all_prefixes_finite(keys: Seq<Vec<u8>>)
    ensures
        prefixes(elements(keys)).finite(),
    decreases keys.len(),
{
    let all = prefixes(elements(keys));
    if keys.len() == 0 {
        assert(all =~= Set::empty());
    } else {
        let rest = keys.drop_last();
        lemma_all_prefixes_finite(rest);
        let last = Set::new(|p: Seq<u8>| is_prefix(p, keys.last()@));
        lemma_prefixes_finite(keys.last()@);
        assert(all =~= prefixes(elements(rest)).union(last)) by {
            assert forall|p: Seq<u8>| all.contains(p) == prefixes(elements(rest)).union(
                last,
            ).contains(p) by {
                if all.contains(p) {
                    let v = choose|v: Seq<u8>| #[trigger] elements(keys).contains(v) && is_prefix(p, v);
                    let i = choose|i: int| 0 <= i < keys.len() && (#[trigger] keys[i])@ == v;
                    if i < rest.len() {
                        assert(rest[i]@ == v);
                        assert(elements(rest).contains(v));
                    }
                }
                if prefixes(elements(rest)).contains(p) {
                    let v = choose|v: Seq<u8>| #[trigger] elements(rest).contains(v) && is_prefix(p, v);
                    let i = choose|i: int| 0 <= i < rest.len() && (#[trigger] rest[i])@ == v;
                    assert(keys[i]@ == v);
                    assert(elements(keys).contains(v));
                }
                if last.contains(p) {
                    let n = keys.len() - 1;
                    assert(keys[n]@ == keys.last()@);
                    assert(elements(keys).contains(keys.last()@));
                }
            }
        }
    }
}

/// A trie of prefixes is closed and holds its values.
pub proof fn lemma_prefixes_closed(values: Set<Seq<u8>>)
    ensures
        prefix_closed(prefixes(values)),
        values.subset_of(prefixes(values)),
{
    let paths = prefixes(values);
    assert forall|a: Seq<u8>, p: Seq<u8>| #[trigger]
        paths.contains(p) && #[trigger] is_prefix(a, p) implies paths.contains(a) by {
        let v = choose|v: Seq<u8>| #[trigger] values.contains(v) && is_prefix(p, v);
        lemma_prefix_of_prefix(a, p, v);
    }
    assert forall|v: Seq<u8>| values.contains(v) implies paths.contains(v) by {
        lemma_prefix_refl(v);
    }
}

/// A string between two strings that share a prefix shares it too.
proof fn lemma_between(r: Seq<u8>, a: Seq<u8>, b: Seq<u8>, c: Seq<u8>)
    requires
        is_prefix(r, a),
        is_prefix(r, c),
        lt(a, b),
        lt(b, c),
    ensures
        is_prefix(r, b),
{
    lemma_trichotomy(r, b);
    lemma_prefix_refl(b);
    lemma_lt_total(a, b);
    lemma_lt_total(b, c);
    if before(r, b) {
        lemma_before_extend(r, b, c, b);
    } else if before(b, r) {
        lemma_before_extend(b, r, b, a);
    } else if !is_prefix(r, b) {
        lemma_prefix_of_prefix(b, r, a);
        if b.len() == a.len() {
            assert(b =~= a);
        }
    }
}

impl PathSet {
    #[verifier::type_invariant]
    spec fn sorted(&self) -> bool {
        ascending(self.keys@)
    }

    /// The empty set.
    pub fn new() -> (s: PathSet)
        ensures
            s@ == Set::<Seq<u8>>::empty(),
    {
        let s = PathSet { keys: Vec::new() };
        assert(s@ =~= Set::<Seq<u8>>::empty());
        s
    }

    /// Put `path` into the set. Returns whether it was not there before.
    pub fn insert(&mut self, path: &[u8]) -> (added: bool)
        ensures
            final(self)@ == old(self)@.insert(path@),
            added == !old(self)@.contains(path@),
    {
        proof {
            use_type_invariant(&*self);
        }
        let ghost keys0 = self.keys@;
        let n = lower_bound(&self.keys, path);
        if n < self.keys.len() && bytes_eq(&self.keys[n], path) {
            proof {
                assert(elements(keys0).contains(path@));
                assert(self@ =~= self@.insert(path@));
            }
            return false;
        }
        proof {
            assert forall|i: int| n <= i < keys0.len() implies lt(path@, (#[trigger] keys0[i])@) by {
                lemma_lt_total(path@, keys0[i]@);
                if keys0[i]@ == path@ {
                    assert(n < i);
                    assert(lt(keys0[n as int]@, keys0[i]@));
                }
            }
            if elements(keys0).contains(path@) {
                let i = choose|i: int| 0 <= i < keys0.len() && (#[trigger] keys0[i])@ == path@;
                lemma_lt_total(path@, path@);
            }
        }
        let mut keys: Vec<Vec<u8>> = Vec::new();
        std::mem::swap(&mut keys, &mut self.keys);
        keys.insert(n, to_vec(path));
        proof {
            assert forall|i: int, j: int|
                #![trigger keys@[i], keys@[j]]
                0 <= i < j < keys@.len() implies lt(keys@[i]@, keys@[j]@) by {
                if j < n {
                    assert(keys@[i] == keys0[i] && keys@[j] == keys0[j]);
                } else if i > n {
                    assert(keys@[i] == keys0[i - 1] && keys@[j] == keys0[j - 1]);
                } else if i < n && j > n {
                    assert(keys@[i] == keys0[i] && keys@[j] == keys0[j - 1]);
                } else if i == n {
                    assert(keys@[j] == keys0[j - 1]);
                } else {
                    assert(keys@[i] == keys0[i]);
                }
            }
            assert forall|v: Seq<u8>| elements(keys@).contains(v) == (elements(keys0).contains(v) || v
                == path@) by {
                if elements(keys@).contains(v) {
                    let i = choose|i: int| 0 <= i < keys@.len() && (#[trigger] keys@[i])@ == v;
                    if i < n {
                        assert(keys0[i]@ == v);
                    } else if i > n {
                        assert(keys0[i - 1]@ == v);
                    }
                }
                if elements(keys0).contains(v) {
                    let i = choose|i: int| 0 <= i < keys0.len() && (#[trigger] keys0[i])@ == v;
                    if i < n {
                        assert(keys@[i]@ == v);
                    } else {
                        assert(keys@[i + 1]@ == v);
                    }
                }
                if v == path@ {
                    assert(keys@[n as int]@ == v);
                }
            }
            assert(elements(keys@) =~= elements(keys0).insert(path@));
        }
        self.keys = keys;
        true
    }
}

/// A zipper over the trie of the prefixes of a [`PathSet`].
pub struct SetZipper<'a> {
    set: &'a PathSet,
    /// The whole path of the focus.
    focus: Vec<u8>,
    /// How many bytes the focus is below the root.
    depth: usize,
}

impl<'a> SetZipper<'a> {
    /// The zipper is at or below its root.
    proof fn lemma_root(&self)
        ensures
            is_prefix(self.root(), self.focus()),
    {
        assert(self.root() =~= self.focus@.take(self.root().len() as int));
    }
}

impl<'a> Zipper for SetZipper<'a> {
    closed spec fn paths(&self) -> Set<Seq<u8>> {
        prefixes(self.set@)
    }

    closed spec fn root(&self) -> Seq<u8> {
        if self.depth <= self.focus@.len() {
            self.focus@.take(self.focus@.len() - self.depth)
        } else {
            Seq::empty()
        }
    }

    closed spec fn focus(&self) -> Seq<u8> {
        self.focus@
    }

    fn path_exists(&self) -> (r: bool) {
        proof {
            use_type_invariant(self.set);
        }
        let keys = &self.set.keys;
        let ghost f = self.focus@;
        let i = lower_bound(keys, &self.focus);
        if i < keys.len() && common_prefix(&self.focus, &keys[i]) == self.focus.len() {
            proof {
                assert(f.take(f.len() as int) =~= f);
                assert(is_prefix(f, keys@[i as int]@));
                assert(self.set@.contains(keys@[i as int]@));
            }
            return true;
        }
        proof {
            lemma_prefix_refl(f);
            assert forall|v: Seq<u8>| #[trigger] self.set@.contains(v) implies !is_prefix(f, v) by {
                if is_prefix(f, v) {
                    let j = choose|j: int| 0 <= j < keys@.len() && (#[trigger] keys@[j])@ == v;
                    lemma_lt_total(f, v);
                    if f.len() == v.len() {
                        assert(f =~= v);
                    }
                    assert(i <= j);
                    let k = keys@[i as int]@;
                    lemma_lt_total(f, k);
                    if i < j && f != k {
                        lemma_between(f, f, k, v);
                    }
                    assert(is_prefix(f, k));
                    assert(k.take(f.len() as int) =~= f);
                }
            }
        }
        false
    }

    fn child_mask(&self) -> (m: ByteMask) {
        proof {
            use_type_invariant(self.set);
        }
        let keys = &self.set.keys;
        let n = self.focus.len();
        let ghost f = self.focus@;
        let mut m = ByteMask::empty();
        let mut low: u16 = 0;
        while low < 256
            invariant
                low <= 256,
                n == self.focus@.len(),
                f == self.focus@,
                ascending(keys@),
                *keys == self.set.keys,
                forall|b: u8| b < low ==> (#[trigger] m@.contains(b)) == self.paths().contains(
                    f.push(b),
                ),
                forall|b: u8| b >= low ==> !#[trigger] m@.contains(b),
            decreases 256 - low,
        {
            let mut probe = to_vec(&self.focus);
            probe.push(low as u8);
            let ghost m0 = m@;
            let i = lower_bound(keys, &probe);
            let at_child = i < keys.len() && common_prefix(&self.focus, &keys[i]) == n;
            proof {
                if at_child {
                    let k = keys@[i as int]@;
                    assert(f.take(n as int) =~= f);
                    assert(is_prefix(f, k));
                    assert(probe@.take(n as int) =~= f);
                    self.lemma_probe(probe@, k);
                }
                assert(probe@ =~= f.push(low as u8));
                assert forall|c: u8| low <= c && self.paths().contains(f.push(c)) implies at_child
                    && keys@[i as int]@[n as int] <= c by {
                    self.lemma_child_found(low as u8, i as int, c);
                }
            }
            if !at_child {
                proof {
                    assert forall|b: u8| (#[trigger] m@.contains(b)) == self.paths().contains(
                        f.push(b),
                    ) by {}
                }
                return m;
            }
            let b = keys[i][n];
            proof {
                assert(self.paths().contains(f.push(b))) by {
                    let k = keys@[i as int]@;
                    assert(f.push(b) =~= k.take(n + 1));
                    assert(is_prefix(f.push(b), k));
                    assert(self.set@.contains(k));
                }
            }
            m.set_bit(b);
            low = b as u16 + 1;
        }
        proof {
            assert forall|b: u8| (#[trigger] m@.contains(b)) == self.paths().contains(f.push(b)) by {
                assert(b < low);
            }
        }
        m
    }

    fn descend_to_byte(&mut self, b: u8) {
        self.focus.push(b);
        if self.depth < self.focus.len() {
            self.depth = self.depth + 1;
        }
        assert(self.root() =~= old(self).root());
    }

    fn ascend_byte(&mut self) -> (moved: bool) {
        if self.depth > 0 {
            match self.focus.pop() {
                Some(_) => {
                    self.depth = self.depth - 1;
                    assert(self.root() =~= old(self).root());
                    assert(self.focus() =~= old(self).focus().drop_last());
                    true
                },
                None => false,
            }
        } else {
            false
        }
    }
}

impl<'a> SetZipper<'a> {
    /// The first key at or after a child position, when it is below the focus, shows a child.
    proof fn lemma_probe(&self, probe: Seq<u8>, k: Seq<u8>)
        requires
            probe.len() == self.focus@.len() + 1,
            probe.take(self.focus@.len() as int) == self.focus@,
            is_prefix(self.focus@, k),
            !lt(k, probe),
        ensures
            self.focus@.len() < k.len(),
            probe.last() <= k[self.focus@.len() as int],
    {
        let f = self.focus@;
        let n = f.len() as int;
        if k.len() == n {
            assert(k =~= f);
            assert(is_prefix(k, probe));
        } else if k[n] < probe[n] {
            assert(k.take(n) =~= probe.take(n));
            assert(diverges(k, probe, n));
        }
    }

    /// A child at or above byte `low` lies at or after the first key from there.
    proof fn lemma_child_found(&self, low: u8, i: int, c: u8)
        requires
            ascending(self.set.keys@),
            0 <= i <= self.set.keys@.len(),
            forall|j: int| 0 <= j < i ==> lt((#[trigger] self.set.keys@[j])@, self.focus@.push(low)),
            forall|j: int|
                i <= j < self.set.keys@.len() ==> !lt(
                    (#[trigger] self.set.keys@[j])@,
                    self.focus@.push(low),
                ),
            low <= c,
            self.paths().contains(self.focus@.push(c)),
        ensures
            i < self.set.keys@.len(),
            is_prefix(self.focus@, self.set.keys@[i]@),
            self.focus@.len() < self.set.keys@[i]@.len(),
            self.set.keys@[i]@[self.focus@.len() as int] <= c,
    {
        let keys = self.set.keys@;
        let f = self.focus@;
        let n = f.len() as int;
        let probe = f.push(low);
        let child = f.push(c);
        let v = choose|v: Seq<u8>| #[trigger] self.set@.contains(v) && is_prefix(child, v);
        let j = choose|j: int| 0 <= j < keys.len() && (#[trigger] keys[j])@ == v;
        assert(v[n] == c && v.take(n) =~= f) by {
            assert(child[n] == v.take(child.len() as int)[n]);
            assert(v.take(n) =~= v.take(child.len() as int).take(n));
            assert(child.take(n) =~= f);
        }
        assert(f == probe.take(n)) by {
            assert(f =~= probe.take(n));
        }
        assert(is_prefix(f, probe));
        assert(!lt(v, probe)) by {
            lemma_lt_total(v, probe);
            if low < c {
                assert(diverges(probe, v, n));
            } else {
                assert(probe =~= v.take(probe.len() as int));
                if probe.len() == v.len() {
                    assert(probe =~= v);
                }
            }
        }
        assert(i <= j);
        let k = keys[i]@;
        if i < j {
            assert(lt(k, v));
            lemma_lt_total(probe, k);
            if probe != k {
                lemma_between(f, probe, k, v);
            }
        }
        assert(is_prefix(f, k));
        self.lemma_probe(probe, k);
        if k[n] > c {
            assert(v.take(n) =~= k.take(n));
            assert(diverges(v, k, n));
            lemma_lt_total(v, k);
        }
    }
}

impl<'a> ZipperIteration for SetZipper<'a> {
    closed spec fn values(&self) -> Set<Seq<u8>> {
        self.set@
    }

    fn to_next_val(&mut self) -> (found: bool) {
        proof {
            use_type_invariant(self.set);
            self.lemma_root();
        }
        let keys = &self.set.keys;
        let ghost root = self.root();
        let ghost at = self.focus@;
        let mut i = lower_bound(keys, &self.focus);
        if i < keys.len() && bytes_eq(&keys[i], &self.focus) {
            i += 1;
        }
        proof {
            assert forall|j: int| 0 <= j < keys@.len() implies lt(at, (#[trigger] keys@[j])@) == (i
                <= j) by {
                lemma_lt_total(at, keys@[j]@);
                if i > 0 {
                    lemma_lt_total(at, keys@[i - 1]@);
                    if j < i - 1 {
                        assert(lt(keys@[j]@, keys@[i - 1]@));
                    }
                    if i <= j {
                        assert(lt(keys@[i - 1]@, keys@[j]@));
                    }
                }
            }
        }
        let up = if self.depth <= self.focus.len() {
            self.focus.len() - self.depth
        } else {
            0
        };
        if i < keys.len() {
            self.focus.truncate(up);
            self.depth = 0;
            assert(self.focus@ =~= root);
            if common_prefix(&self.focus, &keys[i]) == up {
                let ghost v = keys@[i as int]@;
                proof {
                    assert(root.take(up as int) =~= root);
                    assert(is_prefix(root, v));
                    assert(self.set@.contains(v));
                    assert forall|u: Seq<u8>| #[trigger]
                        self.set@.contains(u) && is_prefix(root, u) && lt(at, u) implies u == v || lt(
                        v,
                        u,
                    ) by {
                        let j = choose|j: int| 0 <= j < keys@.len() && (#[trigger] keys@[j])@ == u;
                        assert(i <= j);
                    }
                }
                self.focus = to_vec(&keys[i]);
                self.depth = self.focus.len() - up;
                assert(self.root() =~= root);
                return true;
            }
            proof {
                assert forall|u: Seq<u8>| #[trigger]
                    self.set@.contains(u) && is_prefix(root, u) implies !lt(at, u) by {
                    if lt(at, u) {
                        let j = choose|j: int| 0 <= j < keys@.len() && (#[trigger] keys@[j])@ == u;
                        if i < j {
                            lemma_between(root, at, keys@[i as int]@, u);
                        }
                        assert(is_prefix(root, keys@[i as int]@));
                        assert(false);
                    }
                }
            }
            assert(self.root() =~= root);
            return false;
        }
        proof {
            assert forall|u: Seq<u8>| #[trigger]
                self.set@.contains(u) && is_prefix(root, u) implies !lt(at, u) by {
                let j = choose|j: int| 0 <= j < keys@.len() && (#[trigger] keys@[j])@ == u;
            }
        }
        self.focus.truncate(up);
        self.depth = 0;
        assert(self.focus@ =~= root);
        assert(self.root() =~= root);
        false
    }

    fn origin_path(&self) -> (path: &[u8]) {
        &self.focus
    }
}

impl PathSet {
    /// The prefixes of the strings make a trie, and the strings are among them.
    pub proof fn lemma_trie(&self)
        ensures
            is_trie(self.paths()),
            self.values().subset_of(self.paths()),
    {
        lemma_all_prefixes_finite(self.keys@);
        lemma_prefixes_closed(self@);
    }
}

impl PathTrie for PathSet {
    type ReadZipper<'a> = SetZipper<'a>;

    open spec fn paths(&self) -> Set<Seq<u8>> {
        prefixes(self@)
    }

    open spec fn values(&self) -> Set<Seq<u8>> {
        self@
    }

    fn read_zipper_at_path<'a>(&'a self, path: &[u8]) -> (z: SetZipper<'a>) {
        let z = SetZipper { set: self, focus: to_vec(path), depth: 0 };
        proof {
            assert(z.root() =~= path@);
            z.lemma_root();
            self.lemma_trie();
        }
        z
    }
}

} // verus!
