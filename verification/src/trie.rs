//! What a join needs of a byte trie: a zipper that moves over it byte by byte.

use vstd::prelude::*;
use crate::mask::ByteMask;
use crate::order::{is_prefix, lt};

verus! {

/// Every prefix of a path is a path.
pub open spec fn prefix_closed(paths: Set<Seq<u8>>) -> bool {
    forall|a: Seq<u8>, p: Seq<u8>| #[trigger]
        paths.contains(p) && #[trigger] is_prefix(a, p) ==> paths.contains(a)
}

/// The continuations of `floor`: what may follow it along a path.
pub open spec fn below(paths: Set<Seq<u8>>, floor: Seq<u8>) -> Set<Seq<u8>> {
    Set::new(|w: Seq<u8>| paths.contains(floor + w))
}

/// Paths that make a trie: finitely many, and closed under prefixes.
pub open spec fn is_trie(paths: Set<Seq<u8>>) -> bool {
    paths.finite() && prefix_closed(paths)
}

/// A zipper over a trie, at or below its root.
pub open spec fn is_placed<Z: Zipper>(z: &Z) -> bool {
    is_trie(z.paths()) && is_prefix(z.root(), z.focus())
}

/// A position in a byte trie that moves one byte at a time. It is rooted at a path that it never
/// leaves upwards, and it may stand where the trie has no path.
///
/// The ghost functions of this trait and of those below have bodies, which an implementation
/// replaces, so that code outside the verifier's sight can implement the traits too.
pub trait Zipper {
    /// The paths of the trie, each spelled from the trie's own root.
    closed spec fn paths(&self) -> Set<Seq<u8>> {
        Set::empty()
    }

    /// The path that the zipper is rooted at.
    closed spec fn root(&self) -> Seq<u8> {
        Seq::empty()
    }

    /// The path that the zipper stands at, spelled from the trie's own root.
    closed spec fn focus(&self) -> Seq<u8> {
        Seq::empty()
    }

    /// Whether the focus is a path of the trie.
    fn path_exists(&self) -> (r: bool)
        ensures
            r == self.paths().contains(self.focus()),
    ;

    /// The bytes by which a path goes on from the focus.
    fn child_mask(&self) -> (m: ByteMask)
        ensures
            forall|b: u8| #[trigger]
                m@.contains(b) == self.paths().contains(self.focus().push(b)),
    ;

    /// Move down by byte `b`, whether or not a path goes there.
    fn descend_to_byte(&mut self, b: u8)
        ensures
            final(self).paths() == old(self).paths(),
            final(self).root() == old(self).root(),
            final(self).focus() == old(self).focus().push(b),
    ;

    /// Move up by one byte, unless the zipper stands at its root.
    fn ascend_byte(&mut self) -> (moved: bool)
        ensures
            final(self).paths() == old(self).paths(),
            final(self).root() == old(self).root(),
            moved == (old(self).focus().len() > old(self).root().len()),
            final(self).focus() == if moved {
                old(self).focus().drop_last()
            } else {
                old(self).focus()
            },
    ;
}

/// `v` is the least of the `values` under `root` that come after `at`.
pub open spec fn next_value(
    values: Set<Seq<u8>>,
    root: Seq<u8>,
    at: Seq<u8>,
    v: Seq<u8>,
) -> bool {
    &&& values.contains(v)
    &&& is_prefix(root, v)
    &&& lt(at, v)
    &&& forall|u: Seq<u8>| #[trigger]
        values.contains(u) && is_prefix(root, u) && lt(at, u) ==> u == v || lt(v, u)
}

/// A zipper that can also visit the stored values below its root.
pub trait ZipperIteration: Zipper {
    /// The paths at which a value is stored.
    closed spec fn values(&self) -> Set<Seq<u8>> {
        Set::empty()
    }

    /// Move to the next value below the root, in ascending order of the paths, or back to the root
    /// when there is none.
    fn to_next_val(&mut self) -> (found: bool)
        ensures
            final(self).paths() == old(self).paths(),
            final(self).values() == old(self).values(),
            final(self).root() == old(self).root(),
            found ==> next_value(
                old(self).values(),
                old(self).root(),
                old(self).focus(),
                final(self).focus(),
            ),
            !found ==> {
                &&& final(self).focus() == old(self).root()
                &&& forall|u: Seq<u8>| #[trigger]
                    old(self).values().contains(u) && is_prefix(old(self).root(), u) ==> !lt(
                        old(self).focus(),
                        u,
                    )
            },
    ;

    /// The path of the focus, spelled from the trie's own root.
    fn origin_path(&self) -> (path: &[u8])
        ensures
            path@ == self.focus(),
    ;
}

/// A byte trie that hands out zippers.
pub trait PathTrie {
    /// The zippers over this trie.
    type ReadZipper<'a>: ZipperIteration where Self: 'a;

    /// The paths of the trie.
    closed spec fn paths(&self) -> Set<Seq<u8>> {
        Set::empty()
    }

    /// The paths at which a value is stored.
    closed spec fn values(&self) -> Set<Seq<u8>> {
        Set::empty()
    }

    /// A zipper rooted at `path`, whether or not the trie has that path.
    fn read_zipper_at_path<'a>(&'a self, path: &[u8]) -> (z: Self::ReadZipper<'a>)
        ensures
            z.paths() == self.paths(),
            z.values() == self.values(),
            z.root() == path@,
            z.focus() == path@,
            is_placed(&z),
            z.values().subset_of(z.paths()),
    ;
}

} // verus!
