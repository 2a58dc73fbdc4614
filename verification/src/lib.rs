//! Leapfrog joins over a byte trie of variable-width terms.
//!
//! A conjunctive query is answered variable by variable: a join variable's value is a subterm of
//! variable width, found by descending the trie byte by byte, and the factors that share the
//! variable are intersected by seeking. A stored variable in the data is a wildcard that unifies.
//!
//! The layers, from the bottom up: byte order (`order`), the term encoding and its parsers (`term`),
//! byte masks (`mask`), what a join needs of a trie (`trie`) and a set that offers it (`path_set`),
//! the subterm cursor (`cursor`) and the intersection of cursors (`leapfrog`), query factors
//! (`factor`), the ground join (`ground`), the trail of bindings (`env`), what stored facts say
//! (`fact`, `system`, `equivalence`), re-indexing (`reindex`, `reemit`), answer rows (`rows`), the
//! unification join (`candidate`, `prepare`, `unify`), conjunction bodies (`body`), and what holds of
//! all of them (`laws`).
//!
//! What each part does is stated once more in plain terms, over the bytes and numbers that go in and
//! come out: the encoding (`meaning`), walks and intersections (`walking`), the trail of bindings
//! (`binding`), re-indexing (`moving`), conjunction bodies (`spelling`), and the answers of the joins
//! (`answers`).

pub mod order;
pub mod term;
pub mod mask;
pub mod trie;
pub mod path_set;
pub mod cursor;
pub mod factor;
pub mod leapfrog;
mod lists;
pub mod ground;
pub mod env;
pub mod fact;
pub mod system;
pub mod equivalence;
pub mod reindex;
pub mod reemit;
pub mod rows;
pub mod candidate;
pub mod prepare;
pub mod unify;
pub mod body;
pub mod laws;
pub mod meaning;
pub mod answers;
pub mod spelling;
pub mod walking;
pub mod binding;
pub mod moving;

pub use crate::body::{parse_body_factors, read_body, unify_join_zipper_body, BodyRead};
pub use crate::cursor::SubtermCursor;
pub use crate::env::Env;
pub use crate::factor::Factor;
pub use crate::ground::{ground_join, is_query};
pub use crate::mask::{least_ge, ByteMask};
pub use crate::path_set::PathSet;
pub use crate::term::{first_subterm_is_ground, first_subterm_len};
pub use crate::trie::{PathTrie, Zipper, ZipperIteration};
pub use crate::unify::{unify_join_zipper, unify_join_zipper_partial};
