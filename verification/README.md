# zipper_join

Leapfrog joins over a byte trie of variable-width terms, verified with Verus.

A conjunctive query is a list of factors: a relation's prefix in the trie, and the query variable of
each argument column. The joins bind one variable at a time. A variable's values are the complete
subterms that branch from each factor's position in the trie, and the factors that share the variable
are intersected by seeking, so no intermediate product is built.

- `ground_join` joins on equal subterms.
- `unify_join_zipper_partial` joins by unification: a variable stored in a fact is a wildcard, the
  same one wherever the fact names it again. A component of an answer that stays free is `None`.
- `unify_join_zipper` keeps the fully ground answers.
- `unify_join_zipper_body` takes an encoded conjunction `(, p1 .. pk)`.

## What is proved

Each join's contract says exactly which rows it returns, and in which order. For the ground join a
row is an answer when every factor has the fact that the row spells. For the unification join a row
comes of a choice of one fact per factor that some assignment of the variables satisfies, and holds
the value of each variable that all such assignments agree on.

Every row is an answer, whatever the trie holds. Every answer is a row where the facts are whole:
below a factor's prefix every path goes on until all columns are complete. Where a path breaks off, an
answer is still a row if its columns all lie before the first dead end. For the unification join
the columns of a fact are ground values or single variables, and a column refers back only to a
variable that an earlier column of the fact introduced. `src/laws.rs` shows that a trie of whole facts
is read whole, that neither the order of the variables nor that of the factors changes an answer, and
that on facts without variables the two joins agree. `src/reemit.rs` shows that a fact whose columns
are moved can be brought back.

Running time is not part of the contracts.

## Layout

- `src/` is the library. `trie` states what a join needs of a trie, and `path_set` is a trie that
  offers it.
- `app/` runs the joins on a live `pathmap::PathMap`. Only the facts of a factor that has to be
  re-indexed are copied. The `pathmap` crate needs the `aes` and `sse2` target features.
- `tests/` compares the joins with nested loops, and runs them over a second trie.
