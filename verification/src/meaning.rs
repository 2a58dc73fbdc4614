//! The encoding in plain terms: what its bytes mean, stated over numbers and sequences alone.

use vstd::prelude::*;
use crate::factor::{all_terms, joined, lemma_joined_take};
use crate::laws::lemma_term_shape;
use crate::order::{is_prefix, lt};
use crate::term::{
    complete_len, first_subterm_is_ground, first_subterm_len, holds, is_complete, is_ground,
    is_term, is_var_tag, lemma_holds_extend, lemma_prefix_free, lemma_run_concat,
    lemma_run_more, lemma_run_payload, parse_first_subterm, run, step, tag_at,
};

verus! {

/// Joining is flattening.
pub proof fn lemma_joined_flat(cols: Seq<Seq<u8>>)
    ensures
        joined(cols) == cols.flatten(),
    decreases cols.len(),
{
    if cols.len() == 0 {
        assert(cols.flatten() =~= Seq::<u8>::empty());
    } else {
        let front = cols.drop_last();
        lemma_joined_flat(front);
        front.lemma_flatten_push(cols.last());
        assert(front.push(cols.last()) =~= cols);
    }
}

/// A prefix is a sequence that another one starts with.
pub proof fn lemma_prefix_plain(a: Seq<u8>, b: Seq<u8>)
    ensures
        is_prefix(a, b) == a.is_prefix_of(b),
{
    if a.len() <= b.len() {
        assert(b.take(a.len() as int) =~= b.subrange(0, a.len() as int));
    }
}

/// Byte strings are ordered as words in a dictionary: at the first place where they differ, the
/// smaller byte comes first, and a string comes before those that it starts.
pub proof fn lemma_order_plain(a: Seq<u8>, b: Seq<u8>)
    ensures
        lt(a, b) <==> exists|i: int| #[trigger]
            a.take(i) == b.take(i) && 0 <= i <= a.len() && i < b.len() && (i == a.len() || a[i]
                < b[i]),
{
    if lt(a, b) {
        if is_prefix(a, b) && a.len() < b.len() {
            let i = a.len() as int;
            assert(a.take(i) == b.take(i)) by {
                assert(a.take(i) =~= a);
            }
        } else {
            let i = choose|i: int| crate::order::diverges(a, b, i);
            assert(a.take(i) == b.take(i));
        }
    }
    if exists|i: int| #[trigger]
        a.take(i) == b.take(i) && 0 <= i <= a.len() && i < b.len() && (i == a.len() || a[i]
            < b[i]) {
        let i = choose|i: int| #[trigger]
            a.take(i) == b.take(i) && 0 <= i <= a.len() && i < b.len() && (i == a.len() || a[i]
                < b[i]);
        if i == a.len() {
            assert(a.take(i) =~= a);
            assert(is_prefix(a, b));
        } else {
            assert(crate::order::diverges(a, b, i));
        }
    }
}

/// What is one complete term, by its first byte. From `0xC1` on the byte is `0xC0 + s`, and the term
/// is that byte and `s` more. From `0x80` to `0xC0` it is a variable, alone. Below `0x40` it is the
/// number of terms that follow. The bytes from `0x40` to `0x7F` are read as `0x40 + s`, a symbol too.
pub proof fn lemma_term_bytes(w: Seq<u8>)
    ensures
        w.len() == 0 ==> !is_term(w),
        w.len() > 0 && w[0] >= 0xC1 ==> (is_term(w) <==> w.len() == 1 + (w[0] - 0xC0)),
        w.len() > 0 && 0x80 <= w[0] <= 0xC0 ==> (is_term(w) <==> w.len() == 1),
        w.len() > 0 && 0x40 <= w[0] < 0x80 ==> (is_term(w) <==> w.len() == 1 + (w[0] - 0x40)),
        w.len() > 0 && w[0] < 0x40 ==> (is_term(w) <==> exists|args: Seq<Seq<u8>>|
            args.len() == w[0] && (forall|i: int| 0 <= i < args.len() ==> is_term(args[i])) && w
                == seq![w[0]] + #[trigger] args.flatten()),
{
    if w.len() > 0 {
        lemma_term_shape(w);
        if w[0] < 0x40 {
            if is_term(w) {
                let args = choose|args: Seq<Seq<u8>>|
                    args.len() == w[0] && #[trigger] all_terms(args) && w == seq![w[0]] + joined(
                        args,
                    );
                lemma_joined_flat(args);
                assert(w == seq![w[0]] + args.flatten());
            }
            if exists|args: Seq<Seq<u8>>|
                args.len() == w[0] && (forall|i: int| 0 <= i < args.len() ==> is_term(args[i])) && w
                    == seq![w[0]] + #[trigger] args.flatten() {
                let args = choose|args: Seq<Seq<u8>>|
                    args.len() == w[0] && (forall|i: int| 0 <= i < args.len() ==> is_term(args[i]))
                        && w == seq![w[0]] + #[trigger] args.flatten();
                lemma_joined_flat(args);
                assert(all_terms(args));
            }
        }
    }
}

/// A symbol of `s` bytes is one term, whatever the bytes are, and a string that starts with its tag
/// and is shorter or longer is none.
pub proof fn lemma_symbol_bytes(s: int, name: Seq<u8>)
    requires
        1 <= s <= 63,
    ensures
        is_term(seq![(0xC0 + s) as u8] + name) <==> name.len() == s,
        name.len() == s ==> is_ground(seq![(0xC0 + s) as u8] + name),
{
    let w = seq![(0xC0 + s) as u8] + name;
    lemma_term_bytes(w);
    if name.len() == s {
        lemma_ground_bytes(w, Seq::empty());
    }
}

/// Reading on from `k` complete terms, more of them than are read, changes nothing of which bytes
/// are tags.
pub proof fn lemma_tag_later(w: Seq<u8>, n: nat, start: Seq<u8>, t: Seq<u8>, i: int)
    requires
        w.len() >= start.len() + t.len(),
        start == w.take(start.len() as int),
        t == w.subrange(start.len() as int, (start.len() + t.len()) as int),
        run((1, 0), start) == (n + 1, 0nat),
        is_term(t),
        0 <= i < t.len(),
    ensures
        tag_at(w, start.len() + i) == tag_at(t, i),
{
    let front = t.take(i);
    assert(w.take(start.len() + i) =~= start + front);
    lemma_run_concat((1, 0), start, front);
    if front.len() > 0 {
        assert(is_prefix(front.drop_last(), t)) by {
            assert(front.drop_last() =~= t.take(i - 1));
        }
        crate::term::lemma_open_prefix(1, front.drop_last(), t);
    }
    lemma_run_more(1, n, front);
}

/// What has no variable in it, by its first byte: a symbol has none, a variable is one, and a
/// compound term has none if none of its arguments has.
pub proof fn lemma_ground_bytes(w: Seq<u8>, args: Seq<Seq<u8>>)
    requires
        is_term(w),
    ensures
        w[0] >= 0xC1 ==> is_ground(w),
        0x80 <= w[0] <= 0xC0 ==> !is_ground(w),
        0x40 <= w[0] < 0x80 ==> is_ground(w),
        w[0] < 0x40 && args.len() == w[0] && (forall|i: int|
            0 <= i < args.len() ==> is_term(args[i])) && w == seq![w[0]] + args.flatten() ==> (
        is_ground(w) <==> forall|i: int| 0 <= i < args.len() ==> is_ground(#[trigger] args[i])),
{
    lemma_term_bytes(w);
    assert(w.take(0) =~= Seq::<u8>::empty());
    assert(tag_at(w, 0));
    let tag = seq![w[0]];
    assert(tag.drop_last() =~= Seq::<u8>::empty());
    assert(run((1, 0), tag) == step((1, 0), w[0])) by {
        reveal_with_fuel(run, 2);
    }
    if w[0] >= 0x40 && !is_var_tag(w[0]) {
        assert forall|i: int| #![trigger w[i]] 0 <= i < w.len() && tag_at(w, i) implies !is_var_tag(
            w[i],
        ) by {
            if i > 0 {
                let rest = w.subrange(1, i);
                assert(w.take(i) =~= tag + rest);
                lemma_run_concat((1, 0), tag, rest);
                lemma_run_payload(run((1, 0), tag), rest);
            }
        }
    } else if !is_var_tag(w[0]) && args.len() == w[0] && (forall|i: int| 0 <= i < args.len() ==> is_term(args[i])) && w
        == seq![w[0]] + args.flatten() {
        lemma_joined_flat(args);
        lemma_ground_args(w, args, args.len() as int);
        let n = args.len() as int;
        assert(args.take(n) =~= args);
        assert((tag + joined(args)) =~= w);
        if is_ground(w) {
            assert(ground_to(w, w.len() as int));
        }
        if ground_to(w, w.len() as int) {
            assert(is_ground(w));
        }
    }
}

/// The first `n` bytes hold no variable.
pub open spec fn ground_to(w: Seq<u8>, n: int) -> bool {
    forall|i: int| #![trigger w[i]] 0 <= i < n && tag_at(w, i) ==> !is_var_tag(w[i])
}

/// A compound term up to its argument `m`.
pub proof fn lemma_ground_args(w: Seq<u8>, args: Seq<Seq<u8>>, m: int)
    requires
        w.len() > 0,
        w[0] < 0x40,
        args.len() == w[0],
        all_terms(args),
        w == seq![w[0]] + joined(args),
        0 <= m <= args.len(),
    ensures
        ground_to(w, 1 + joined(args.take(m)).len() as int) <==> forall|i: int|
            0 <= i < m ==> is_ground(#[trigger] args[i]),
        run((1, 0), seq![w[0]] + joined(args.take(m))) == ((args.len() - m) as nat, 0nat),
        is_prefix(seq![w[0]] + joined(args.take(m)), w),
    decreases m,
{
    let tag = seq![w[0]];
    assert(tag.drop_last() =~= Seq::<u8>::empty());
    assert(run((1, 0), tag) == step((1, 0), w[0])) by {
        reveal_with_fuel(run, 2);
    }
    lemma_joined_take(args, m);
    let part = joined(args.take(m));
    assert(is_prefix(tag + part, w)) by {
        assert(part =~= joined(args).take(part.len() as int));
        assert(tag + part =~= w.take((tag + part).len() as int));
    }
    if m == 0 {
        assert(part =~= Seq::<u8>::empty());
        assert(tag + part =~= tag);
        assert(w.take(0) =~= Seq::<u8>::empty());
        assert(!is_var_tag(w[0]));
        assert(ground_to(w, 1));
    } else {
        lemma_ground_args(w, args, m - 1);
        lemma_joined_take(args, m - 1);
        let prev = joined(args.take(m - 1));
        let t = args[m - 1];
        assert(args.take(m).drop_last() =~= args.take(m - 1));
        assert(args.take(m).last() == t);
        assert(part == prev + t);
        let start = tag + prev;
        assert(tag + part =~= start + t);
        assert(start =~= w.take(start.len() as int));
        let n = (args.len() - m) as nat;
        assert(t =~= w.subrange(start.len() as int, (start.len() + t.len()) as int)) by {
            let all = start + t;
            assert(all =~= w.take(all.len() as int));
            assert forall|i: int| 0 <= i < t.len() implies t[i] == w[start.len() + i] by {
                assert(all[start.len() + i] == t[i]);
            }
        }
        lemma_run_concat((1, 0), start, t);
        lemma_run_more(1, n, t);
        let end = (start.len() + t.len()) as int;
        assert forall|i: int| 0 <= i < t.len() implies #[trigger] tag_at(t, i) == tag_at(
            w,
            start.len() + i,
        ) && t[i] == w[start.len() + i] by {
            lemma_tag_later(w, n, start, t, i);
        }
        if ground_to(w, end) {
            assert(ground_to(w, start.len() as int));
            assert(is_ground(t)) by {
                assert forall|i: int| #![trigger t[i]] 0 <= i < t.len() && tag_at(
                    t,
                    i,
                ) implies !is_var_tag(t[i]) by {
                    assert(tag_at(w, start.len() + i));
                    assert(!is_var_tag(w[start.len() + i]));
                }
            }
        }
        if ground_to(w, start.len() as int) && is_ground(t) {
            assert forall|i: int| #![trigger w[i]] 0 <= i < end && tag_at(w, i) implies !is_var_tag(
                w[i],
            ) by {
                if i >= start.len() {
                    let k = i - start.len();
                    assert(tag_at(t, k) == tag_at(w, start.len() + k));
                    assert(t[k] == w[i]);
                }
            }
        }
    }
}

/// What holds a complete term at its front starts with one.
pub proof fn lemma_front_term(w: Seq<u8>)
    ensures
        holds(1, w) <==> exists|t: Seq<u8>| #[trigger] is_term(t) && t.is_prefix_of(w),
{
    if holds(1, w) {
        assert(w.take(w.len() as int) =~= w);
        let i = crate::laws::lemma_first_complete(1, w, w.len() as int);
        let t = w.take(i);
        lemma_prefix_plain(t, w);
        assert(is_prefix(t, w));
        assert(is_term(t) && t.is_prefix_of(w));
    }
    if exists|t: Seq<u8>| #[trigger] is_term(t) && t.is_prefix_of(w) {
        let t = choose|t: Seq<u8>| #[trigger] is_term(t) && t.is_prefix_of(w);
        lemma_prefix_plain(t, w);
        lemma_holds_extend(1, t, w);
    }
}

/// A string starts with at most one term.
proof fn lemma_one_front(w: Seq<u8>, n: int, t: Seq<u8>)
    requires
        0 <= n <= w.len(),
        is_term(w.take(n)),
        is_term(t),
        t.is_prefix_of(w),
    ensures
        n == t.len(),
        t == w.take(n),
{
    let a = w.take(n);
    assert(t =~= w.take(t.len() as int));
    if n <= t.len() {
        assert(a =~= t.take(n));
        lemma_prefix_free(1, a, t);
    } else {
        assert(t =~= a.take(t.len() as int));
        lemma_prefix_free(1, t, a);
    }
}

proof fn lemma_ground_answer(bytes: &[u8], t: Seq<u8>, g: bool)
    requires
        is_term(t),
        t.is_prefix_of(bytes@),
        call_ensures(first_subterm_is_ground, (bytes,), g),
    ensures
        g == is_ground(t),
{
    let n = choose|n: int|
        0 <= n <= bytes@.len() && is_term(#[trigger] bytes@.take(n)) && g == is_ground(
            bytes@.take(n),
        );
    lemma_one_front(bytes@, n, t);
}

/// The parsers agree on the term that a string starts with: they can be asked for it, and they say
/// how long it is and whether it has a variable in it.
pub proof fn lemma_parsers_agree(bytes: &[u8], t: Seq<u8>)
    requires
        is_term(t),
        t.is_prefix_of(bytes@),
    ensures
        call_requires(parse_first_subterm, (bytes,)),
        call_requires(first_subterm_len, (bytes,)),
        call_requires(first_subterm_is_ground, (bytes,)),
        forall|r: (usize, bool)|
            call_ensures(parse_first_subterm, (bytes,), r) ==> r == (t.len() as usize, is_ground(t))
                && r.0 == t.len(),
        forall|n: usize| call_ensures(first_subterm_len, (bytes,), n) ==> n == t.len(),
        forall|g: bool| call_ensures(first_subterm_is_ground, (bytes,), g) ==> g == is_ground(t),
        forall|r: Option<usize>|
            call_ensures(complete_len, (bytes,), r) ==> r is Some && r->0 == t.len(),
        forall|r: bool| call_ensures(is_complete, (bytes,), r) ==> r == (bytes@ == t),
{
    lemma_front_term(bytes@);
    assert(t =~= bytes@.take(t.len() as int));
    assert forall|r: (usize, bool)| call_ensures(parse_first_subterm, (bytes,), r) implies r == (
        t.len() as usize,
        is_ground(t),
    ) && r.0 == t.len() by {
        lemma_one_front(bytes@, r.0 as int, t);
    }
    assert forall|n: usize| call_ensures(first_subterm_len, (bytes,), n) implies n == t.len() by {
        lemma_one_front(bytes@, n as int, t);
    }
    assert forall|g: bool| call_ensures(first_subterm_is_ground, (bytes,), g) implies g == is_ground(
        t,
    ) by {
        lemma_ground_answer(bytes, t, g);
    }
    assert forall|r: Option<usize>| call_ensures(complete_len, (bytes,), r) implies r is Some && r->0
        == t.len() by {
        if r is Some {
            lemma_one_front(bytes@, r->0 as int, t);
        }
    }
    assert forall|r: bool| call_ensures(is_complete, (bytes,), r) implies r == (bytes@ == t) by {
        if is_term(bytes@) {
            assert(bytes@.take(bytes@.len() as int) =~= bytes@);
            lemma_one_front(bytes@, bytes@.len() as int, t);
        }
    }
}

/// A string that starts with no term has no complete length, and is not complete.
pub proof fn lemma_parsers_refuse(bytes: &[u8])
    requires
        forall|t: Seq<u8>| #[trigger] is_term(t) ==> !t.is_prefix_of(bytes@),
    ensures
        forall|r: Option<usize>| call_ensures(complete_len, (bytes,), r) ==> r is None,
        forall|r: bool| call_ensures(is_complete, (bytes,), r) ==> !r,
{
    lemma_front_term(bytes@);
    assert forall|r: Option<usize>| call_ensures(complete_len, (bytes,), r) implies r is None by {
        if r is Some {
            let t = bytes@.take(r->0 as int);
            assert(t.is_prefix_of(bytes@));
        }
    }
    assert forall|r: bool| call_ensures(is_complete, (bytes,), r) implies !r by {
        if r {
            assert(bytes@.is_prefix_of(bytes@));
        }
    }
}

} // verus!
