//! The trail of bindings in plain terms: what one call leaves for the next to find.

use vstd::prelude::*;
use crate::env::{Assignment, Env, Resolved};

verus! {

/// Asked for the value of variable `id`, the trail answers `g`.
pub open spec fn has_value(env: Env, id: usize, g: Option<Seq<u8>>) -> bool {
    forall|r: Option<Vec<u8>>| #[trigger]
        call_ensures(Env::ground_of, (&env, id), r) ==> match (r, g) {
            (Some(x), Some(y)) => x@ == y,
            (None, None) => true,
            _ => false,
        }
}

proof fn lemma_answer(env: Env, id: usize, r: Option<Vec<u8>>)
    requires
        call_ensures(Env::ground_of, (&env, id), r),
    ensures
        match r {
            Some(g) => env.determines(id as int, g@),
            None => env.leaves_open(id as int),
        },
{
}

/// What a variable has as its value is what every allowed assignment gives it.
proof fn lemma_has_value(env: Env, id: usize, g: Option<Seq<u8>>)
    requires
        env.wf(),
        match g {
            Some(g) => env.determines(id as int, g),
            None => env.leaves_open(id as int),
        },
    ensures
        has_value(env, id, g),
{
    let s = env.lemma_free(|x: int| Seq::empty());
    assert forall|r: Option<Vec<u8>>| #[trigger]
        call_ensures(Env::ground_of, (&env, id), r) implies match (r, g) {
        (Some(x), Some(y)) => x@ == y,
        (None, None) => true,
        _ => false,
    } by {
        lemma_answer(env, id, r);
        match (r, g) {
            (Some(x), Some(y)) => {
                assert(s(id as int) == x@);
                assert(s(id as int) == y);
            },
            (Some(x), None) => {
                assert(env.determines(id as int, x@));
            },
            (None, Some(y)) => {
                assert(env.determines(id as int, y));
            },
            (None, None) => {},
        }
    }
}

/// A variable that is not determined can have any value.
proof fn lemma_can_be(env: Env, id: int, g: Seq<u8>) -> (s: Assignment)
    requires
        env.wf(),
        0 <= id < env.ids(),
        forall|h: Seq<u8>| !#[trigger] env.determines(id, h),
    ensures
        env.allows(s),
        s(id) == g,
{
    let r = env.lemma_root(id);
    let s = env.lemma_free(|x: int| g);
    if r is None {
        let h = choose|h: Seq<u8>| env.determines(id, h);
        assert(false);
    }
    s
}

/// A variable of a new trail has no value, and is its own representative.
pub proof fn lemma_new_free(nvars: usize, env: Env, id: usize)
    requires
        call_ensures(Env::new, (nvars,), env),
        id < nvars,
    ensures
        has_value(env, id, None),
        forall|r: Resolved| #[trigger]
            call_ensures(Env::resolve, (&env, id), r) ==> r == Resolved::Var(id),
{
    let i = id as int;
    assert(env.at(i) is None);
    assert forall|g: Seq<u8>| !#[trigger] env.determines(i, g) by {
        let s = env.lemma_free(|x: int| g.push(0));
        assert(s(i) == g.push(0));
        assert(s(i).len() != g.len());
    }
    lemma_has_value(env, id, None);
    assert forall|r: Resolved| #[trigger] call_ensures(Env::resolve, (&env, id), r) implies r
        == Resolved::Var(id) by {
        match r {
            Resolved::Var(v) => {
                assert(env.at(v as int) is None);
                let free: Assignment = |x: int|
                    if x == i {
                        seq![1u8]
                    } else {
                        seq![]
                    };
                let s = env.lemma_free(free);
                assert(s(i) == free(i));
                assert(s(v as int) == free(v as int));
                assert(s(i) == s(v as int));
                assert(free(i).len() == 1);
            },
            Resolved::Ground(g) => {
                assert(env.determines(i, g@));
            },
        }
    }
}

/// A variable takes the value that it is unified with, unless it has another one. It then keeps its
/// value, and so does every variable that has one.
pub proof fn lemma_unified_value(
    env: &mut Env,
    id: usize,
    g: &[u8],
    ok: bool,
    had: Option<Vec<u8>>,
    other: usize,
    other_had: Option<Vec<u8>>,
)
    requires
        old(env).wf(),
        id < old(env).ids(),
        other < old(env).ids(),
        call_ensures(Env::unify_var_ground, (env, id, g), ok),
        call_ensures(Env::ground_of, (&*old(env), id), had),
        call_ensures(Env::ground_of, (&*old(env), other), other_had),
    ensures
        ok == match had {
            Some(h) => h@ == g@,
            None => true,
        },
        ok ==> has_value(*final(env), id, Some(g@)),
        other_had matches Some(h) ==> has_value(*final(env), other, Some(h@)),
        !ok && other_had is None ==> has_value(*final(env), other, None),
{
    let before = *old(env);
    let now = *final(env);
    lemma_answer(before, id, had);
    lemma_answer(before, other, other_had);
    let s0 = before.lemma_free(|x: int| Seq::empty());
    match had {
        Some(h) => {
            assert(s0(id as int) == h@);
            if h@ == g@ {
                assert(before.allows(s0) && s0(id as int) == g@);
            }
        },
        None => {
            let s = lemma_can_be(before, id as int, g@);
            assert(before.allows(s) && s(id as int) == g@);
        },
    }
    if ok {
        assert(now.determines(id as int, g@)) by {
            assert forall|s: Assignment| #[trigger] now.allows(s) implies s(id as int) == g@ by {
                assert(now.allows(s) == (before.allows(s) && (ok ==> s(id as int) == g@)));
            }
        }
        lemma_has_value(now, id, Some(g@));
    }
    match other_had {
        Some(h) => {
            assert forall|s: Assignment| #[trigger] now.allows(s) implies s(other as int) == h@ by {
                assert(before.allows(s));
            }
            lemma_has_value(now, other, Some(h@));
        },
        None => {
            if !ok {
                assert forall|h: Seq<u8>| !#[trigger] now.determines(other as int, h) by {
                    assert(!before.determines(other as int, h));
                    let s = choose|s: Assignment| #[trigger]
                        before.allows(s) && s(other as int) != h;
                    assert(now.allows(s));
                }
                lemma_has_value(now, other, None);
            }
        },
    }
}

/// Two variables are unified unless they have different values, and then the one takes the value of
/// the other. Every variable that has a value keeps it.
pub proof fn lemma_unified_variables(
    env: &mut Env,
    a: usize,
    b: usize,
    ok: bool,
    a_had: Option<Vec<u8>>,
    b_had: Option<Vec<u8>>,
)
    requires
        old(env).wf(),
        a < old(env).ids(),
        b < old(env).ids(),
        call_ensures(Env::unify_var_var, (env, a, b), ok),
        call_ensures(Env::ground_of, (&*old(env), a), a_had),
        call_ensures(Env::ground_of, (&*old(env), b), b_had),
    ensures
        ok == match (a_had, b_had) {
            (Some(x), Some(y)) => x@ == y@,
            _ => true,
        },
        a_had matches Some(x) ==> has_value(*final(env), a, Some(x@)) && (ok ==> has_value(
            *final(env),
            b,
            Some(x@),
        )),
        b_had matches Some(y) ==> has_value(*final(env), b, Some(y@)) && (ok ==> has_value(
            *final(env),
            a,
            Some(y@),
        )),
{
    let before = *old(env);
    let now = *final(env);
    lemma_answer(before, a, a_had);
    lemma_answer(before, b, b_had);
    let s0 = before.lemma_free(|x: int| Seq::empty());
    match (a_had, b_had) {
        (Some(x), Some(y)) => {
            assert(s0(a as int) == x@ && s0(b as int) == y@);
        },
        (Some(x), None) => {
            let s = lemma_can_be(before, b as int, x@);
            assert(before.allows(s) && s(a as int) == s(b as int));
        },
        (None, Some(y)) => {
            let s = lemma_can_be(before, a as int, y@);
            assert(before.allows(s) && s(a as int) == s(b as int));
        },
        (None, None) => {
            let r = before.lemma_root(a as int);
            let t = before.lemma_root(b as int);
            if r is None {
                let h = choose|h: Seq<u8>| before.determines(a as int, h);
                assert(false);
            }
            if t is None {
                let h = choose|h: Seq<u8>| before.determines(b as int, h);
                assert(false);
            }
            assert(before.allows(s0) && s0(a as int) == s0(b as int));
        },
    }
    assert forall|s: Assignment| #[trigger] now.allows(s) implies before.allows(s) && (ok ==> s(
        a as int,
    ) == s(b as int)) by {}
    if a_had is Some {
        let x = a_had->0@;
        assert(now.determines(a as int, x));
        lemma_has_value(now, a, Some(x));
        if ok {
            assert(now.determines(b as int, x));
            lemma_has_value(now, b, Some(x));
        }
    }
    if b_had is Some {
        let y = b_had->0@;
        assert(now.determines(b as int, y));
        lemma_has_value(now, b, Some(y));
        if ok {
            assert(now.determines(a as int, y));
            lemma_has_value(now, a, Some(y));
        }
    }
}

/// Two variables that were unified take a value together: what the one is unified with next is the
/// value of the other too.
pub proof fn lemma_alias_carries(
    first: &mut Env,
    second: &mut Env,
    a: usize,
    b: usize,
    g: &[u8],
)
    requires
        old(first).wf(),
        a < old(first).ids(),
        b < old(first).ids(),
        call_ensures(Env::unify_var_var, (first, a, b), true),
        *old(second) == *final(first),
        call_ensures(Env::unify_var_ground, (second, a, g), true),
    ensures
        has_value(*final(second), a, Some(g@)),
        has_value(*final(second), b, Some(g@)),
{
    let mid = *final(first);
    let now = *final(second);
    assert forall|s: Assignment| #[trigger] now.allows(s) implies s(a as int) == g@ && s(b as int)
        == g@ by {
        assert(mid.allows(s));
    }
    assert(now.determines(a as int, g@) && now.determines(b as int, g@));
    lemma_has_value(now, a, Some(g@));
    lemma_has_value(now, b, Some(g@));
}

/// A fresh variable is the next one, and has no value. The others keep theirs.
pub proof fn lemma_fresh_free(env: &mut Env, id: usize, other: usize, other_had: Option<Vec<u8>>)
    requires
        old(env).wf(),
        other < old(env).ids(),
        call_ensures(Env::fresh, (env,), id),
        call_ensures(Env::ground_of, (&*old(env), other), other_had),
    ensures
        id == old(env).ids(),
        final(env).ids() == old(env).ids() + 1,
        has_value(*final(env), id, None),
        has_value(
            *final(env),
            other,
            match other_had {
                Some(h) => Some(h@),
                None => None,
            },
        ),
{
    let before = *old(env);
    let now = *final(env);
    lemma_answer(before, other, other_had);
    assert(now.at(id as int) is None);
    assert forall|g: Seq<u8>| !#[trigger] now.determines(id as int, g) by {
        let s = now.lemma_free(|x: int| g.push(0));
        assert(s(id as int) == g.push(0));
        assert(s(id as int).len() != g.len());
    }
    lemma_has_value(now, id, None);
    lemma_same_value(before, now, other, other_had);
}

/// Trails that allow the same assignments give the same answers.
proof fn lemma_same_value(before: Env, now: Env, id: usize, had: Option<Vec<u8>>)
    requires
        now.wf(),
        forall|s: Assignment| #[trigger] now.allows(s) == before.allows(s),
        call_ensures(Env::ground_of, (&before, id), had),
    ensures
        has_value(
            now,
            id,
            match had {
                Some(h) => Some(h@),
                None => None,
            },
        ),
{
    lemma_answer(before, id, had);
    match had {
        Some(h) => {
            assert forall|s: Assignment| #[trigger] now.allows(s) implies s(id as int) == h@ by {
                assert(before.allows(s));
            }
            assert(now.determines(id as int, h@));
            lemma_has_value(now, id, Some(h@));
        },
        None => {
            assert forall|h: Seq<u8>| !#[trigger] now.determines(id as int, h) by {
                assert(!before.determines(id as int, h));
                let s = choose|s: Assignment| #[trigger] before.allows(s) && s(id as int) != h;
                assert(now.allows(s));
            }
            lemma_has_value(now, id, None);
        },
    }
}

/// Going back to a mark undoes what was bound since, however much it was: every variable that there
/// was at the mark has again the value that it had then.
pub proof fn lemma_mark_restores(
    base: &Env,
    m: usize,
    env: &mut Env,
    id: usize,
    had: Option<Vec<u8>>,
)
    requires
        base.wf(),
        old(env).wf(),
        old(env).grew_from(base),
        id < base.ids(),
        call_ensures(Env::mark, (base,), m),
        call_ensures(Env::ground_of, (base, id), had),
        call_ensures(Env::rollback, (env, m), ()),
    ensures
        has_value(
            *final(env),
            id,
            match had {
                Some(h) => Some(h@),
                None => None,
            },
        ),
{
    let grown = *old(env);
    let now = *final(env);
    now.lemma_rollback(&grown, base);
    lemma_same_value(*base, now, id, had);
}

/// A variable resolves to its value if it has one. Otherwise it resolves to a variable without a
/// value, and takes the value that this one is unified with.
pub proof fn lemma_resolved(
    env: Env,
    id: usize,
    r: Resolved,
    had: Option<Vec<u8>>,
    next: &mut Env,
    g: &[u8],
    ok: bool,
)
    requires
        env.wf(),
        id < env.ids(),
        call_ensures(Env::resolve, (&env, id), r),
        call_ensures(Env::ground_of, (&env, id), had),
        *old(next) == env,
        r matches Resolved::Var(v) ==> call_ensures(Env::unify_var_ground, (next, v, g), ok),
    ensures
        match r {
            Resolved::Ground(x) => had is Some && had->0@ == x@,
            Resolved::Var(v) => {
                &&& had is None
                &&& v < env.ids()
                &&& has_value(env, v, None)
                &&& ok
                &&& has_value(*final(next), v, Some(g@))
                &&& has_value(*final(next), id, Some(g@))
            },
        },
{
    lemma_answer(env, id, had);
    let s0 = env.lemma_free(|x: int| Seq::empty());
    match r {
        Resolved::Ground(x) => {
            assert(env.determines(id as int, x@));
            assert(s0(id as int) == x@);
        },
        Resolved::Var(v) => {
            let now = *final(next);
            assert(env.at(v as int) is None);
            lemma_root_equal(env, id, r);
            assert forall|h: Seq<u8>| !#[trigger] env.determines(v as int, h) by {
                let s = env.lemma_free(|x: int| h.push(0));
                assert(s(v as int) == h.push(0));
                assert(s(v as int).len() != h.len());
            }
            assert forall|h: Seq<u8>| !#[trigger] env.determines(id as int, h) by {
                assert(!env.determines(v as int, h));
                let s = choose|s: Assignment| #[trigger] env.allows(s) && s(v as int) != h;
                assert(s(id as int) == s(v as int));
            }
            lemma_has_value(env, v, None);
            let t = lemma_can_be(env, v as int, g@);
            assert(env.allows(t) && t(v as int) == g@);
            assert forall|s: Assignment| #[trigger] now.allows(s) implies s(v as int) == g@ && s(
                id as int,
            ) == g@ by {
                assert(env.allows(s));
            }
            assert(now.determines(v as int, g@) && now.determines(id as int, g@));
            lemma_has_value(now, v, Some(g@));
            lemma_has_value(now, id, Some(g@));
        },
    }
}

proof fn lemma_root_equal(env: Env, id: usize, r: Resolved)
    requires
        call_ensures(Env::resolve, (&env, id), r),
        r is Var,
    ensures
        forall|s: Assignment| #[trigger] env.allows(s) ==> s(id as int) == s(r->Var_0 as int),
{
}


/// Of the variables without a value, those that resolve to the one that was unified take its value,
/// and the others stay without.
pub proof fn lemma_unified_others(
    env: &mut Env,
    id: usize,
    g: &[u8],
    ok: bool,
    rep: usize,
    other: usize,
    other_rep: usize,
)
    requires
        old(env).wf(),
        id < old(env).ids(),
        other < old(env).ids(),
        call_ensures(Env::resolve, (&*old(env), id), Resolved::Var(rep)),
        call_ensures(Env::resolve, (&*old(env), other), Resolved::Var(other_rep)),
        call_ensures(Env::unify_var_ground, (env, id, g), ok),
    ensures
        ok,
        other_rep == rep ==> has_value(*final(env), other, Some(g@)),
        other_rep != rep ==> has_value(*final(env), other, None),
{
    let before = *old(env);
    let now = *final(env);
    lemma_root_equal(before, id, Resolved::Var(rep));
    lemma_root_equal(before, other, Resolved::Var(other_rep));
    assert(before.at(rep as int) is None && before.at(other_rep as int) is None);
    let s0 = before.lemma_free(|x: int| g@);
    assert(s0(rep as int) == g@);
    assert(before.allows(s0) && s0(id as int) == g@);
    if other_rep == rep {
        assert forall|s: Assignment| #[trigger] now.allows(s) implies s(other as int) == g@ by {
            assert(before.allows(s));
        }
        assert(now.determines(other as int, g@));
        lemma_has_value(now, other, Some(g@));
    } else {
        assert forall|h: Seq<u8>| !#[trigger] now.determines(other as int, h) by {
            let free: Assignment = |x: int|
                if x == rep as int {
                    g@
                } else {
                    h.push(0)
                };
            let s = before.lemma_free(free);
            assert(s(rep as int) == free(rep as int));
            assert(s(other_rep as int) == free(other_rep as int));
            assert(s(other as int) == h.push(0));
            assert(now.allows(s));
            assert(h.push(0).len() != h.len());
        }
        lemma_has_value(now, other, None);
    }
}

/// Unifying two variables without a value gives no variable a value.
pub proof fn lemma_unified_free(
    env: &mut Env,
    a: usize,
    b: usize,
    ok: bool,
    a_rep: usize,
    b_rep: usize,
    other: usize,
    other_rep: usize,
)
    requires
        old(env).wf(),
        a < old(env).ids(),
        b < old(env).ids(),
        other < old(env).ids(),
        call_ensures(Env::resolve, (&*old(env), a), Resolved::Var(a_rep)),
        call_ensures(Env::resolve, (&*old(env), b), Resolved::Var(b_rep)),
        call_ensures(Env::resolve, (&*old(env), other), Resolved::Var(other_rep)),
        call_ensures(Env::unify_var_var, (env, a, b), ok),
    ensures
        ok,
        has_value(*final(env), other, None),
{
    let before = *old(env);
    let now = *final(env);
    lemma_root_equal(before, a, Resolved::Var(a_rep));
    lemma_root_equal(before, b, Resolved::Var(b_rep));
    lemma_root_equal(before, other, Resolved::Var(other_rep));
    assert(before.at(a_rep as int) is None && before.at(b_rep as int) is None);
    assert(before.at(other_rep as int) is None);
    let s0 = before.lemma_free(|x: int| Seq::empty());
    assert(s0(a_rep as int) == s0(b_rep as int));
    assert(before.allows(s0) && s0(a as int) == s0(b as int));
    assert forall|h: Seq<u8>| !#[trigger] now.determines(other as int, h) by {
        let s = before.lemma_free(|x: int| h.push(0));
        assert(s(a_rep as int) == s(b_rep as int));
        assert(s(other_rep as int) == h.push(0));
        assert(now.allows(s));
        assert(h.push(0).len() != h.len());
    }
    lemma_has_value(now, other, None);
}

/// What one unification did is undone by going back to the mark before it.
pub proof fn lemma_unify_undone(
    env: &mut Env,
    id: usize,
    g: &[u8],
    ok: bool,
    m: usize,
    back: &mut Env,
    other: usize,
    had: Option<Vec<u8>>,
)
    requires
        old(env).wf(),
        other < old(env).ids(),
        call_ensures(Env::mark, (&*old(env),), m),
        call_ensures(Env::ground_of, (&*old(env), other), had),
        call_ensures(Env::unify_var_ground, (env, id, g), ok),
        *old(back) == *final(env),
        call_ensures(Env::rollback, (back, m), ()),
    ensures
        has_value(
            *final(back),
            other,
            match had {
                Some(h) => Some(h@),
                None => None,
            },
        ),
{
    let base = *old(env);
    let grown = *final(env);
    let now = *final(back);
    now.lemma_rollback(&grown, &base);
    lemma_same_value(base, now, other, had);
}

/// So is what the unification of two variables did.
pub proof fn lemma_alias_undone(
    env: &mut Env,
    a: usize,
    b: usize,
    ok: bool,
    m: usize,
    back: &mut Env,
    other: usize,
    had: Option<Vec<u8>>,
)
    requires
        old(env).wf(),
        other < old(env).ids(),
        call_ensures(Env::mark, (&*old(env),), m),
        call_ensures(Env::ground_of, (&*old(env), other), had),
        call_ensures(Env::unify_var_var, (env, a, b), ok),
        *old(back) == *final(env),
        call_ensures(Env::rollback, (back, m), ()),
    ensures
        has_value(
            *final(back),
            other,
            match had {
                Some(h) => Some(h@),
                None => None,
            },
        ),
{
    let base = *old(env);
    let grown = *final(env);
    let now = *final(back);
    now.lemma_rollback(&grown, &base);
    lemma_same_value(base, now, other, had);
}


} // verus!
