//! A trail of variable bindings: union-find over variables with ground byte strings as values.
//!
//! A term is either a ground byte string or a variable, so unification needs no structural
//! recursion. What a trail of bindings means is the set of assignments that it allows.

use vstd::prelude::*;
use crate::order::{bytes_eq, to_vec};

verus! {

/// A variable's binding: a ground value (its bytes) or an alias to another variable.
enum Bind {
    Ground(Vec<u8>),
    Alias(usize),
}

/// What a variable resolves to: still a free variable (its representative) or a ground value.
pub enum Resolved {
    Var(usize),
    Ground(Vec<u8>),
}

/// What a variable is bound to.
pub enum Value {
    Ground(Seq<u8>),
    Alias(int),
}

impl View for Bind {
    type V = Value;

    closed spec fn view(&self) -> Value {
        match self {
            Bind::Ground(g) => Value::Ground(g@),
            Bind::Alias(j) => Value::Alias(*j as int),
        }
    }
}

/// An assignment of byte strings to variables.
pub type Assignment = spec_fn(int) -> Seq<u8>;

/// Trail-based union-find unifier. Query variables hold ids `0..nvars`; stored data variables get
/// fresh ids past that. `mark` and `rollback` undo bindings one by one.
pub struct Env {
    slots: Vec<Option<Bind>>,
    trail: Vec<usize>,
}

impl Env {
    /// How many variables there are.
    pub closed spec fn ids(&self) -> nat {
        self.slots@.len()
    }

    /// What variable `id` is bound to.
    pub closed spec fn at(&self, id: int) -> Option<Value> {
        match self.slots@[id] {
            Some(b) => Some(b@),
            None => None,
        }
    }

    /// The bound variables, in the order in which they were bound.
    pub closed spec fn trail(&self) -> Seq<usize> {
        self.trail@
    }

    /// The trail lists the bound variables, each once, and an alias points at a variable that is
    /// free or was bound later.
    pub open spec fn wf(&self) -> bool {
        &&& forall|p: int|
            0 <= p < self.trail().len() ==> {
                &&& #[trigger] self.trail()[p] < self.ids()
                &&& self.at(self.trail()[p] as int) is Some
            }
        &&& forall|p: int, q: int|
            #![trigger self.trail()[p], self.trail()[q]]
            0 <= p < q < self.trail().len() ==> self.trail()[p] != self.trail()[q]
        &&& forall|id: int|
            0 <= id < self.ids() && (#[trigger] self.at(id)) is Some ==> self.trail().contains(
                id as usize,
            ) && id <= usize::MAX
        &&& forall|id: int|
            0 <= id < self.ids() ==> match #[trigger] self.at(id) {
                Some(Value::Alias(j)) => 0 <= j < self.ids(),
                _ => true,
            }
        &&& forall|p: int, q: int|
            #![trigger self.trail()[p], self.trail()[q]]
            0 <= p < self.trail().len() && 0 <= q < self.trail().len() && self.at(
                self.trail()[p] as int,
            ) == Some(Value::Alias(self.trail()[q] as int)) ==> p < q
    }

    /// Assignment `s` agrees with the binding of variable `id`.
    pub open spec fn meets(&self, id: int, s: Assignment) -> bool {
        match self.at(id) {
            None => true,
            Some(Value::Ground(g)) => s(id) == g,
            Some(Value::Alias(j)) => s(id) == s(j),
        }
    }

    /// Assignment `s` agrees with every binding.
    pub open spec fn allows(&self, s: Assignment) -> bool {
        forall|id: int| 0 <= id < self.ids() ==> #[trigger] self.meets(id, s)
    }

    /// Every allowed assignment gives variable `id` the value `g`.
    pub open spec fn determines(&self, id: int, g: Seq<u8>) -> bool {
        forall|s: Assignment| #[trigger] self.allows(s) ==> s(id) == g
    }

    /// No value is given to variable `id` by every allowed assignment.
    pub open spec fn leaves_open(&self, id: int) -> bool {
        forall|g: Seq<u8>| !#[trigger] self.determines(id, g)
    }

    /// This trail goes on from `base`: it has the variables and bindings of `base`, and more.
    pub open spec fn grew_from(&self, base: &Env) -> bool {
        &&& base.ids() <= self.ids()
        &&& base.trail().len() <= self.trail().len()
        &&& self.trail().take(base.trail().len() as int) == base.trail()
        &&& forall|id: int|
            0 <= id < base.ids() && (#[trigger] base.at(id)) is Some ==> self.at(id) == base.at(id)
    }

    /// This is `base` with more variables, all of them free.
    pub open spec fn restores(&self, base: &Env) -> bool {
        &&& base.ids() <= self.ids()
        &&& self.trail() == base.trail()
        &&& forall|id: int|
            0 <= id < base.ids() ==> #[trigger] self.at(id) == base.at(id)
        &&& forall|id: int|
            base.ids() <= id < self.ids() ==> (#[trigger] self.at(id)) is None
    }

    /// The bindings made after the first `m` are gone.
    pub open spec fn rolled_back(&self, before: &Env, m: nat) -> bool {
        &&& self.ids() == before.ids()
        &&& self.trail() == if m <= before.trail().len() {
            before.trail().take(m as int)
        } else {
            before.trail()
        }
        &&& forall|id: int|
            0 <= id < self.ids() ==> #[trigger] self.at(id) == if undone(before.trail(), m, id) {
                None
            } else {
                before.at(id)
            }
    }

    /// An assignment for the variables bound from position `p` of the trail on, over `free`.
    spec fn fill(&self, p: int, free: Assignment) -> Assignment
        decreases self.trail().len() - p,
    {
        if p < 0 || p >= self.trail().len() {
            free
        } else {
            let rest = self.fill(p + 1, free);
            let id = self.trail()[p] as int;
            let value = match self.at(id) {
                Some(Value::Ground(g)) => g,
                Some(Value::Alias(j)) => rest(j),
                None => rest(id),
            };
            |x: int|
                if x == id {
                    value
                } else {
                    rest(x)
                }
        }
    }

    proof fn lemma_fill_stable(&self, p: int, r: int, free: Assignment, x: int)
        requires
            0 <= p <= r <= self.trail().len(),
            forall|q: int| p <= q < r ==> #[trigger] self.trail()[q] != x,
        ensures
            self.fill(p, free)(x) == self.fill(r, free)(x),
        decreases r - p,
    {
        if p < r {
            self.lemma_fill_stable(p + 1, r, free, x);
            assert(self.trail()[p] != x);
        }
    }

    /// Free variables are independent: whatever they are given, the others can be given values
    /// that agree with every binding.
    pub proof fn lemma_free(&self, free: Assignment) -> (s: Assignment)
        requires
            self.wf(),
        ensures
            self.allows(s),
            forall|id: int| 0 <= id < self.ids() && self.at(id) is None ==> #[trigger] s(id) == free(id),
    {
        let s = self.fill(0, free);
        let n = self.trail().len() as int;
        assert forall|id: int| 0 <= id < self.ids() implies #[trigger] self.meets(id, s) by {
            if self.at(id) is Some {
                assert(self.trail().contains(id as usize));
                let p = choose|p: int| 0 <= p < n && self.trail()[p] == id as usize;
                assert forall|q: int| 0 <= q < p implies #[trigger] self.trail()[q] != id by {
                    assert(self.trail()[p] == id as usize);
                }
                self.lemma_fill_stable(0, p, free, id);
                match self.at(id) {
                    Some(Value::Alias(j)) => {
                        assert forall|q: int| 0 <= q < p + 1 implies #[trigger] self.trail()[q] != j by {
                            if self.trail()[q] == j {
                                assert(self.at(self.trail()[p] as int) == Some(
                                    Value::Alias(self.trail()[q] as int),
                                ));
                            }
                        }
                        self.lemma_fill_stable(0, p + 1, free, j);
                    },
                    _ => {},
                }
            }
        }
        assert forall|id: int| 0 <= id < self.ids() && self.at(id) is None implies #[trigger] s(id)
            == free(id) by {
            assert forall|q: int| 0 <= q < n implies #[trigger] self.trail()[q] != id by {}
            self.lemma_fill_stable(0, n, free, id);
        }
        s
    }

    /// Rolling back to a mark undoes everything since: the bindings are those that there were, and
    /// the variables made since are free.
    pub proof fn lemma_rollback(&self, grown: &Env, base: &Env)
        requires
            base.wf(),
            grown.wf(),
            grown.grew_from(base),
            self.rolled_back(grown, base.trail().len()),
        ensures
            self.wf(),
            self.restores(base),
            forall|s: Assignment| #[trigger] self.allows(s) == base.allows(s),
    {
        let m = base.trail().len();
        let t = grown.trail();
        assert forall|p: int| 0 <= p < m implies #[trigger] base.trail()[p] == t[p] by {
            assert(t.take(m as int)[p] == t[p]);
        }
        assert forall|id: int| 0 <= id < base.ids() implies #[trigger] self.at(id) == base.at(id) by {
            if undone(t, m, id) {
                let p = choose|p: int| m <= p < t.len() && #[trigger] t[p] == id;
                if base.at(id) is Some {
                    assert(base.trail().contains(id as usize));
                    let q = choose|q: int| 0 <= q < m && base.trail()[q] == id as usize;
                    assert(t[q] == t[p]);
                }
            } else if grown.at(id) is Some {
                assert(t.contains(id as usize));
                let p = choose|p: int| 0 <= p < t.len() && t[p] == id as usize;
                assert(p < m);
                assert(base.trail()[p] == id);
                assert(base.at(base.trail()[p] as int) is Some);
            }
        }
        assert forall|id: int| base.ids() <= id < self.ids() implies (#[trigger] self.at(
            id,
        )) is None by {
            if grown.at(id) is Some {
                assert(t.contains(id as usize));
                let p = choose|p: int| 0 <= p < t.len() && t[p] == id as usize;
                if p < m {
                    assert(base.trail()[p] < base.ids());
                }
                assert(undone(t, m, id));
            }
        }
        self.lemma_restores(base);
    }

    /// A restored trail allows what it allowed before.
    pub proof fn lemma_restores(&self, base: &Env)
        requires
            base.wf(),
            self.restores(base),
        ensures
            self.wf(),
            forall|s: Assignment| #[trigger] self.allows(s) == base.allows(s),
    {
        assert forall|p: int| 0 <= p < self.trail().len() implies {
            &&& #[trigger] self.trail()[p] < self.ids()
            &&& self.at(self.trail()[p] as int) is Some
        } by {
            assert(base.trail()[p] < base.ids());
            assert(self.at(self.trail()[p] as int) == base.at(self.trail()[p] as int));
        }
        assert forall|p: int, q: int|
            #![trigger self.trail()[p], self.trail()[q]]
            0 <= p < self.trail().len() && 0 <= q < self.trail().len() && self.at(
                self.trail()[p] as int,
            ) == Some(Value::Alias(self.trail()[q] as int)) implies p < q by {
            assert(base.trail()[p] < base.ids());
            assert(self.at(self.trail()[p] as int) == base.at(base.trail()[p] as int));
            assert(base.trail()[q] < base.ids());
        }
        assert forall|s: Assignment| #[trigger] self.allows(s) == base.allows(s) by {
            if self.allows(s) {
                assert forall|id: int| 0 <= id < base.ids() implies #[trigger] base.meets(id, s) by {
                    assert(self.meets(id, s));
                }
            }
            if base.allows(s) {
                assert forall|id: int| 0 <= id < self.ids() implies #[trigger] self.meets(id, s) by {
                    if id < base.ids() {
                        assert(base.meets(id, s));
                    } else {
                        assert(self.at(id) is None);
                    }
                }
            }
        }
    }

    /// Variables `0..nvars`, all free.
    pub fn new(nvars: usize) -> (env: Env)
        ensures
            env.wf(),
            env.ids() == nvars,
            env.trail().len() == 0,
            forall|id: int| 0 <= id < nvars ==> (#[trigger] env.at(id)) is None,
    {
        let mut slots: Vec<Option<Bind>> = Vec::new();
        while slots.len() < nvars
            invariant
                slots@.len() <= nvars,
                forall|id: int| 0 <= id < slots@.len() ==> (#[trigger] slots@[id]) is None,
            decreases nvars - slots@.len(),
        {
            slots.push(None);
        }
        Env { slots, trail: Vec::new() }
    }

    /// Allocate a fresh (free) variable, for a stored data variable.
    pub fn fresh(&mut self) -> (id: usize)
        requires
            old(self).wf(),
        ensures
            id == old(self).ids(),
            final(self).ids() == old(self).ids() + 1,
            final(self).restores(old(self)),
            final(self).wf(),
            forall|s: Assignment| #[trigger] final(self).allows(s) == old(self).allows(s),
    {
        let ghost before = *self;
        self.slots.push(None);
        proof {
            self.lemma_restores(&before);
        }
        self.slots.len() - 1
    }

    /// How far the trail has come.
    pub fn mark(&self) -> (m: usize)
        ensures
            m == self.trail().len(),
    {
        self.trail.len()
    }

    /// Undo the bindings made since the trail was at `m`.
    pub fn rollback(&mut self, m: usize)
        requires
            old(self).wf(),
        ensures
            final(self).wf(),
            final(self).rolled_back(old(self), m as nat),
    {
        let ghost before = *self;
        let ghost n = if m <= before.trail().len() {
            m as int
        } else {
            before.trail().len() as int
        };
        while self.trail.len() > m
            invariant
                before == *old(self),
                before.wf(),
                n == if m <= before.trail().len() {
                    m as int
                } else {
                    before.trail().len() as int
                },
                n <= self.trail@.len() <= before.trail().len(),
                self.trail@ == before.trail().take(self.trail@.len() as int),
                self.ids() == before.ids(),
                forall|id: int|
                    0 <= id < self.ids() ==> #[trigger] self.at(id) == if undone(
                        before.trail(),
                        self.trail@.len(),
                        id,
                    ) {
                        None
                    } else {
                        before.at(id)
                    },
            decreases self.trail@.len(),
        {
            let ghost prev = *self;
            let len = self.trail.len();
            if let Some(id) = self.trail.pop() {
                proof {
                    assert(before.trail()[len - 1] == id);
                }
                self.slots[id] = None;
                proof {
                    assert(self.trail@ =~= before.trail().take(len - 1));
                    assert forall|x: int| 0 <= x < self.ids() implies #[trigger] self.at(x)
                        == if undone(before.trail(), (len - 1) as nat, x) {
                        None
                    } else {
                        before.at(x)
                    } by {
                        assert(undone(before.trail(), (len - 1) as nat, x) == (x == id || undone(
                            before.trail(),
                            len as nat,
                            x,
                        )));
                        if x != id {
                            assert(self.at(x) == prev.at(x));
                        }
                    }
                }
            }
        }
        proof {
            assert(before.trail().take(before.trail().len() as int) =~= before.trail());
            self.lemma_rolled_wf(&before, m as nat);
        }
    }

    proof fn lemma_rolled_wf(&self, before: &Env, m: nat)
        requires
            before.wf(),
            self.rolled_back(before, m),
        ensures
            self.wf(),
    {
        let t = before.trail();
        let n = self.trail().len() as int;
        assert forall|p: int| 0 <= p < n implies {
            &&& self.trail()[p] == #[trigger] t[p]
            &&& t[p] < self.ids()
            &&& self.at(t[p] as int) == before.at(t[p] as int)
            &&& before.at(t[p] as int) is Some
        } by {
            if undone(t, m, t[p] as int) {
                let q = choose|q: int| m <= q < t.len() && #[trigger] t[q] == t[p] as int;
                assert(t[p] != t[q]);
            }
        }
        assert forall|p: int| 0 <= p < n implies {
            &&& #[trigger] self.trail()[p] < self.ids()
            &&& self.at(self.trail()[p] as int) is Some
        } by {
            assert(self.trail()[p] == t[p]);
        }
        assert forall|p: int, q: int|
            #![trigger self.trail()[p], self.trail()[q]]
            0 <= p < q < n implies self.trail()[p] != self.trail()[q] by {
            assert(self.trail()[p] == t[p] && self.trail()[q] == t[q]);
        }
        assert forall|id: int|
            0 <= id < self.ids() && (#[trigger] self.at(id)) is Some implies self.trail().contains(
            id as usize,
        ) && id <= usize::MAX by {
            assert(t.contains(id as usize));
            let p = choose|p: int| 0 <= p < t.len() && t[p] == id as usize;
            if p >= m {
                assert(undone(t, m, id));
            }
            assert(self.trail()[p] == t[p]);
        }
        assert forall|id: int| 0 <= id < self.ids() implies match #[trigger] self.at(id) {
            Some(Value::Alias(j)) => 0 <= j < self.ids(),
            _ => true,
        } by {
            assert(self.at(id) is None || self.at(id) == before.at(id));
        }
        assert forall|p: int, q: int|
            #![trigger self.trail()[p], self.trail()[q]]
            0 <= p < n && 0 <= q < n && self.at(self.trail()[p] as int) == Some(
                Value::Alias(self.trail()[q] as int),
            ) implies p < q by {
            assert(self.trail()[p] == t[p] && self.trail()[q] == t[q]);
        }
    }

    /// Follow the aliases of variable `id` to a free variable or a ground value.
    pub fn resolve(&self, id: usize) -> (r: Resolved)
        requires
            self.wf(),
            id < self.ids(),
        ensures
            match r {
                Resolved::Var(v) => {
                    &&& v < self.ids()
                    &&& self.at(v as int) is None
                    &&& forall|s: Assignment| #[trigger] self.allows(s) ==> s(id as int) == s(v as int)
                },
                Resolved::Ground(g) => self.determines(id as int, g@),
            },
    {
        let mut at = id;
        let ghost mut left: int = self.trail().len() as int + 1;
        loop
            invariant
                self.wf(),
                at < self.ids(),
                forall|s: Assignment| #[trigger] self.allows(s) ==> s(id as int) == s(at as int),
                self.at(at as int) is Some ==> self.trail().len() - left < self.place(at as int),
                left >= 0,
            decreases left,
        {
            proof {
                if self.at(at as int) is Some {
                    self.lemma_place(at as int);
                }
            }
            match &self.slots[at] {
                None => {
                    return Resolved::Var(at);
                },
                Some(Bind::Alias(j)) => {
                    proof {
                        assert(self.at(at as int) == Some(Value::Alias(*j as int)));
                        assert forall|s: Assignment| #[trigger] self.allows(s) implies s(id as int) == s(
                            *j as int,
                        ) by {
                            assert(self.meets(at as int, s));
                        }
                        if self.at(*j as int) is Some {
                            self.lemma_place(*j as int);
                            assert(self.trail()[self.place(at as int)] == at);
                            assert(self.trail()[self.place(*j as int)] == *j);
                        }
                        left = self.trail().len() - self.place(at as int);
                    }
                    at = *j;
                },
                Some(Bind::Ground(g)) => {
                    proof {
                        assert(self.at(at as int) == Some(Value::Ground(g@)));
                        assert forall|s: Assignment| #[trigger] self.allows(s) implies s(id as int) == g@ by {
                            assert(self.meets(at as int, s));
                        }
                    }
                    return Resolved::Ground(to_vec(g));
                },
            }
        }
    }

    /// Where variable `id` is on the trail.
    pub closed spec fn place(&self, id: int) -> int {
        choose|p: int| 0 <= p < self.trail().len() && #[trigger] self.trail()[p] == id
    }

    proof fn lemma_place(&self, id: int)
        requires
            self.wf(),
            0 <= id < self.ids(),
            self.at(id) is Some,
        ensures
            0 <= self.place(id) < self.trail().len(),
            self.trail()[self.place(id)] == id,
    {
        assert(self.trail().contains(id as usize));
        let p = choose|p: int| 0 <= p < self.trail().len() && self.trail()[p] == id as usize;
        assert(self.trail()[p] == id);
    }

    /// Along its aliases a variable is a free variable, or has a value.
    pub proof fn lemma_root(&self, id: int) -> (r: Option<int>)
        requires
            self.wf(),
            0 <= id < self.ids(),
        ensures
            match r {
                Some(v) => {
                    &&& 0 <= v < self.ids()
                    &&& self.at(v) is None
                    &&& forall|s: Assignment| #[trigger] self.allows(s) ==> s(id) == s(v)
                },
                None => exists|g: Seq<u8>| self.determines(id, g),
            },
        decreases
                self.trail().len() - if self.at(id) is Some {
                    self.place(id)
                } else {
                    self.trail().len() as int
                },
    {
        match self.at(id) {
            None => Some(id),
            Some(Value::Ground(g)) => {
                assert forall|s: Assignment| #[trigger] self.allows(s) implies s(id) == g by {
                    assert(self.meets(id, s));
                }
                assert(self.determines(id, g));
                None
            },
            Some(Value::Alias(j)) => {
                self.lemma_place(id);
                if self.at(j) is Some {
                    self.lemma_place(j);
                    assert(self.trail()[self.place(id)] == id);
                    assert(self.trail()[self.place(j)] == j);
                }
                let r = self.lemma_root(j);
                assert forall|s: Assignment| #[trigger] self.allows(s) implies s(id) == s(j) by {
                    assert(self.meets(id, s));
                }
                if r is None {
                    let g = choose|g: Seq<u8>| self.determines(j, g);
                    assert(self.determines(id, g));
                }
                r
            },
        }
    }

    /// Bind the free variable `id` to the ground value `g`.
    fn bind_ground(&mut self, id: usize, g: Vec<u8>)
        requires
            old(self).wf(),
            id < old(self).ids(),
            old(self).at(id as int) is None,
        ensures
            final(self).wf(),
            final(self).ids() == old(self).ids(),
            final(self).grew_from(old(self)),
            forall|s: Assignment| #[trigger]
                final(self).allows(s) == (old(self).allows(s) && s(id as int) == g@),
    {
        let ghost before = *self;
        self.slots[id] = Some(Bind::Ground(g));
        self.trail.push(id);
        proof {
            self.lemma_bound(&before, id, Value::Ground(g@));
        }
    }

    /// Make the free variable `id` an alias of another free variable `j`.
    fn bind_alias(&mut self, id: usize, j: usize)
        requires
            old(self).wf(),
            id < old(self).ids(),
            j < old(self).ids(),
            id != j,
            old(self).at(id as int) is None,
            old(self).at(j as int) is None,
        ensures
            final(self).wf(),
            final(self).ids() == old(self).ids(),
            final(self).grew_from(old(self)),
            forall|s: Assignment| #[trigger]
                final(self).allows(s) == (old(self).allows(s) && s(id as int) == s(j as int)),
    {
        let ghost before = *self;
        self.slots[id] = Some(Bind::Alias(j));
        self.trail.push(id);
        proof {
            self.lemma_bound(&before, id, Value::Alias(j as int));
        }
    }

    /// One more binding.
    proof fn lemma_bound(&self, before: &Env, id: usize, value: Value)
        requires
            before.wf(),
            id < before.ids(),
            before.at(id as int) is None,
            self.ids() == before.ids(),
            self.trail() == before.trail().push(id),
            forall|x: int|
                0 <= x < self.ids() ==> #[trigger] self.at(x) == if x == id {
                    Some(value)
                } else {
                    before.at(x)
                },
            match value {
                Value::Alias(j) => 0 <= j < before.ids() && j != id && before.at(j) is None,
                _ => true,
            },
        ensures
            self.wf(),
            self.grew_from(before),
            forall|s: Assignment| #[trigger]
                self.allows(s) == (before.allows(s) && match value {
                    Value::Ground(g) => s(id as int) == g,
                    Value::Alias(j) => s(id as int) == s(j),
                }),
    {
        let n = before.trail().len() as int;
        assert forall|p: int| 0 <= p < n implies self.trail()[p] == #[trigger] before.trail()[p]
            && before.trail()[p] != id by {
            assert(before.at(before.trail()[p] as int) is Some);
        }
        assert(self.trail()[n] == id);
        assert forall|p: int| 0 <= p < self.trail().len() implies {
            &&& #[trigger] self.trail()[p] < self.ids()
            &&& self.at(self.trail()[p] as int) is Some
        } by {
            if p < n {
                assert(before.trail()[p] < before.ids());
            }
        }
        assert forall|p: int, q: int|
            #![trigger self.trail()[p], self.trail()[q]]
            0 <= p < q < self.trail().len() implies self.trail()[p] != self.trail()[q] by {
            assert(before.trail()[p] == self.trail()[p]);
            if q < n {
                assert(before.trail()[q] == self.trail()[q]);
            }
        }
        assert forall|x: int| 0 <= x < self.ids() && (#[trigger] self.at(x)) is Some implies self.trail().contains(
            x as usize,
        ) && x <= usize::MAX by {
            if x != id {
                assert(before.trail().contains(x as usize));
                let p = choose|p: int| 0 <= p < n && before.trail()[p] == x as usize;
                assert(self.trail()[p] == x as usize);
            }
        }
        assert forall|x: int| 0 <= x < self.ids() implies match #[trigger] self.at(x) {
            Some(Value::Alias(j)) => 0 <= j < self.ids(),
            _ => true,
        } by {
            assert(x != id ==> self.at(x) == before.at(x));
        }
        assert forall|p: int, q: int|
            #![trigger self.trail()[p], self.trail()[q]]
            0 <= p < self.trail().len() && 0 <= q < self.trail().len() && self.at(
                self.trail()[p] as int,
            ) == Some(Value::Alias(self.trail()[q] as int)) implies p < q by {
            if p < n && q < n {
                assert(before.trail()[p] == self.trail()[p]);
                assert(before.trail()[q] == self.trail()[q]);
                assert(before.at(before.trail()[p] as int) == self.at(self.trail()[p] as int));
            }
            if p == n && q < n {
                assert(before.at(before.trail()[q] as int) is Some);
            }
        }
        assert(self.trail().take(n) =~= before.trail());
        assert forall|s: Assignment| #[trigger] self.allows(s) == (before.allows(s) && match value {
            Value::Ground(g) => s(id as int) == g,
            Value::Alias(j) => s(id as int) == s(j),
        }) by {
            if self.allows(s) {
                assert(self.meets(id as int, s));
                assert forall|x: int| 0 <= x < before.ids() implies #[trigger] before.meets(x, s) by {
                    assert(self.meets(x, s));
                }
            }
            if before.allows(s) {
                assert forall|x: int| 0 <= x < self.ids() && x != id implies #[trigger] self.meets(x, s) by {
                    assert(before.meets(x, s));
                }
            }
        }
    }

    /// Unify variable `id` with a ground value `g`. False on a clash of ground values.
    pub fn unify_var_ground(&mut self, id: usize, g: &[u8]) -> (ok: bool)
        requires
            old(self).wf(),
            id < old(self).ids(),
        ensures
            final(self).wf(),
            final(self).ids() == old(self).ids(),
            final(self).grew_from(old(self)),
            ok == exists|s: Assignment| #[trigger] old(self).allows(s) && s(id as int) == g@,
            forall|s: Assignment| #[trigger]
                final(self).allows(s) == (old(self).allows(s) && (ok ==> s(id as int) == g@)),
    {
        let ghost before = *self;
        proof {
            self.lemma_grew_refl();
        }
        match self.resolve(id) {
            Resolved::Var(r) => {
                self.bind_ground(r, to_vec(g));
                proof {
                    let s = self.lemma_free(|x: int| Seq::empty());
                    assert(before.allows(s) && s(id as int) == g@);
                }
                true
            },
            Resolved::Ground(existing) => {
                proof {
                    let s = self.lemma_free(|x: int| Seq::empty());
                    assert(s(id as int) == existing@);
                }
                bytes_eq(&existing, g)
            },
        }
    }

    /// Unify two variables. False on a clash of ground values.
    pub fn unify_var_var(&mut self, a: usize, b: usize) -> (ok: bool)
        requires
            old(self).wf(),
            a < old(self).ids(),
            b < old(self).ids(),
        ensures
            final(self).wf(),
            final(self).ids() == old(self).ids(),
            final(self).grew_from(old(self)),
            ok == exists|s: Assignment| #[trigger] old(self).allows(s) && s(a as int) == s(b as int),
            forall|s: Assignment| #[trigger]
                final(self).allows(s) == (old(self).allows(s) && (ok ==> s(a as int) == s(b as int))),
    {
        let ghost before = *self;
        proof {
            self.lemma_grew_refl();
        }
        let ok = match (self.resolve(a), self.resolve(b)) {
            (Resolved::Var(ra), Resolved::Var(rb)) => {
                if ra != rb {
                    self.bind_alias(ra, rb);
                }
                true
            },
            (Resolved::Var(ra), Resolved::Ground(g)) => {
                self.bind_ground(ra, g);
                true
            },
            (Resolved::Ground(g), Resolved::Var(rb)) => {
                self.bind_ground(rb, g);
                true
            },
            (Resolved::Ground(ga), Resolved::Ground(gb)) => bytes_eq(&ga, &gb),
        };
        proof {
            let s = self.lemma_free(|x: int| Seq::empty());
            assert(before.allows(s));
            if ok {
                assert(s(a as int) == s(b as int));
            }
        }
        ok
    }

    /// The ground value that every allowed assignment gives to variable `id`, or `None` if the
    /// variable is still free.
    pub fn ground_of(&self, id: usize) -> (g: Option<Vec<u8>>)
        requires
            self.wf(),
            id < self.ids(),
        ensures
            match g {
                Some(g) => self.determines(id as int, g@),
                None => self.leaves_open(id as int),
            },
    {
        match self.resolve(id) {
            Resolved::Ground(g) => Some(g),
            Resolved::Var(v) => {
                proof {
                    assert forall|g: Seq<u8>| !#[trigger] self.determines(id as int, g) by {
                        let s = self.lemma_free(|x: int| g.push(0));
                        assert(s(id as int) == s(v as int));
                        assert(s(v as int) == g.push(0));
                        assert(s(id as int).len() != g.len());
                    }
                }
                None
            },
        }
    }

    proof fn lemma_grew_refl(&self)
        ensures
            self.grew_from(self),
    {
        assert(self.trail().take(self.trail().len() as int) =~= self.trail());
    }

    pub proof fn lemma_restores_refl(&self)
        ensures
            self.restores(self),
    {
    }

    pub proof fn lemma_restores_trans(&self, mid: &Env, base: &Env)
        requires
            self.restores(mid),
            mid.restores(base),
        ensures
            self.restores(base),
    {
        assert forall|id: int| 0 <= id < base.ids() implies #[trigger] self.at(id) == base.at(id) by {
            assert(mid.at(id) == base.at(id));
        }
        assert forall|id: int| base.ids() <= id < self.ids() implies (#[trigger] self.at(
            id,
        )) is None by {
            if id < mid.ids() {
                assert(mid.at(id) is None);
            }
        }
    }

    /// Growth adds up.
    pub proof fn lemma_grew_trans(&self, mid: &Env, base: &Env)
        requires
            self.grew_from(mid),
            mid.grew_from(base),
        ensures
            self.grew_from(base),
    {
        let n = base.trail().len() as int;
        let m = mid.trail().len() as int;
        assert(self.trail().take(m).take(n) =~= self.trail().take(n));
        assert forall|id: int| 0 <= id < base.ids() && (#[trigger] base.at(id)) is Some implies self.at(
            id,
        ) == base.at(id) by {
            assert(mid.at(id) == base.at(id));
        }
    }
}

/// Variable `id` is on the trail at position `m` or later.
pub open spec fn undone(trail: Seq<usize>, m: nat, id: int) -> bool {
    exists|p: int| m <= p < trail.len() && #[trigger] trail[p] == id
}

} // verus!
