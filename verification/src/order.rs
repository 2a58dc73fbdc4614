//! Byte strings, prefixes, and the lexicographic order on them.

use vstd::prelude::*;

verus! {

/// `a` is a prefix of `b`, possibly all of it.
pub open spec fn is_prefix(a: Seq<u8>, b: Seq<u8>) -> bool {
    a.len() <= b.len() && a == b.take(a.len() as int)
}

/// `a` and `b` agree up to index `i`, where `a` has the smaller byte.
pub open spec fn diverges(a: Seq<u8>, b: Seq<u8>, i: int) -> bool {
    0 <= i < a.len() && i < b.len() && a.take(i) == b.take(i) && a[i] < b[i]
}

/// At the first index where `a` and `b` differ both have a byte, and `a` has the smaller one.
/// Extending either string does not change this.
pub open spec fn before(a: Seq<u8>, b: Seq<u8>) -> bool {
    exists|i: int| diverges(a, b, i)
}

/// The lexicographic order: a proper prefix comes first, otherwise the first difference decides.
pub open spec fn lt(a: Seq<u8>, b: Seq<u8>) -> bool {
    (is_prefix(a, b) && a.len() < b.len()) || before(a, b)
}

/// Lexicographic "at most".
pub open spec fn le(a: Seq<u8>, b: Seq<u8>) -> bool {
    a == b || lt(a, b)
}

pub proof fn lemma_prefix_of_prefix(a: Seq<u8>, b: Seq<u8>, c: Seq<u8>)
    requires
        is_prefix(a, b),
        is_prefix(b, c),
    ensures
        is_prefix(a, c),
{
    assert(a =~= c.take(a.len() as int)) by {
        assert forall|i: int| 0 <= i < a.len() implies a[i] == c[i] by {
            assert(a[i] == b.take(a.len() as int)[i]);
            assert(b[i] == c.take(b.len() as int)[i]);
        }
    }
}

/// Two prefixes of one string are prefixes of each other.
pub proof fn lemma_prefixes_comparable(a: Seq<u8>, b: Seq<u8>, c: Seq<u8>)
    requires
        is_prefix(a, c),
        is_prefix(b, c),
        a.len() <= b.len(),
    ensures
        is_prefix(a, b),
{
    assert(a =~= b.take(a.len() as int)) by {
        assert forall|i: int| 0 <= i < a.len() implies a[i] == b[i] by {
            assert(a[i] == c.take(a.len() as int)[i]);
            assert(b[i] == c.take(b.len() as int)[i]);
        }
    }
}

pub proof fn lemma_before_extend(a: Seq<u8>, b: Seq<u8>, a2: Seq<u8>, b2: Seq<u8>)
    requires
        before(a, b),
        is_prefix(a, a2),
        is_prefix(b, b2),
    ensures
        before(a2, b2),
{
    let i = choose|i: int| diverges(a, b, i);
    assert(a2.take(i) =~= b2.take(i)) by {
        assert forall|j: int| 0 <= j < i implies a2[j] == b2[j] by {
            assert(a.take(i)[j] == b.take(i)[j]);
            assert(a[j] == a2.take(a.len() as int)[j]);
            assert(b[j] == b2.take(b.len() as int)[j]);
        }
    }
    assert(a[i] == a2.take(a.len() as int)[i]);
    assert(b[i] == b2.take(b.len() as int)[i]);
    assert(diverges(a2, b2, i));
}

/// Strings that diverge are not prefixes of each other, and diverge one way only.
pub proof fn lemma_before_exclusive(a: Seq<u8>, b: Seq<u8>)
    requires
        before(a, b),
    ensures
        !is_prefix(a, b),
        !is_prefix(b, a),
        !before(b, a),
        a != b,
{
    let i = choose|i: int| diverges(a, b, i);
    if is_prefix(a, b) {
        assert(a[i] == b.take(a.len() as int)[i]);
    }
    if is_prefix(b, a) {
        assert(b[i] == a.take(b.len() as int)[i]);
    }
    if before(b, a) {
        let j = choose|j: int| diverges(b, a, j);
        if j < i {
            assert(a.take(i)[j] == b.take(i)[j]);
        } else if i < j {
            assert(b.take(j)[i] == a.take(j)[i]);
        }
    }
}

pub proof fn lemma_before_trans(a: Seq<u8>, b: Seq<u8>, c: Seq<u8>)
    requires
        before(a, b),
        before(b, c),
    ensures
        before(a, c),
{
    let i = choose|i: int| diverges(a, b, i);
    let j = choose|j: int| diverges(b, c, j);
    let k = if i <= j { i } else { j };
    assert(a.take(k) =~= c.take(k)) by {
        assert forall|l: int| 0 <= l < k implies a[l] == c[l] by {
            assert(a.take(i)[l] == b.take(i)[l]);
            assert(b.take(j)[l] == c.take(j)[l]);
        }
    }
    if i < j {
        assert(b.take(j)[i] == c.take(j)[i]);
    } else if j < i {
        assert(a.take(i)[j] == b.take(i)[j]);
    }
    assert(diverges(a, c, k));
}

/// Any two strings are related: one is a prefix of the other, or they diverge.
pub proof fn lemma_trichotomy(a: Seq<u8>, b: Seq<u8>)
    ensures
        is_prefix(a, b) || is_prefix(b, a) || before(a, b) || before(b, a),
    decreases a.len(),
{
    if a.len() == 0 {
        assert(a =~= b.take(0));
    } else {
        let p = a.drop_last();
        lemma_trichotomy(p, b);
        if before(p, b) {
            assert(is_prefix(p, a)) by {
                assert(p =~= a.take(p.len() as int));
            }
            assert(is_prefix(b, b)) by {
                assert(b =~= b.take(b.len() as int));
            }
            lemma_before_extend(p, b, a, b);
        } else if before(b, p) {
            assert(is_prefix(p, a)) by {
                assert(p =~= a.take(p.len() as int));
            }
            assert(is_prefix(b, b)) by {
                assert(b =~= b.take(b.len() as int));
            }
            lemma_before_extend(b, p, b, a);
        } else if b.len() <= p.len() {
            assert(b =~= a.take(b.len() as int)) by {
                assert forall|i: int| 0 <= i < b.len() implies b[i] == a[i] by {
                    if is_prefix(p, b) {
                        assert(p[i] == b.take(p.len() as int)[i]);
                    } else {
                        assert(b[i] == p.take(b.len() as int)[i]);
                    }
                }
            }
        } else {
            let n = p.len() as int;
            assert(is_prefix(p, b));
            assert(a.take(n) =~= b.take(n)) by {
                assert(a.take(n) =~= p);
            }
            if a[n] == b[n] {
                assert(a =~= b.take(a.len() as int)) by {
                    assert forall|i: int| 0 <= i < a.len() implies a[i] == b[i] by {
                        if i < n {
                            assert(a.take(n)[i] == b.take(n)[i]);
                        }
                    }
                }
            } else if a[n] < b[n] {
                assert(diverges(a, b, n));
            } else {
                assert(diverges(b, a, n));
            }
        }
    }
}

pub proof fn lemma_prefix_refl(a: Seq<u8>)
    ensures
        is_prefix(a, a),
{
    assert(a =~= a.take(a.len() as int));
}

/// Exactly one of `lt(a, b)`, `a == b`, `lt(b, a)` holds.
pub proof fn lemma_lt_total(a: Seq<u8>, b: Seq<u8>)
    ensures
        lt(a, b) || a == b || lt(b, a),
        !(lt(a, b) && lt(b, a)),
        lt(a, b) ==> a != b,
{
    lemma_trichotomy(a, b);
    if is_prefix(a, b) && a.len() == b.len() {
        assert(a =~= b);
    }
    if is_prefix(b, a) && a.len() == b.len() {
        assert(a =~= b);
    }
    if before(a, b) {
        lemma_before_exclusive(a, b);
    }
    if before(b, a) {
        lemma_before_exclusive(b, a);
    }
}

pub proof fn lemma_lt_trans(a: Seq<u8>, b: Seq<u8>, c: Seq<u8>)
    requires
        lt(a, b),
        lt(b, c),
    ensures
        lt(a, c),
{
    lemma_prefix_refl(a);
    lemma_prefix_refl(c);
    if before(a, b) {
        if before(b, c) {
            lemma_before_trans(a, b, c);
        } else {
            lemma_before_extend(a, b, a, c);
        }
    } else {
        if before(b, c) {
            let i = choose|i: int| diverges(b, c, i);
            if i < a.len() {
                assert(a.take(i) =~= c.take(i)) by {
                    assert forall|j: int| 0 <= j < i implies a[j] == c[j] by {
                        assert(a[j] == b.take(a.len() as int)[j]);
                        assert(b.take(i)[j] == c.take(i)[j]);
                    }
                }
                assert(a[i] == b.take(a.len() as int)[i]);
                assert(diverges(a, c, i));
            } else {
                assert(a =~= c.take(a.len() as int)) by {
                    assert forall|j: int| 0 <= j < a.len() implies a[j] == c[j] by {
                        assert(a[j] == b.take(a.len() as int)[j]);
                        assert(b.take(i)[j] == c.take(i)[j]);
                    }
                }
            }
        } else {
            lemma_prefix_of_prefix(a, b, c);
        }
    }
}

/// The length of the longest common prefix of `a` and `b`.
pub fn common_prefix(a: &[u8], b: &[u8]) -> (n: usize)
    ensures
        n <= a@.len(),
        n <= b@.len(),
        a@.take(n as int) == b@.take(n as int),
        n < a@.len() && n < b@.len() ==> a@[n as int] != b@[n as int],
{
    let mut n: usize = 0;
    while n < a.len() && n < b.len() && a[n] == b[n]
        invariant
            n <= a@.len(),
            n <= b@.len(),
            a@.take(n as int) == b@.take(n as int),
        decreases a@.len() - n,
    {
        proof {
            assert(a@.take(n + 1) =~= b@.take(n + 1)) by {
                assert forall|i: int| 0 <= i < n + 1 implies a@[i] == b@[i] by {
                    if i < n {
                        assert(a@.take(n as int)[i] == b@.take(n as int)[i]);
                    }
                }
            }
        }
        n += 1;
    }
    n
}

/// Whether two byte strings are equal.
pub fn bytes_eq(a: &[u8], b: &[u8]) -> (r: bool)
    ensures
        r == (a@ == b@),
{
    if a.len() != b.len() {
        return false;
    }
    let n = common_prefix(a, b);
    proof {
        if n == a@.len() {
            assert(a@.take(n as int) =~= a@);
            assert(b@.take(n as int) =~= b@);
        }
    }
    n == a.len()
}

/// Whether `a` comes strictly before `b` in lexicographic order.
pub fn bytes_lt(a: &[u8], b: &[u8]) -> (r: bool)
    ensures
        r == lt(a@, b@),
{
    let n = common_prefix(a, b);
    proof {
        lemma_lt_total(a@, b@);
        if n == a@.len() {
            assert(a@.take(n as int) =~= a@);
        }
        if n == b@.len() {
            assert(b@.take(n as int) =~= b@);
        }
        if n < a@.len() && n < b@.len() {
            if a@[n as int] < b@[n as int] {
                assert(diverges(a@, b@, n as int));
            } else {
                assert(diverges(b@, a@, n as int));
            }
        }
    }
    if n == a.len() {
        n < b.len()
    } else {
        n < b.len() && a[n] < b[n]
    }
}

/// A copy of the bytes.
pub fn to_vec(a: &[u8]) -> (r: Vec<u8>)
    ensures
        r@ == a@,
{
    let mut r: Vec<u8> = Vec::new();
    r.extend_from_slice(a);
    assert(r@ =~= a@);
    r
}

} // verus!
