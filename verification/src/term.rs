//! The term encoding: tag bytes, complete subterms, and the parsers that find their boundaries.
//!
//! A term is spelled in prefix order. A byte below `0x40` is an arity: that many terms follow. A
//! byte from `0x80` to `0xBF` refers back to a variable, and `0xC0` introduces one. Every other
//! byte is the tag of a symbol, and its low six bits count the payload bytes that follow.

use vstd::prelude::*;
use crate::order::is_prefix;

verus! {

/// The bits of a tag byte that select the tag.
pub const TOP2: u8 = 0xC0;

/// An arity: the low six bits count the terms that follow.
pub const TAG_ARITY: u8 = 0x00;

/// A reference to a variable: the low six bits are its index.
pub const TAG_VARREF: u8 = 0x80;

/// A symbol: the low six bits count the payload bytes that follow.
pub const TAG_SYMSIZE: u8 = 0xC0;

/// The introduction of a variable.
pub const NEWVAR_BYTE: u8 = 0xC0;

/// The low six bits of a tag byte.
pub const LOW6: u8 = 0x3F;

/// How many terms a tag byte owes.
pub open spec fn arity_of(b: u8) -> nat {
    if b < 0x40 {
        b as nat
    } else {
        0
    }
}

/// Whether a tag byte is a variable: a reference or an introduction.
pub open spec fn is_var_tag(b: u8) -> bool {
    0x80 <= b <= 0xC0
}

/// How many payload bytes a tag byte owes.
pub open spec fn payload_of(b: u8) -> nat {
    if b < 0x40 || is_var_tag(b) {
        0
    } else {
        (b % 64) as nat
    }
}

/// What is still owed at a point of a term: complete subterms, and payload bytes of the current
/// symbol before them.
pub open spec fn step(owed: (nat, nat), b: u8) -> (nat, nat) {
    if owed.1 > 0 {
        (owed.0, (owed.1 - 1) as nat)
    } else if owed.0 > 0 {
        ((owed.0 - 1 + arity_of(b)) as nat, payload_of(b))
    } else {
        (0, 0)
    }
}

/// What is owed after reading `w` when `owed` was owed before. Once nothing is owed, it stays so.
pub open spec fn run(owed: (nat, nat), w: Seq<u8>) -> (nat, nat)
    decreases w.len(),
{
    if w.len() == 0 {
        owed
    } else {
        step(run(owed, w.drop_last()), w.last())
    }
}

/// `w` holds at least `n` complete subterms at its front.
pub open spec fn holds(n: nat, w: Seq<u8>) -> bool {
    run((n, 0), w) == (0nat, 0nat)
}

/// `w` is exactly `n` complete subterms, one after the other.
pub open spec fn spells(n: nat, w: Seq<u8>) -> bool {
    holds(n, w) && (w.len() > 0 ==> !holds(n, w.drop_last()))
}

/// `w` is exactly one complete subterm.
pub open spec fn is_term(w: Seq<u8>) -> bool {
    spells(1, w)
}

/// The byte at index `i` of the term `w` is a tag, and no payload byte.
pub open spec fn tag_at(w: Seq<u8>, i: int) -> bool {
    run((1, 0), w.take(i)).1 == 0
}

/// The term `w` has no variable in it.
pub open spec fn is_ground(w: Seq<u8>) -> bool {
    forall|i: int| #![trigger w[i]] 0 <= i < w.len() && tag_at(w, i) ==> !is_var_tag(w[i])
}

pub proof fn lemma_run_concat(s: (nat, nat), a: Seq<u8>, b: Seq<u8>)
    ensures
        run(s, a + b) == run(run(s, a), b),
    decreases b.len(),
{
    if b.len() == 0 {
        assert(a + b =~= a);
    } else {
        assert((a + b).drop_last() =~= a + b.drop_last());
        assert((a + b).last() == b.last());
        lemma_run_concat(s, a, b.drop_last());
    }
}

pub proof fn lemma_run_done(w: Seq<u8>)
    ensures
        run((0, 0), w) == (0nat, 0nat),
    decreases w.len(),
{
    if w.len() > 0 {
        lemma_run_done(w.drop_last());
    }
}

/// What holds its subterms holds them however it is extended.
pub proof fn lemma_holds_extend(n: nat, a: Seq<u8>, b: Seq<u8>)
    requires
        holds(n, a),
        is_prefix(a, b),
    ensures
        holds(n, b),
{
    let rest = b.skip(a.len() as int);
    assert(b =~= a + rest);
    lemma_run_concat((n, 0), a, rest);
    lemma_run_done(rest);
}

pub proof fn lemma_run_push(s: (nat, nat), w: Seq<u8>, b: u8)
    ensures
        run(s, w.push(b)) == step(run(s, w), b),
{
    assert(w.push(b).drop_last() =~= w);
}

/// Every owed subterm and every owed payload byte takes at least one byte.
pub proof fn lemma_run_bound(s: (nat, nat), w: Seq<u8>)
    ensures
        run(s, w).0 + run(s, w).1 + w.len() >= s.0 + s.1,
    decreases w.len(),
{
    if w.len() > 0 {
        lemma_run_bound(s, w.drop_last());
    }
}

/// Each byte read adds at most 62 to the owed subterms, and at most 63 payload bytes are owed.
pub proof fn lemma_run_limit(n: nat, w: Seq<u8>)
    ensures
        run((n, 0), w).0 <= n + 62 * w.len(),
        run((n, 0), w).1 <= 63,
    decreases w.len(),
{
    if w.len() > 0 {
        lemma_run_limit(n, w.drop_last());
        let b = w.last();
        assert(b % 64 <= 63);
    }
}

pub proof fn lemma_run_payload(s: (nat, nat), w: Seq<u8>)
    requires
        w.len() <= s.1,
    ensures
        run(s, w) == (s.0, (s.1 - w.len()) as nat),
    decreases w.len(),
{
    if w.len() > 0 {
        lemma_run_payload(s, w.drop_last());
    }
}

/// Owing `m` more subterms at the end changes nothing until the others are complete.
pub proof fn lemma_run_more(n: nat, m: nat, w: Seq<u8>)
    requires
        w.len() > 0 ==> !holds(n, w.drop_last()),
    ensures
        run((n + m, 0), w) == (run((n, 0), w).0 + m, run((n, 0), w).1),
    decreases w.len(),
{
    if w.len() > 0 {
        let v = w.drop_last();
        if v.len() > 0 && holds(n, v.drop_last()) {
            assert(v.drop_last() =~= v.take(v.len() - 1));
            lemma_holds_extend(n, v.drop_last(), v);
        }
        lemma_run_more(n, m, v);
    }
}

/// Subterms one after the other.
pub proof fn lemma_spells_concat(n: nat, m: nat, a: Seq<u8>, b: Seq<u8>)
    requires
        spells(n, a),
        spells(m, b),
    ensures
        spells(n + m, a + b),
{
    lemma_run_more(n, m, a);
    lemma_run_concat((n + m, 0), a, b);
    if b.len() > 0 {
        assert((a + b).drop_last() =~= a + b.drop_last());
        lemma_run_concat((n + m, 0), a, b.drop_last());
    } else {
        assert(a + b =~= a);
        assert(m == 0);
    }
}

/// After `n` complete subterms, a string that holds `n + m` holds `m` more.
pub proof fn lemma_holds_rest(n: nat, m: nat, a: Seq<u8>, b: Seq<u8>)
    requires
        spells(n, a),
    ensures
        holds(n + m, a + b) == holds(m, b),
        run((n + m, 0), a + b) == run((m, 0), b),
{
    lemma_run_more(n, m, a);
    lemma_run_concat((n + m, 0), a, b);
}

/// What holds `n + m` subterms holds `n`.
pub proof fn lemma_holds_fewer(n: nat, m: nat, w: Seq<u8>)
    requires
        holds(n + m, w),
    ensures
        holds(n, w),
    decreases w.len(),
{
    if !holds(n, w) {
        if w.len() > 0 {
            if holds(n, w.drop_last()) {
                assert(w.drop_last() =~= w.take(w.len() - 1));
                lemma_holds_extend(n, w.drop_last(), w);
            }
        }
        lemma_run_more(n, m, w);
    }
}

/// The encoding is prefix-free: no complete subterm, and no list of `n` complete subterms, is a
/// proper prefix of another.
pub proof fn lemma_prefix_free(n: nat, a: Seq<u8>, b: Seq<u8>)
    requires
        spells(n, a),
        spells(n, b),
        is_prefix(a, b),
    ensures
        a == b,
{
    if a.len() < b.len() {
        assert(is_prefix(a, b.drop_last())) by {
            assert(a =~= b.drop_last().take(a.len() as int));
        }
        lemma_holds_extend(n, a, b.drop_last());
    } else {
        assert(a =~= b);
    }
}

/// A proper prefix of `n` complete subterms is not complete.
pub proof fn lemma_open_prefix(n: nat, a: Seq<u8>, b: Seq<u8>)
    requires
        b.len() > 0 ==> !holds(n, b.drop_last()),
        is_prefix(a, b),
        a.len() < b.len(),
    ensures
        !holds(n, a),
{
    if holds(n, a) {
        assert(is_prefix(a, b.drop_last())) by {
            assert(a =~= b.drop_last().take(a.len() as int));
        }
        lemma_holds_extend(n, a, b.drop_last());
    }
}

pub proof fn lemma_term_nonempty(w: Seq<u8>)
    requires
        is_term(w),
    ensures
        w.len() > 0,
{
}

/// A single variable byte is a complete subterm.
pub proof fn lemma_var_is_term(b: u8)
    requires
        is_var_tag(b),
    ensures
        is_term(seq![b]),
        !is_ground(seq![b]),
{
    let w = seq![b];
    assert(w.drop_last() =~= Seq::<u8>::empty());
    reveal_with_fuel(run, 2);
    assert(w.take(0) =~= Seq::<u8>::empty());
    assert(tag_at(w, 0));
    assert(w[0] == b);
}

proof fn lemma_tag_bits(b: u8)
    ensures
        (b & TOP2 == TAG_ARITY) == (b < 0x40),
        (b & TOP2 == TAG_VARREF) == (0x80 <= b < 0xC0),
        b & LOW6 == b % 64,
{
    assert((b & 0xC0 == 0x00) == (b < 0x40)) by (bit_vector);
    assert((b & 0xC0 == 0x80) == (0x80 <= b < 0xC0)) by (bit_vector);
    assert(b & 0x3F == b % 64) by (bit_vector);
}

/// What a byte's tag says of it.
pub enum Tag {
    /// This many terms follow.
    Arity(u8),
    /// A reference to the variable with this index.
    VarRef(u8),
    /// The introduction of a variable.
    NewVar,
    /// A symbol with this many payload bytes.
    Symbol(u8),
}

/// Read a tag byte.
pub fn tag_of(b: u8) -> (t: Tag)
    ensures
        match t {
            Tag::Arity(k) => b < 0x40 && k == b,
            Tag::VarRef(i) => 0x80 <= b < 0xC0 && i == b - 0x80,
            Tag::NewVar => b == 0xC0,
            Tag::Symbol(s) => !(b < 0x40) && !is_var_tag(b) && s == b % 64,
        },
{
    proof {
        lemma_tag_bits(b);
    }
    match b & TOP2 {
        TAG_ARITY => Tag::Arity(b & LOW6),
        TAG_VARREF => Tag::VarRef(b & LOW6),
        _ => {
            if b == NEWVAR_BYTE {
                Tag::NewVar
            } else {
                Tag::Symbol(b & LOW6)
            }
        },
    }
}

/// No tag among the first `i` bytes of `w` is a variable.
spec fn no_vars(w: Seq<u8>, i: int) -> bool {
    forall|j: int| #![trigger w[j]] 0 <= j < i && tag_at(w, j) ==> !is_var_tag(w[j])
}

proof fn lemma_no_vars_tag(w: Seq<u8>, i: int)
    requires
        0 <= i < w.len(),
        tag_at(w, i),
    ensures
        no_vars(w, i + 1) == (no_vars(w, i) && !is_var_tag(w[i])),
{
}

/// A symbol's tag is at `i`: its payload is read through to the next tag.
pub proof fn lemma_payload(w: Seq<u8>, i: int, owed: nat, s: nat)
    requires
        0 <= i,
        i + 1 + s <= w.len(),
        run((1, 0), w.take(i + 1)) == (owed, s),
    ensures
        run((1, 0), w.take(i + 1 + s)) == (owed, 0nat),
        s > 0 ==> !holds(1, w.take(i + s)),
        forall|j: int| i < j < i + 1 + s ==> !#[trigger] tag_at(w, j),
{
    let base = w.take(i + 1);
    assert forall|n: int| 0 <= n <= s implies #[trigger] run((1, 0), w.take(i + 1 + n)) == (
        owed,
        (s - n) as nat,
    ) by {
        let part = w.subrange(i + 1, i + 1 + n);
        assert(w.take(i + 1 + n) =~= base + part);
        lemma_run_concat((1, 0), base, part);
        lemma_run_payload((owed, s), part);
    }
    if s > 0 {
        assert(run((1, 0), w.take(i + 1 + (s - 1))).1 == 1);
    }
    assert forall|j: int| i < j < i + 1 + s implies !#[trigger] tag_at(w, j) by {
        assert(run((1, 0), w.take(i + 1 + (j - i - 1))).1 == s - (j - i - 1));
    }
}

proof fn lemma_symbol(w: Seq<u8>, i: int, owed: nat, s: nat)
    requires
        0 <= i,
        i + 1 + s <= w.len(),
        run((1, 0), w.take(i + 1)) == (owed, s),
    ensures
        run((1, 0), w.take(i + 1 + s)) == (owed, 0nat),
        s > 0 ==> !holds(1, w.take(i + s)),
        no_vars(w, i + 1 + s) == no_vars(w, i + 1),
{
    lemma_payload(w, i, owed, s);
}

proof fn lemma_no_vars_ground(w: Seq<u8>, i: int)
    requires
        0 <= i <= w.len(),
    ensures
        no_vars(w, i) == is_ground(w.take(i)),
{
    let t = w.take(i);
    assert forall|j: int| 0 <= j < i implies tag_at(t, j) == tag_at(w, j) && t[j] == w[j] by {
        assert(t.take(j) =~= w.take(j));
    }
    if is_ground(t) {
        assert forall|j: int| #![trigger w[j]] 0 <= j < i && tag_at(w, j) implies !is_var_tag(
            w[j],
        ) by {
            assert(t[j] == w[j]);
        }
    }
}

/// The next byte of an incomplete term exists, and so do all bytes that it owes.
pub proof fn lemma_parse_step(w: Seq<u8>, i: int, remaining: nat)
    requires
        holds(1, w),
        0 <= i <= w.len(),
        remaining > 0,
        run((1, 0), w.take(i)) == (remaining, 0nat),
    ensures
        i < w.len(),
        run((1, 0), w.take(i + 1)) == step((remaining, 0), w[i]),
        remaining - 1 + arity_of(w[i]) + payload_of(w[i]) <= w.len() - (i + 1),
        tag_at(w, i),
        !holds(1, w.take(i)),
{
    let front = w.take(i);
    let rest = w.skip(i);
    assert(w =~= front + rest);
    lemma_run_concat((1, 0), front, rest);
    lemma_run_bound((remaining, 0), rest);
    let next = w.take(i + 1);
    let after = w.skip(i + 1);
    assert(next =~= front.push(w[i]));
    lemma_run_push((1, 0), front, w[i]);
    assert(w =~= next + after);
    lemma_run_concat((1, 0), next, after);
    lemma_run_bound(run((1, 0), next), after);
}

/// Parse the first complete subterm at the front of `bytes`, returning its byte length and whether
/// it is ground. A counter of the terms still needed is walked to zero.
pub fn parse_first_subterm(bytes: &[u8]) -> (r: (usize, bool))
    requires
        holds(1, bytes@),
    ensures
        0 < r.0 <= bytes@.len(),
        is_term(bytes@.take(r.0 as int)),
        r.1 == is_ground(bytes@.take(r.0 as int)),
{
    let mut i: usize = 0;
    let mut remaining: usize = 1;
    let mut ground = true;
    assert(bytes@.take(0) =~= Seq::<u8>::empty());
    while remaining > 0
        invariant
            holds(1, bytes@),
            i <= bytes@.len(),
            run((1, 0), bytes@.take(i as int)) == (remaining as nat, 0nat),
            i == 0 ==> remaining == 1,
            i > 0 ==> !holds(1, bytes@.take(i - 1)),
            ground == no_vars(bytes@, i as int),
        decreases bytes@.len() - i,
    {
        proof {
            lemma_parse_step(bytes@, i as int, remaining as nat);
            lemma_no_vars_tag(bytes@, i as int);
        }
        let b = bytes[i];
        let ghost at = i as int;
        i += 1;
        remaining -= 1;
        match tag_of(b) {
            Tag::Arity(k) => {
                remaining += k as usize;
            },
            Tag::VarRef(_) => {
                ground = false;
            },
            Tag::NewVar => {
                ground = false;
            },
            Tag::Symbol(s) => {
                proof {
                    lemma_symbol(bytes@, at, remaining as nat, s as nat);
                }
                i += s as usize;
            },
        }
    }
    proof {
        assert(bytes@.take(i as int).drop_last() =~= bytes@.take(i - 1));
        lemma_no_vars_ground(bytes@, i as int);
    }
    (i, ground)
}

/// Byte length of the first complete subterm at the front of `bytes`.
pub fn first_subterm_len(bytes: &[u8]) -> (n: usize)
    requires
        holds(1, bytes@),
    ensures
        0 < n <= bytes@.len(),
        is_term(bytes@.take(n as int)),
{
    parse_first_subterm(bytes).0
}

/// Whether the first complete subterm at the front of `bytes` is ground (contains no variable).
pub fn first_subterm_is_ground(bytes: &[u8]) -> (r: bool)
    requires
        holds(1, bytes@),
    ensures
        forall|n: int|
            0 <= n <= bytes@.len() && is_term(#[trigger] bytes@.take(n)) ==> r == is_ground(
                bytes@.take(n),
            ),
        exists|n: int|
            0 <= n <= bytes@.len() && is_term(#[trigger] bytes@.take(n)) && r == is_ground(
                bytes@.take(n),
            ),
{
    let (len, ground) = parse_first_subterm(bytes);
    assert(is_term(bytes@.take(len as int)));
    proof {
        assert forall|n: int|
            0 <= n <= bytes@.len() && is_term(#[trigger] bytes@.take(n)) implies ground == is_ground(
            bytes@.take(n),
        ) by {
            let a = bytes@.take(n);
            let t = bytes@.take(len as int);
            if n <= len {
                assert(a =~= t.take(n));
                lemma_prefix_free(1, a, t);
            } else {
                assert(t =~= a.take(len as int));
                lemma_prefix_free(1, t, a);
            }
        }
    }
    ground
}

/// One step of the incremental parse: consume byte `b`, updating how many complete subterms are
/// still owed and how many raw payload bytes of the current symbol are still owed. A payload byte
/// completes nothing; a tag byte completes one slot, then an arity owes more subterms and a symbol
/// owes its payload.
pub fn step_parse(b: u8, subterms: &mut u128, payload: &mut u8)
    requires
        *old(payload) > 0 || 0 < *old(subterms) <= u128::MAX - 64,
    ensures
        (*final(subterms) as nat, *final(payload) as nat) == step(
            (*old(subterms) as nat, *old(payload) as nat),
            b,
        ),
{
    if *payload > 0 {
        *payload = *payload - 1;
    } else {
        *subterms = *subterms - 1;
        match tag_of(b) {
            Tag::Arity(k) => {
                *subterms = *subterms + k as u128;
            },
            Tag::Symbol(s) => {
                *payload = s;
            },
            _ => {},
        }
    }
}

/// The incremental parse of the first `i` bytes, which complete nothing yet, takes one more byte.
proof fn lemma_parse_on(bytes: Seq<u8>, i: int)
    requires
        0 <= i < bytes.len(),
        i <= 0xFFFF_FFFF_FFFF_FFFF,
    ensures
        run((1, 0), bytes.take(i)).0 <= u128::MAX - 64,
        run((1, 0), bytes.take(i + 1)) == step(run((1, 0), bytes.take(i)), bytes[i]),
{
    lemma_run_limit(1, bytes.take(i));
    assert(62 * i <= 62 * 0xFFFF_FFFF_FFFF_FFFF);
    assert(bytes.take(i + 1) =~= bytes.take(i).push(bytes[i]));
    lemma_run_push((1, 0), bytes.take(i), bytes[i]);
}

/// Whether `bytes` spell exactly one complete subterm.
pub fn is_complete(bytes: &[u8]) -> (r: bool)
    ensures
        r == is_term(bytes@),
{
    match complete_len(bytes) {
        Some(n) => {
            proof {
                let whole = bytes@;
                let front = whole.take(n as int);
                if n < whole.len() {
                    assert(front =~= whole.drop_last().take(n as int));
                    lemma_holds_extend(1, front, whole.drop_last());
                } else {
                    assert(front =~= whole);
                }
            }
            n == bytes.len()
        },
        None => false,
    }
}

/// How long the first complete subterm at the front of `bytes` is, or `None` if there is none.
pub fn complete_len(bytes: &[u8]) -> (r: Option<usize>)
    ensures
        match r {
            Some(n) => 0 < n <= bytes@.len() && is_term(bytes@.take(n as int)),
            None => !holds(1, bytes@),
        },
{
    let mut subterms: u128 = 1;
    let mut payload: u8 = 0;
    let mut i: usize = 0;
    assert(bytes@.take(0) =~= Seq::<u8>::empty());
    while i < bytes.len()
        invariant
            i <= bytes@.len(),
            !holds(1, bytes@.take(i as int)),
            (subterms as nat, payload as nat) == run((1, 0), bytes@.take(i as int)),
        decreases bytes@.len() - i,
    {
        proof {
            lemma_parse_on(bytes@, i as int);
        }
        step_parse(bytes[i], &mut subterms, &mut payload);
        i += 1;
        if subterms == 0 && payload == 0 {
            assert(bytes@.take(i as int).drop_last() =~= bytes@.take(i - 1));
            return Some(i);
        }
    }
    assert(bytes@.take(i as int) =~= bytes@);
    None
}

} // verus!
