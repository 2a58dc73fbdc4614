//! The joins, the cursor and the parsers against brute force.

use std::collections::BTreeSet;
use zipper_join::term::{NEWVAR_BYTE, TAG_ARITY, TAG_SYMSIZE, TAG_VARREF};
use zipper_join::{
    first_subterm_is_ground, first_subterm_len, ground_join, least_ge, unify_join_zipper, ByteMask,
    Env, Factor, PathSet, PathTrie, SubtermCursor,
};

fn mask_of(bytes: &[u8]) -> ByteMask {
    let mut m = [0u64; 4];
    for &b in bytes {
        m[(b >> 6) as usize] |= 1u64 << (b & 63);
    }
    ByteMask(m)
}

fn sym(s: &str) -> Vec<u8> {
    let mut v = vec![TAG_SYMSIZE | s.len() as u8];
    v.extend_from_slice(s.as_bytes());
    v
}

/// `(rel a0 a1 ...)` encoded: Arity(1+n), Sym(rel), then each arg's bytes.
fn nest(rel: &str, args: &[Vec<u8>]) -> Vec<u8> {
    let mut v = vec![TAG_ARITY | (1 + args.len()) as u8];
    v.extend(sym(rel));
    for a in args {
        v.extend_from_slice(a);
    }
    v
}

/// The stored-path prefix for a relation of the given total arity (head + args).
fn relation_prefix(rel: &str, total_arity: usize) -> Vec<u8> {
    let mut v = vec![TAG_ARITY | total_arity as u8];
    v.extend(sym(rel));
    v
}

#[test]
fn subterm_cursor_enumerates_and_seeks_arg1() {
    // First arguments of various shapes: a compound (sorts first, tag 0x02 < symbol tag 0xC1),
    // several one-byte-length symbols, and a two-byte-length one (sorts last, 0xC2 > 0xC1).
    let a_terms: Vec<Vec<u8>> = vec![
        sym("a"),
        sym("b"),
        sym("c"),
        sym("z"),
        sym("bb"),
        nest("k", &[sym("v")]),
    ];
    // Each arg1 appears in two facts (distinct arg2) to exercise trie merging / distinctness.
    let mut facts = Vec::new();
    for (i, a) in a_terms.iter().enumerate() {
        facts.push(nest("e", &[a.clone(), sym(&format!("p{i}"))]));
        facts.push(nest("e", &[a.clone(), sym(&format!("q{i}"))]));
    }
    // A different relation under the same map, to confirm the prefix scopes the cursor.
    facts.push(nest("h", &[sym("a"), sym("a")]));

    let mut map = PathSet::new();
    for f in &facts {
        map.insert(f);
    }
    let pfx = relation_prefix("e", 3);

    // Oracle: distinct arg1 subterms in byte-lex order.
    let mut want: Vec<Vec<u8>> = a_terms.clone();
    want.sort();
    want.dedup();

    let mut cur = SubtermCursor::new(map.read_zipper_at_path(&pfx));
    cur.first();
    let mut got = Vec::new();
    while let Some(k) = cur.key() {
        got.push(k.to_vec());
        cur.next();
    }
    assert_eq!(got, want, "enumeration must be the distinct arg1 subterms in lex order");

    // seek to each oracle value and to a few off-key targets; compare to least >= target.
    let mut targets = want.clone();
    targets.push(nest("k", &[sym("a")])); // a compound just below (k v)
    targets.push(sym("ba")); // between b and bb in byte order? [0xC2,'b','a'] vs [0xC2,'b','b']
    for target in &targets {
        cur.seek(target);
        let expect = want.iter().find(|w| w.as_slice() >= target.as_slice()).cloned();
        assert_eq!(
            cur.key().map(<[u8]>::to_vec),
            expect,
            "seek({target:?}) must land on the least subterm >= target"
        );
    }

    // seek past every subterm -> exhausted.
    cur.seek(&sym("zz"));
    assert!(cur.at_end(), "seek past the maximum must exhaust the cursor");
}

struct Lcg(u64);
impl Lcg {
    fn new(seed: u64) -> Self {
        Lcg(seed
            .wrapping_mul(2862933555777941757)
            .wrapping_add(3037000493))
    }
    fn next_u64(&mut self) -> u64 {
        self.0 = self
            .0
            .wrapping_mul(6364136223846793005)
            .wrapping_add(1442695040888963407);
        self.0
    }
    fn below(&mut self, n: usize) -> usize {
        (self.next_u64() % n as u64) as usize
    }
}

/// A random variable-width term over a two-byte symbol alphabet, so symbols share prefixes and
/// force multi-level backtracking in seek; with nested compounds when depth allows.
fn rand_term(rng: &mut Lcg, depth: usize) -> Vec<u8> {
    let alpha: &[u8] = b"ab";
    if depth == 0 || rng.below(3) != 0 {
        let len = 1 + rng.below(3);
        let mut v = vec![TAG_SYMSIZE | len as u8];
        for _ in 0..len {
            v.push(alpha[rng.below(alpha.len())]);
        }
        v
    } else {
        let n = 1 + rng.below(2);
        let mut v = vec![TAG_ARITY | (1 + n) as u8];
        v.extend(sym("f"));
        for _ in 0..n {
            v.extend(rand_term(rng, depth - 1));
        }
        v
    }
}

#[test]
fn subterm_cursor_property_vs_brute_force() {
    for seed in 0..300u64 {
        let mut rng = Lcg::new(seed.wrapping_add(1));
        let n = 1 + rng.below(12);
        let a_terms: Vec<Vec<u8>> = (0..n).map(|_| rand_term(&mut rng, 2)).collect();

        let mut map = PathSet::new();
        for (i, a) in a_terms.iter().enumerate() {
            map.insert(&nest("e", &[a.clone(), sym(&format!("z{}", i % 3))]));
        }
        let pfx = relation_prefix("e", 3);

        let mut want: Vec<Vec<u8>> = a_terms.clone();
        want.sort();
        want.dedup();

        let mut cur = SubtermCursor::new(map.read_zipper_at_path(&pfx));
        cur.first();
        let mut got = Vec::new();
        while let Some(k) = cur.key() {
            got.push(k.to_vec());
            cur.next();
        }
        assert_eq!(got, want, "seed {seed}: enumeration");

        let mut targets = want.clone();
        for _ in 0..12 {
            targets.push(rand_term(&mut rng, 2));
        }
        for target in &targets {
            cur.seek(target);
            let expect = want.iter().find(|w| w.as_slice() >= target.as_slice()).cloned();
            assert_eq!(
                cur.key().map(<[u8]>::to_vec),
                expect,
                "seed {seed}: seek({target:?})"
            );
        }
    }
}

/// Reference join: nested loop over one matching fact per factor, binding shared variables and
/// rejecting on conflict. `factor_rows[f]` is the column-subterm list of factor f's facts.
fn brute_rec(
    f: usize,
    factors: &[Factor],
    factor_rows: &[Vec<Vec<Vec<u8>>>],
    binding: &mut Vec<Option<Vec<u8>>>,
    out: &mut Vec<Vec<Vec<u8>>>,
) {
    if f == factors.len() {
        out.push(binding.iter().map(|b| b.clone().unwrap()).collect());
        return;
    }
    for row in &factor_rows[f] {
        let mut undo: Vec<usize> = Vec::new();
        let mut ok = true;
        for (ci, &v) in factors[f].cols.iter().enumerate() {
            if let Some(existing) = &binding[v] {
                if existing != &row[ci] {
                    ok = false;
                    break;
                }
            } else {
                binding[v] = Some(row[ci].clone());
                undo.push(v);
            }
        }
        if ok {
            brute_rec(f + 1, factors, factor_rows, binding, out);
        }
        for v in undo.into_iter().rev() {
            binding[v] = None;
        }
    }
}

#[test]
fn ground_join_matches_brute_force() {
    for seed in 0..150u64 {
        let mut rng = Lcg::new(seed.wrapping_add(7));
        let nnodes = 3 + rng.below(4);
        let nodes: Vec<Vec<u8>> = (0..nnodes)
            .map(|i| sym(&((b'a' + i as u8) as char).to_string()))
            .collect();

        let mut map = PathSet::new();
        let mut e_facts: Vec<Vec<Vec<u8>>> = Vec::new();
        let mut f_facts: Vec<Vec<Vec<u8>>> = Vec::new();
        let nedges = 4 + rng.below(8);
        for _ in 0..nedges {
            let a = nodes[rng.below(nnodes)].clone();
            let b = nodes[rng.below(nnodes)].clone();
            if map.insert(&nest("e", &[a.clone(), b.clone()])) {
                e_facts.push(vec![a, b]);
            }
            let c = nodes[rng.below(nnodes)].clone();
            let d = nodes[rng.below(nnodes)].clone();
            if map.insert(&nest("f", &[c.clone(), d.clone()])) {
                f_facts.push(vec![c, d]);
            }
        }
        let pe = relation_prefix("e", 3);
        let pf = relation_prefix("f", 3);

        let queries: Vec<(Vec<Factor>, Vec<usize>, usize)> = vec![
            // path  (e $0 $1)(e $1 $2)
            (
                vec![
                    Factor { prefix: pe.clone(), cols: vec![0, 1] },
                    Factor { prefix: pe.clone(), cols: vec![1, 2] },
                ],
                vec![0, 1, 2],
                3,
            ),
            // star  (e $0 $1)(e $0 $2)
            (
                vec![
                    Factor { prefix: pe.clone(), cols: vec![0, 1] },
                    Factor { prefix: pe.clone(), cols: vec![0, 2] },
                ],
                vec![0, 1, 2],
                3,
            ),
            // two-relation path  (e $0 $1)(f $1 $2)
            (
                vec![
                    Factor { prefix: pe.clone(), cols: vec![0, 1] },
                    Factor { prefix: pf.clone(), cols: vec![1, 2] },
                ],
                vec![0, 1, 2],
                3,
            ),
            // three-path  (e $0 $1)(e $1 $2)(e $2 $3)
            (
                vec![
                    Factor { prefix: pe.clone(), cols: vec![0, 1] },
                    Factor { prefix: pe.clone(), cols: vec![1, 2] },
                    Factor { prefix: pe.clone(), cols: vec![2, 3] },
                ],
                vec![0, 1, 2, 3],
                4,
            ),
            // triangle  (e $0 $1)(e $1 $2)(e $2 $0) -- cyclic: factor 2's columns invert the
            // variable order, so it must validate $0 after binding $2 (the catch-up path).
            (
                vec![
                    Factor { prefix: pe.clone(), cols: vec![0, 1] },
                    Factor { prefix: pe.clone(), cols: vec![1, 2] },
                    Factor { prefix: pe.clone(), cols: vec![2, 0] },
                ],
                vec![0, 1, 2],
                3,
            ),
            // same triangle under a rotated variable order (different participation pattern).
            (
                vec![
                    Factor { prefix: pe.clone(), cols: vec![0, 1] },
                    Factor { prefix: pe.clone(), cols: vec![1, 2] },
                    Factor { prefix: pe.clone(), cols: vec![2, 0] },
                ],
                vec![1, 2, 0],
                3,
            ),
            // four-cycle  (e $0 $1)(e $1 $2)(e $2 $3)(e $3 $0)
            (
                vec![
                    Factor { prefix: pe.clone(), cols: vec![0, 1] },
                    Factor { prefix: pe.clone(), cols: vec![1, 2] },
                    Factor { prefix: pe.clone(), cols: vec![2, 3] },
                    Factor { prefix: pe.clone(), cols: vec![3, 0] },
                ],
                vec![0, 1, 2, 3],
                4,
            ),
            // intra-factor coreference  (e $0 $0): only the self-loops, via catch-up on col 1.
            (
                vec![Factor { prefix: pe.clone(), cols: vec![0, 0] }],
                vec![0],
                1,
            ),
            // triangle with a pendant  (e $0 $1)(e $1 $2)(e $2 $0)(f $0 $3)
            (
                vec![
                    Factor { prefix: pe.clone(), cols: vec![0, 1] },
                    Factor { prefix: pe.clone(), cols: vec![1, 2] },
                    Factor { prefix: pe.clone(), cols: vec![2, 0] },
                    Factor { prefix: pf.clone(), cols: vec![0, 3] },
                ],
                vec![0, 1, 2, 3],
                4,
            ),
        ];

        for (factors, order, nvars) in &queries {
            let factor_rows: Vec<Vec<Vec<Vec<u8>>>> = factors
                .iter()
                .map(|fac| if fac.prefix == pe { e_facts.clone() } else { f_facts.clone() })
                .collect();

            let mut got = ground_join(&map, factors, order, *nvars);
            let mut want = {
                let mut binding = vec![None; *nvars];
                let mut out = Vec::new();
                brute_rec(0, factors, &factor_rows, &mut binding, &mut out);
                out
            };
            got.sort();
            got.dedup();
            want.sort();
            want.dedup();
            assert_eq!(got, want, "seed {seed}: join answers must match the nested loop");
        }
    }
}

/// A structured fact column for the schematic differential: a ground value, or a stored variable
/// identified by a fact-local slot (so the same slot twice in one fact is coreferent).
#[derive(Clone)]
enum FCol {
    G(Vec<u8>),
    V(usize),
}

/// Encode a fact, assigning MORK's NewVar to a slot's first occurrence and VarRef to repeats,
/// exactly as the stored encoding represents schematic facts and their coreference.
fn encode_fact(rel: &str, cols: &[FCol]) -> Vec<u8> {
    let mut v = vec![TAG_ARITY | (1 + cols.len()) as u8];
    v.extend(sym(rel));
    let mut introduced: Vec<usize> = Vec::new();
    for col in cols {
        match col {
            FCol::G(g) => v.extend_from_slice(g),
            FCol::V(slot) => {
                if let Some(idx) = introduced.iter().position(|s| s == slot) {
                    v.push(TAG_VARREF | idx as u8);
                } else {
                    introduced.push(*slot);
                    v.push(NEWVAR_BYTE);
                }
            }
        }
    }
    v
}

/// A random binary fact: each column ground (small symbol set) or a stored variable (slot 0/1),
/// so the corpus mixes ground, single-variable, coreferent, and two-variable schematic facts.
fn gen_fact(rng: &mut Lcg, syms: &[Vec<u8>]) -> Vec<FCol> {
    (0..2)
        .map(|_| {
            if rng.below(3) == 0 {
                FCol::V(rng.below(2))
            } else {
                FCol::G(syms[rng.below(syms.len())].clone())
            }
        })
        .collect()
}

/// Reference unification join: nested loop over one fact per factor, each fact renamed apart,
/// unifying its columns with the query variables through the same trail. Collects fully-ground
/// answer rows, the same projection the zipper join emits.
fn naive_rec(
    fi: usize,
    factors: &[Factor],
    factor_facts: &[Vec<Vec<FCol>>],
    env: &mut Env,
    nvars: usize,
    out: &mut BTreeSet<Vec<Vec<u8>>>,
) {
    if fi == factors.len() {
        let mut row = Vec::with_capacity(nvars);
        for v in 0..nvars {
            match env.ground_of(v) {
                Some(g) => row.push(g),
                None => return,
            }
        }
        out.insert(row);
        return;
    }
    for fact in &factor_facts[fi] {
        let mark = env.mark();
        let mut slot_ids: std::collections::HashMap<usize, usize> = std::collections::HashMap::new();
        let mut ok = true;
        for (ci, col) in fact.iter().enumerate() {
            let v = factors[fi].cols[ci];
            let cok = match col {
                FCol::G(g) => env.unify_var_ground(v, g),
                FCol::V(slot) => {
                    let id = match slot_ids.get(slot) {
                        Some(&id) => id,
                        None => {
                            let id = env.fresh();
                            slot_ids.insert(*slot, id);
                            id
                        }
                    };
                    env.unify_var_var(v, id)
                }
            };
            if !cok {
                ok = false;
                break;
            }
        }
        if ok {
            naive_rec(fi + 1, factors, factor_facts, env, nvars, out);
        }
        env.rollback(mark);
    }
}

#[test]
fn unify_join_matches_naive() {
    for seed in 0..400u64 {
        let mut rng = Lcg::new(seed.wrapping_add(11));
        let nsyms = 2 + rng.below(2);
        let syms: Vec<Vec<u8>> = (0..nsyms)
            .map(|i| sym(&((b'a' + i as u8) as char).to_string()))
            .collect();

        let mut map = PathSet::new();
        let mut e_facts: Vec<Vec<FCol>> = Vec::new();
        let mut f_facts: Vec<Vec<FCol>> = Vec::new();
        let nfacts = 3 + rng.below(6);
        for _ in 0..nfacts {
            let fe = gen_fact(&mut rng, &syms);
            if map.insert(&encode_fact("e", &fe)) {
                e_facts.push(fe);
            }
            let ff = gen_fact(&mut rng, &syms);
            if map.insert(&encode_fact("f", &ff)) {
                f_facts.push(ff);
            }
        }
        let pe = relation_prefix("e", 3);
        let pf = relation_prefix("f", 3);

        let queries: Vec<(Vec<Factor>, Vec<usize>, usize)> = vec![
            (vec![Factor { prefix: pe.clone(), cols: vec![0, 1] }], vec![0, 1], 2),
            (
                vec![
                    Factor { prefix: pe.clone(), cols: vec![0, 1] },
                    Factor { prefix: pe.clone(), cols: vec![1, 2] },
                ],
                vec![0, 1, 2],
                3,
            ),
            (
                vec![
                    Factor { prefix: pe.clone(), cols: vec![0, 1] },
                    Factor { prefix: pe.clone(), cols: vec![0, 2] },
                ],
                vec![0, 1, 2],
                3,
            ),
            (
                vec![
                    Factor { prefix: pe.clone(), cols: vec![0, 1] },
                    Factor { prefix: pf.clone(), cols: vec![1, 2] },
                ],
                vec![0, 1, 2],
                3,
            ),
            // cyclic: triangle over schematic edges (the catch-up-with-unification path).
            (
                vec![
                    Factor { prefix: pe.clone(), cols: vec![0, 1] },
                    Factor { prefix: pe.clone(), cols: vec![1, 2] },
                    Factor { prefix: pe.clone(), cols: vec![2, 0] },
                ],
                vec![0, 1, 2],
                3,
            ),
            // cyclic four-cycle over schematic edges.
            (
                vec![
                    Factor { prefix: pe.clone(), cols: vec![0, 1] },
                    Factor { prefix: pe.clone(), cols: vec![1, 2] },
                    Factor { prefix: pe.clone(), cols: vec![2, 3] },
                    Factor { prefix: pe.clone(), cols: vec![3, 0] },
                ],
                vec![0, 1, 2, 3],
                4,
            ),
            // intra-query coreference exercised against schematic data: (e $0 $1)(e $1 $0).
            (
                vec![
                    Factor { prefix: pe.clone(), cols: vec![0, 1] },
                    Factor { prefix: pe.clone(), cols: vec![1, 0] },
                ],
                vec![0, 1],
                2,
            ),
        ];

        for (factors, order, nvars) in &queries {
            let factor_facts: Vec<Vec<Vec<FCol>>> = factors
                .iter()
                .map(|fac| if fac.prefix == pe { e_facts.clone() } else { f_facts.clone() })
                .collect();

            let got = unify_join_zipper(&map, factors, order, *nvars);
            let mut env = Env::new(*nvars);
            let mut want = BTreeSet::new();
            naive_rec(0, factors, &factor_facts, &mut env, *nvars, &mut want);

            let want: Vec<Vec<Vec<u8>>> = want.into_iter().collect();
            assert_eq!(got, want, "seed {seed}: unify join must match the naive unifier");
        }
    }
}

#[test]
fn least_ge_matches_brute_force() {
    let sets: &[&[u8]] = &[
        &[],
        &[0],
        &[255],
        &[0, 1, 2, 63, 64, 65, 127, 128, 191, 192, 255],
        &[10, 50, 90, 130, 170, 210, 250],
        &[63, 64],
    ];
    for set in sets {
        let mask = mask_of(set);
        for k in 0u8..=255 {
            let want = set.iter().copied().filter(|&b| b >= k).min();
            assert_eq!(least_ge(&mask, k), want, "set={set:?} k={k}");
        }
    }
}

#[test]
fn first_subterm_len_parses_each_shape() {
    // symbol "ab": SymbolSize(2), 'a', 'b'  -> 3 bytes
    let sym = [TAG_SYMSIZE | 2, b'a', b'b'];
    assert_eq!(first_subterm_len(&sym), 3);
    assert!(first_subterm_is_ground(&sym));

    // NewVar -> 1 byte, non-ground
    let nv = [NEWVAR_BYTE];
    assert_eq!(first_subterm_len(&nv), 1);
    assert!(!first_subterm_is_ground(&nv));

    // VarRef(0) -> 1 byte, non-ground
    let vr = [TAG_VARREF | 0];
    assert_eq!(first_subterm_len(&vr), 1);
    assert!(!first_subterm_is_ground(&vr));

    // (k v0):  Arity(2), Sym("k"), Sym("v0")
    let k = TAG_SYMSIZE | 1;
    let v0 = TAG_SYMSIZE | 2;
    let compound = [TAG_ARITY | 2, k, b'k', v0, b'v', b'0'];
    assert_eq!(first_subterm_len(&compound), 6);
    assert!(first_subterm_is_ground(&compound));

    // (k $x): Arity(2), Sym("k"), NewVar  -> 4 bytes, non-ground
    let compound_var = [TAG_ARITY | 2, k, b'k', NEWVAR_BYTE];
    assert_eq!(first_subterm_len(&compound_var), 4);
    assert!(!first_subterm_is_ground(&compound_var));

    // trailing bytes after the first subterm are ignored: (e A B) prefix then junk
    let mut buf = compound.to_vec();
    buf.extend_from_slice(&[0xFF, 0xFF]);
    assert_eq!(first_subterm_len(&buf), 6);
}
