//! The trail of bindings, re-indexing, the joins and conjunction bodies on small inputs.

use zipper_join::candidate::{candidates, count_subterms, is_wildcard_byte, Cand};
use zipper_join::env::Resolved;
use zipper_join::leapfrog::intersect;
use zipper_join::reindex::{
    build_reindex, columns_to_items, emit_reordered, is_inverted, split_columns, Item,
};
use zipper_join::rows::{insert_row, row_before};
use zipper_join::{
    ground_join, is_query, parse_body_factors, read_body, unify_join_zipper,
    unify_join_zipper_body, unify_join_zipper_partial, BodyRead, Env, Factor, PathSet, PathTrie, SubtermCursor, ZipperIteration,
};

const NEW: u8 = 0xC0;

fn sym(s: &str) -> Vec<u8> {
    let mut v = vec![0xC0 | s.len() as u8];
    v.extend_from_slice(s.as_bytes());
    v
}

fn nest(args: &[Vec<u8>]) -> Vec<u8> {
    let mut v = vec![args.len() as u8];
    for a in args {
        v.extend_from_slice(a);
    }
    v
}

fn fact(rel: &str, args: &[Vec<u8>]) -> Vec<u8> {
    let mut all = vec![sym(rel)];
    all.extend_from_slice(args);
    nest(&all)
}

fn prefix(rel: &str, arity: u8) -> Vec<u8> {
    let mut v = vec![arity];
    v.extend(sym(rel));
    v
}

fn set_of(facts: &[Vec<u8>]) -> PathSet {
    let mut set = PathSet::new();
    for f in facts {
        set.insert(f);
    }
    set
}

fn e(cols: &[usize]) -> Factor {
    Factor { prefix: prefix("e", 3), cols: cols.to_vec() }
}

fn keys(set: &PathSet) -> Vec<Vec<u8>> {
    let mut z = set.read_zipper_at_path(&[]);
    let mut out = Vec::new();
    while z.to_next_val() {
        out.push(z.origin_path().to_vec());
    }
    out
}

#[test]
fn bindings_are_undone_by_rollback() {
    let mut env = Env::new(2);
    let m0 = env.mark();
    assert_eq!(m0, 0);
    let d = env.fresh();
    assert_eq!(d, 2);
    assert!(env.unify_var_var(0, d));
    let m1 = env.mark();
    assert!(env.unify_var_var(d, 1));
    assert!(env.unify_var_ground(1, b"a"));
    assert_eq!(env.ground_of(0), Some(b"a".to_vec()));
    assert_eq!(env.ground_of(d), Some(b"a".to_vec()));
    assert!(!env.unify_var_ground(0, b"b"));
    assert!(env.unify_var_ground(0, b"a"));
    env.rollback(m1);
    assert_eq!(env.ground_of(0), None);
    assert!(env.unify_var_ground(1, b"c"));
    assert_eq!(env.ground_of(0), None);
    assert!(env.unify_var_ground(0, b"d"));
    assert!(!env.unify_var_var(0, 1));
    assert!(!env.unify_var_var(1, d));
    env.rollback(m0);
    assert_eq!(env.ground_of(1), None);
    assert!(matches!(env.resolve(0), Resolved::Var(0)));
    // A mark past the trail undoes nothing.
    env.rollback(7);
    assert_eq!(env.mark(), 0);
}

#[test]
fn an_alias_leads_to_its_representative() {
    let mut env = Env::new(3);
    assert!(env.unify_var_var(0, 1));
    assert!(env.unify_var_var(1, 2));
    assert!(matches!(env.resolve(0), Resolved::Var(2)));
    assert!(env.unify_var_var(2, 0));
    assert_eq!(env.mark(), 2);
    assert!(env.unify_var_ground(1, b"g"));
    for v in 0..3 {
        assert!(matches!(env.resolve(v), Resolved::Ground(g) if g == b"g"));
    }
}

#[test]
fn intersection_of_columns() {
    let mut set = PathSet::new();
    for (root, vals) in [(1u8, ["a", "c", "d"]), (2, ["b", "c", "d"]), (3, ["c", "d", "e"])] {
        for v in vals {
            let mut path = vec![root];
            path.extend(sym(v));
            set.insert(&path);
        }
    }
    let mut cursors = Vec::new();
    for root in [1u8, 2, 3] {
        cursors.push(SubtermCursor::new(set.read_zipper_at_path(&[root])));
    }
    assert_eq!(intersect(&mut cursors), vec![sym("c"), sym("d")]);
    let mut none: Vec<SubtermCursor<<PathSet as PathTrie>::ReadZipper<'_>>> = Vec::new();
    assert!(intersect(&mut none).is_empty());
}

#[test]
fn candidates_are_the_value_and_the_wildcards() {
    let mut set = PathSet::new();
    let column = vec![nest(&[sym("k")]), vec![0x81], vec![NEW], sym("a"), sym("b")];
    for c in &column {
        set.insert(c);
    }
    let bytes = |cands: Vec<Cand>| -> Vec<Vec<u8>> {
        cands
            .into_iter()
            .map(|c| match c {
                Cand::Ground(g) => g,
                Cand::Wild(w) => vec![w],
            })
            .collect()
    };
    let mut cur = SubtermCursor::new(set.read_zipper_at_path(&[]));
    assert_eq!(bytes(candidates(&mut cur, &Resolved::Var(0))), column);
    assert_eq!(
        bytes(candidates(&mut cur, &Resolved::Ground(sym("b")))),
        vec![sym("b"), vec![0x81], vec![NEW]]
    );
    assert_eq!(
        bytes(candidates(&mut cur, &Resolved::Ground(sym("z")))),
        vec![vec![0x81], vec![NEW]]
    );
    assert_eq!(count_subterms(&mut cur, 32), 5);
    assert_eq!(count_subterms(&mut cur, 3), 3);
    assert!(is_wildcard_byte(&[0x80]) && is_wildcard_byte(&[NEW]));
    assert!(!is_wildcard_byte(&[0x7F]) && !is_wildcard_byte(&[0xC1]));
    assert!(!is_wildcard_byte(&[NEW, NEW]));
}

#[test]
fn facts_are_renumbered_when_columns_move() {
    assert!(is_inverted(&e(&[1, 0]), &[0, 1]));
    assert!(!is_inverted(&e(&[1, 0]), &[1, 0]));
    assert!(!is_inverted(&e(&[0, 0, 1]), &[0, 1]));
    // ($u a $v $v $u)
    let bytes = [vec![NEW], sym("a"), vec![NEW], vec![0x81], vec![0x80]].concat();
    let cols = split_columns(&bytes, 5);
    assert_eq!(cols.len(), 5);
    assert_eq!(cols[1], sym("a").as_slice());
    let items = columns_to_items(&cols);
    assert!(matches!(items[0][0], Item::Var(0)));
    assert!(matches!(items[1][0], Item::Byte(0xC1)));
    assert!(matches!(items[1][1], Item::Byte(b'a')));
    assert!(matches!(items[2][0], Item::Var(1)));
    assert!(matches!(items[3][0], Item::Var(1)));
    assert!(matches!(items[4][0], Item::Var(0)));
    // In the order 3, 0, 1, 4, 2 it reads ($v $u a $u $v).
    assert_eq!(
        emit_reordered(&items, &[3, 0, 1, 4, 2]),
        [vec![NEW], vec![NEW], sym("a"), vec![0x81], vec![0x80]].concat()
    );
}

#[test]
fn variables_inside_a_compound_are_numbered_too() {
    let col = nest(&[sym("f"), vec![NEW], vec![0x80]]);
    let bytes = [vec![NEW], col].concat();
    let cols = split_columns(&bytes, 2);
    let items = columns_to_items(&cols);
    assert!(matches!(items[1][3], Item::Var(1)));
    assert!(matches!(items[1][4], Item::Var(0)));
    assert_eq!(
        emit_reordered(&items, &[1, 0]),
        [nest(&[sym("f"), vec![NEW], vec![NEW]]), vec![0x81]].concat()
    );
}

#[test]
fn reindexing_sorts_the_columns() {
    let set = set_of(&[
        fact("e", &[sym("a"), sym("b")]),
        fact("e", &[vec![NEW], vec![0x80]]),
        fact("e", &[vec![NEW], sym("c")]),
        fact("f", &[sym("x"), sym("y")]),
    ]);
    let (copy, cols) = build_reindex(&set, &e(&[5, 2]), &[9, 9, 0, 9, 9, 1]);
    assert_eq!(cols, vec![2, 5]);
    assert_eq!(
        keys(&copy),
        vec![
            [vec![NEW], vec![0x80]].concat(),
            [sym("b"), sym("a")].concat(),
            [sym("c"), vec![NEW]].concat(),
        ]
    );
}

#[test]
fn columns_of_one_variable_stay_in_order() {
    let set = set_of(&[fact("g", &[sym("a"), sym("b"), sym("c")])]);
    let g = Factor { prefix: prefix("g", 4), cols: vec![1, 0, 1] };
    let (copy, cols) = build_reindex(&set, &g, &[0, 1]);
    assert_eq!(cols, vec![0, 1, 1]);
    assert_eq!(keys(&copy), vec![[sym("b"), sym("a"), sym("c")].concat()]);
}

#[test]
fn rows_are_kept_sorted_and_distinct() {
    let a: Vec<Option<Vec<u8>>> = vec![None, Some(vec![1])];
    let b: Vec<Option<Vec<u8>>> = vec![Some(vec![]), None];
    let c: Vec<Option<Vec<u8>>> = vec![Some(vec![0]), None];
    assert!(row_before(&a, &b) && row_before(&b, &c) && row_before(&a, &c));
    assert!(!row_before(&b, &a) && !row_before(&a, &a));
    let mut rows = Vec::new();
    for r in [&c, &a, &b, &a, &c] {
        insert_row(&mut rows, r.clone());
    }
    assert_eq!(rows, vec![a, b, c]);
}

#[test]
fn ground_rows_follow_the_variable_order() {
    let set = set_of(&[
        fact("e", &[sym("a"), sym("y")]),
        fact("e", &[sym("b"), sym("x")]),
        fact("e", &[sym("b"), sym("y")]),
    ]);
    let query = [e(&[0, 1])];
    let rows = ground_join(&set, &query, &[0, 1], 2);
    assert_eq!(
        rows,
        vec![vec![sym("a"), sym("y")], vec![sym("b"), sym("x")], vec![sym("b"), sym("y")]]
    );
    // A variable outside the order stays empty.
    let wide = ground_join(&set, &[e(&[0, 2])], &[0, 2], 4);
    assert_eq!(wide[0], vec![sym("a"), vec![], sym("y"), vec![]]);
    // No factor leads at the first position of this order.
    assert!(ground_join(&set, &query, &[1, 0], 2).is_empty());
    // No factor has the second variable.
    assert!(ground_join(&set, &query, &[0, 1, 2], 3).is_empty());
    // A factor without columns has to have its fact.
    let absent = [e(&[0, 1]), Factor { prefix: vec![1, 2, 3], cols: vec![] }];
    assert!(ground_join(&set, &absent, &[0, 1], 2).is_empty());
    let there = [e(&[0, 1]), Factor { prefix: fact("e", &[sym("a"), sym("y")]), cols: vec![] }];
    assert_eq!(ground_join(&set, &there, &[0, 1], 2), rows);
    // Without variables there is one answer.
    assert_eq!(ground_join(&set, &[], &[], 0), vec![Vec::<Vec<u8>>::new()]);
}

#[test]
fn a_broken_fact_ends_the_search() {
    let mut set = set_of(&[
        fact("e", &[sym("a"), sym("x")]),
        fact("e", &[sym("ccc"), sym("z")]),
    ]);
    // The second column of this path is missing, and the first one of the next.
    set.insert(&[prefix("e", 3), sym("b")].concat());
    set.insert(&[prefix("e", 3), vec![0xC2, b'q']].concat());
    let want = vec![vec![sym("a"), sym("x")]];
    assert_eq!(ground_join(&set, &[e(&[0, 1])], &[0, 1], 2), want);
    assert_eq!(unify_join_zipper(&set, &[e(&[0, 1])], &[0, 1], 2), want);
}

#[test]
fn answers_before_a_dead_end_are_found() {
    let mut set = set_of(&[
        fact("e", &[sym("a"), sym("b")]),
        fact("e", &[sym("b"), sym("a")]),
        fact("e", &[sym("b"), sym("c")]),
        fact("f", &[sym("a")]),
    ]);
    // A dead end after every first column, and one after the second columns below `b`.
    set.insert(&[prefix("e", 3), vec![0xC9, b'q']].concat());
    set.insert(&[prefix("e", 3), sym("b"), vec![0xC9, b'q']].concat());
    let path = [e(&[0, 1]), e(&[1, 2])];
    let want = vec![
        vec![sym("a"), sym("b"), sym("a")],
        vec![sym("a"), sym("b"), sym("c")],
        vec![sym("b"), sym("a"), sym("b")],
    ];
    assert_eq!(ground_join(&set, &path, &[0, 1, 2], 3), want);
    assert_eq!(unify_join_zipper(&set, &path, &[0, 1, 2], 3), want);
}

#[test]
fn the_order_changes_no_answer() {
    let set = set_of(&[
        fact("e", &[sym("a"), sym("b")]),
        fact("e", &[sym("b"), sym("c")]),
        fact("e", &[sym("c"), sym("a")]),
        fact("e", &[sym("a"), sym("a")]),
    ]);
    let triangle = [e(&[0, 1]), e(&[1, 2]), e(&[2, 0])];
    let mut want = ground_join(&set, &triangle, &[0, 1, 2], 3);
    want.sort();
    assert_eq!(want.len(), 4);
    for order in [[0, 1, 2], [1, 2, 0], [2, 0, 1]] {
        let mut got = ground_join(&set, &triangle, &order, 3);
        got.sort();
        assert_eq!(got, want);
    }
    for order in [[0, 1, 2], [0, 2, 1], [1, 0, 2], [1, 2, 0], [2, 0, 1], [2, 1, 0]] {
        assert_eq!(unify_join_zipper(&set, &triangle, &order, 3), want);
    }
}

#[test]
fn on_ground_facts_unification_is_equality() {
    let set = set_of(&[
        fact("e", &[sym("a"), nest(&[sym("k"), sym("v")])]),
        fact("e", &[nest(&[sym("k"), sym("v")]), sym("b")]),
        fact("e", &[sym("b"), sym("b")]),
    ]);
    let path = [e(&[0, 1]), e(&[1, 2])];
    let got = ground_join(&set, &path, &[0, 1, 2], 3);
    assert_eq!(got.len(), 3);
    assert_eq!(unify_join_zipper(&set, &path, &[0, 1, 2], 3), {
        let mut sorted = got.clone();
        sorted.sort();
        sorted
    });
}

#[test]
fn a_stored_variable_is_a_wildcard() {
    let set = set_of(&[fact("e", &[vec![NEW], sym("b")]), fact("f", &[sym("a")])]);
    let f = Factor { prefix: prefix("f", 2), cols: vec![0] };
    assert_eq!(
        unify_join_zipper_partial(&set, &[e(&[0, 1])], &[0, 1], 2),
        vec![vec![None, Some(sym("b"))]]
    );
    assert!(unify_join_zipper(&set, &[e(&[0, 1])], &[0, 1], 2).is_empty());
    assert_eq!(
        unify_join_zipper(&set, &[e(&[0, 1]), f], &[0, 1], 2),
        vec![vec![sym("a"), sym("b")]]
    );
}

#[test]
fn a_coreferent_fact_binds_both_columns() {
    let set = set_of(&[fact("e", &[vec![NEW], vec![0x80]]), fact("f", &[sym("a")])]);
    let f = Factor { prefix: prefix("f", 2), cols: vec![1] };
    assert_eq!(
        unify_join_zipper_partial(&set, &[e(&[0, 1])], &[0, 1], 2),
        vec![vec![None, None]]
    );
    assert_eq!(
        unify_join_zipper(&set, &[e(&[0, 1]), f], &[0, 1], 2),
        vec![vec![sym("a"), sym("a")]]
    );
}

#[test]
fn one_set_of_bindings_is_threaded_through() {
    // Every two of the three agree, but not all of them.
    let set = set_of(&[
        fact("e", &[vec![NEW], vec![0x80]]),
        fact("f", &[sym("a")]),
        fact("g", &[sym("b")]),
    ]);
    let f = Factor { prefix: prefix("f", 2), cols: vec![1] };
    let g = Factor { prefix: prefix("g", 2), cols: vec![0] };
    let all = [e(&[0, 1]), f, g];
    for skip in 0..3 {
        let pair: Vec<Factor> =
            (0..3).filter(|i| *i != skip).map(|i| all[i].clone()).collect();
        assert_eq!(unify_join_zipper_partial(&set, &pair, &[0, 1], 2).len(), 1);
    }
    assert!(unify_join_zipper_partial(&set, &all, &[0, 1], 2).is_empty());
}

#[test]
fn facts_are_renamed_apart() {
    // Each factor's use of the fact has a variable of its own.
    let set = set_of(&[fact("e", &[vec![NEW], sym("b")]), fact("f", &[sym("a")])]);
    let f = Factor { prefix: prefix("f", 2), cols: vec![0] };
    assert_eq!(
        unify_join_zipper_partial(&set, &[e(&[0, 1]), e(&[2, 1]), f], &[0, 1, 2], 3),
        vec![vec![Some(sym("a")), Some(sym("b")), None]]
    );
}

#[test]
fn a_variable_without_a_factor_stays_free() {
    let set = set_of(&[fact("e", &[sym("a"), sym("b")])]);
    assert_eq!(
        unify_join_zipper_partial(&set, &[e(&[0, 2])], &[0, 1, 2], 3),
        vec![vec![Some(sym("a")), None, Some(sym("b"))]]
    );
    assert_eq!(unify_join_zipper_partial(&set, &[], &[], 1), vec![vec![None]]);
}

fn comma() -> Vec<u8> {
    sym(",")
}

#[test]
fn a_body_is_parsed_into_factors() {
    // (, (e $x $y) (f a b $y $z))
    let body = nest(&[
        comma(),
        fact("e", &[vec![NEW], vec![NEW]]),
        fact("f", &[sym("a"), sym("b"), vec![0x81], vec![NEW]]),
    ]);
    let (factors, nvars) = match parse_body_factors(&body) {
        Some(p) => p,
        None => panic!("the body is a conjunction of patterns"),
    };
    assert_eq!(nvars, 3);
    assert_eq!(factors.len(), 2);
    assert_eq!(factors[0].prefix, prefix("e", 3));
    assert_eq!(factors[0].cols, vec![0, 1]);
    assert_eq!(factors[1].prefix, [prefix("f", 5), sym("a"), sym("b")].concat());
    assert_eq!(factors[1].cols, vec![1, 2]);
}

#[test]
fn bodies_outside_the_factor_model_are_declined() {
    assert!(parse_body_factors(&[]).is_none());
    assert!(parse_body_factors(&sym("a")).is_none());
    assert!(parse_body_factors(&[NEW]).is_none());
    assert!(parse_body_factors(&nest(&[])).is_none());
    // A conjunct that is no compound.
    assert!(parse_body_factors(&nest(&[comma(), sym("a")])).is_none());
    // A constant after a variable.
    let late = fact("e", &[vec![NEW], sym("a")]);
    assert!(parse_body_factors(&nest(&[comma(), late])).is_none());
    // A compound with a variable in it.
    let deep = fact("e", &[nest(&[sym("k"), vec![NEW]])]);
    assert!(parse_body_factors(&nest(&[comma(), deep])).is_none());
    // A head alone has no conjunct.
    assert!(matches!(parse_body_factors(&nest(&[comma()])), Some((f, 0)) if f.is_empty()));
    // Bytes after the conjunction are ignored.
    let mut long = nest(&[comma(), fact("e", &[vec![NEW]])]);
    long.push(0xFF);
    assert!(matches!(parse_body_factors(&long), Some((f, 1)) if f.len() == 1));
}

#[test]
fn a_variable_head_is_a_column() {
    // (, ($r $x))
    let body = nest(&[comma(), nest(&[vec![NEW], vec![NEW]])]);
    let (factors, nvars) = match parse_body_factors(&body) {
        Some(p) => p,
        None => panic!("the body is a conjunction of patterns"),
    };
    assert_eq!(nvars, 2);
    assert_eq!(factors[0].prefix, vec![2]);
    assert_eq!(factors[0].cols, vec![0, 1]);
    // (, ($r $x) (q $r))
    let both = nest(&[comma(), nest(&[vec![NEW], vec![NEW]]), fact("q", &[vec![0x80]])]);
    let set = set_of(&[fact("p", &[sym("a")]), fact("r", &[sym("b")]), fact("q", &[sym("p")])]);
    assert_eq!(
        unify_join_zipper_body(&set, &both),
        Some(vec![vec![sym("p"), sym("a")]])
    );
    // A compound head with a variable in it.
    let deep = nest(&[comma(), nest(&[nest(&[sym("k"), vec![NEW]]), vec![NEW]])]);
    assert!(parse_body_factors(&deep).is_none());
}

#[test]
fn a_ground_conjunct_is_looked_up() {
    let p = fact("p", &[sym("a")]);
    let body = nest(&[comma(), p.clone(), fact("q", &[vec![NEW]])]);
    let mut set = set_of(&[fact("q", &[sym("b")])]);
    assert_eq!(unify_join_zipper_body(&set, &body), Some(vec![]));
    set.insert(&p);
    assert_eq!(unify_join_zipper_body(&set, &body), Some(vec![vec![sym("b")]]));
}

#[test]
fn a_body_is_read_no_further_than_needed() {
    // The first conjunct is declined, so what follows may break off.
    let mut body = vec![3];
    body.extend(comma());
    body.extend(fact("e", &[vec![NEW], sym("a")]));
    body.push(0xC5);
    assert!(parse_body_factors(&body).is_none());
    assert!(matches!(read_body(&body), BodyRead::Declined));
    let mut broken = vec![3];
    broken.extend(comma());
    broken.extend(fact("e", &[vec![NEW]]));
    broken.push(0xC5);
    assert!(matches!(read_body(&broken), BodyRead::Broken));
    assert!(matches!(read_body(&nest(&[comma(), nest(&[])])), BodyRead::Broken));
    assert!(matches!(read_body(&[3]), BodyRead::Broken));
    let good = nest(&[comma(), fact("e", &[vec![NEW]])]);
    assert!(matches!(read_body(&good), BodyRead::Parsed(f, 1) if f.len() == 1));
}

#[test]
fn a_query_lists_its_variables_once() {
    assert!(is_query(&[e(&[0, 1])], &[1, 0], 2));
    assert!(is_query(&[], &[], 0));
    assert!(!is_query(&[e(&[0, 1])], &[0], 2));
    assert!(!is_query(&[e(&[0, 1])], &[0, 1, 0], 2));
    assert!(!is_query(&[e(&[0, 1])], &[0, 1, 2], 2));
}

#[test]
fn moved_columns_can_be_brought_back() {
    // ($u (f $v $u) a $v), with the last column first and so on.
    let compound = nest(&[sym("f"), vec![NEW], vec![0x80]]);
    let fact = [vec![NEW], compound, sym("a"), vec![0x81]].concat();
    let emit = |bytes: &[u8], order: &[usize]| -> Vec<u8> {
        emit_reordered(&columns_to_items(&split_columns(bytes, 4)), order)
    };
    assert_eq!(emit(&fact, &[0, 1, 2, 3]), fact);
    let moved = emit(&fact, &[3, 1, 0, 2]);
    assert_eq!(
        moved,
        [vec![NEW], nest(&[sym("f"), vec![0x80], vec![NEW]]), vec![0x81], sym("a")].concat()
    );
    assert_eq!(moved.len(), fact.len());
    assert_eq!(emit(&moved, &[2, 1, 3, 0]), fact);
}

#[test]
fn reindexing_keeps_facts_with_compounds_apart() {
    let g = |x: Vec<u8>, y: Vec<u8>| fact("g", &[x, y]);
    let f = |x: Vec<u8>| nest(&[sym("f"), x]);
    let set = set_of(&[
        g(f(vec![NEW]), vec![0x80]),
        g(f(vec![NEW]), vec![NEW]),
        g(f(sym("a")), vec![NEW]),
    ]);
    let factor = Factor { prefix: prefix("g", 3), cols: vec![1, 0] };
    let (copy, cols) = build_reindex(&set, &factor, &[0, 1]);
    assert_eq!(cols, vec![0, 1]);
    assert_eq!(
        keys(&copy),
        vec![
            [vec![NEW], f(vec![0x80])].concat(),
            [vec![NEW], f(vec![NEW])].concat(),
            [vec![NEW], f(sym("a"))].concat(),
        ]
    );
}

#[test]
fn the_order_of_the_factors_changes_no_answer() {
    let set = set_of(&[
        fact("e", &[sym("a"), sym("b")]),
        fact("e", &[sym("b"), vec![NEW]]),
        fact("e", &[vec![NEW], vec![0x80]]),
    ]);
    let fs = [e(&[0, 1]), e(&[1, 2]), e(&[2, 0])];
    let want = unify_join_zipper(&set, &fs, &[0, 1, 2], 3);
    assert!(!want.is_empty());
    for p in [[0, 2, 1], [1, 0, 2], [1, 2, 0], [2, 0, 1], [2, 1, 0]] {
        let other: Vec<Factor> = p.iter().map(|i| fs[*i].clone()).collect();
        assert_eq!(unify_join_zipper(&set, &other, &[0, 1, 2], 3), want);
        assert_eq!(unify_join_zipper(&set, &other, &[2, 0, 1], 3), want);
    }
}

#[test]
fn a_body_is_joined_in_order_of_first_occurrence() {
    let set = set_of(&[
        fact("e", &[sym("a"), sym("b")]),
        fact("e", &[sym("b"), sym("c")]),
        fact("e", &[sym("c"), sym("a")]),
        fact("e", &[vec![NEW], sym("d")]),
    ]);
    // (, (e $x $y) (e $y $z) (e $z $x))
    let triangle = nest(&[
        comma(),
        fact("e", &[vec![NEW], vec![NEW]]),
        fact("e", &[vec![0x81], vec![NEW]]),
        fact("e", &[vec![0x82], vec![0x80]]),
    ]);
    let rows = unify_join_zipper_body(&set, &triangle);
    let d = || sym("d");
    assert_eq!(
        rows,
        Some(vec![
            vec![sym("a"), sym("b"), sym("c")],
            vec![sym("b"), sym("c"), sym("a")],
            vec![sym("c"), sym("a"), sym("b")],
            vec![d(), d(), d()],
        ])
    );
    // (, (e a $x))
    let bound = nest(&[comma(), fact("e", &[sym("a"), vec![NEW]])]);
    assert_eq!(unify_join_zipper_body(&set, &bound), Some(vec![vec![sym("b")]]));
    assert_eq!(unify_join_zipper_body(&set, &sym("a")), None);
}
