//! The term encoding, the byte masks and the cursor on small inputs.

use zipper_join::order::{bytes_eq, bytes_lt, common_prefix};
use zipper_join::term::{complete_len, is_complete, parse_first_subterm, step_parse, tag_of, Tag};
use zipper_join::{
    first_subterm_is_ground, first_subterm_len, least_ge, ByteMask, PathSet, PathTrie,
    SubtermCursor, Zipper, ZipperIteration,
};

fn sym(s: &str) -> Vec<u8> {
    let mut v = vec![0xC0 | s.len() as u8];
    v.extend_from_slice(s.as_bytes());
    v
}

fn nest(args: &[Vec<u8>]) -> Vec<u8> {
    let mut v = vec![args.len() as u8];
    for a in args {
        v.extend_from_slice(a);
    }
    v
}

#[test]
fn tags_split_the_byte_range() {
    assert!(matches!(tag_of(0x00), Tag::Arity(0)));
    assert!(matches!(tag_of(0x3F), Tag::Arity(63)));
    assert!(matches!(tag_of(0x40), Tag::Symbol(0)));
    assert!(matches!(tag_of(0x45), Tag::Symbol(5)));
    assert!(matches!(tag_of(0x80), Tag::VarRef(0)));
    assert!(matches!(tag_of(0xBF), Tag::VarRef(63)));
    assert!(matches!(tag_of(0xC0), Tag::NewVar));
    assert!(matches!(tag_of(0xC1), Tag::Symbol(1)));
    assert!(matches!(tag_of(0xFF), Tag::Symbol(63)));
}

#[test]
fn a_term_ends_where_nothing_is_owed() {
    let t = nest(&[sym("f"), nest(&[sym("g"), vec![0xC0]]), nest(&[])]);
    assert_eq!(parse_first_subterm(&t), (t.len(), false));
    let g = nest(&[sym("f"), nest(&[sym("g"), sym("x")]), nest(&[])]);
    assert_eq!(parse_first_subterm(&g), (g.len(), true));
    let mut subterms: u128 = 1;
    let mut payload: u8 = 0;
    for (i, b) in t.iter().enumerate() {
        assert!(subterms > 0 || payload > 0, "byte {i} is still owed");
        step_parse(*b, &mut subterms, &mut payload);
    }
    assert_eq!((subterms, payload), (0, 0));
}

#[test]
fn payload_bytes_are_no_tags() {
    // The payload of a symbol may hold any byte, a variable's tag among them.
    let s = vec![0xC2, 0xC0, 0x80];
    assert_eq!(first_subterm_len(&s), 3);
    assert!(first_subterm_is_ground(&s));
}

#[test]
fn no_term_is_a_proper_prefix_of_another() {
    let terms = vec![
        sym("a"),
        sym("ab"),
        sym("b"),
        nest(&[sym("a")]),
        nest(&[sym("a"), sym("b")]),
        nest(&[nest(&[]), vec![0xC0]]),
        vec![0x80],
        vec![0xC0],
    ];
    for a in &terms {
        for b in &terms {
            assert_eq!(b.starts_with(a), a == b, "{a:?} {b:?}");
            let mut joined = a.clone();
            joined.extend_from_slice(b);
            assert_eq!(first_subterm_len(&joined), a.len());
            assert!(is_complete(a));
            assert!(!is_complete(&a[..a.len() - 1]));
            assert!(!is_complete(&joined));
            assert_eq!(complete_len(&joined), Some(a.len()));
            assert_eq!(complete_len(&a[..a.len() - 1]), None);
        }
    }
}

#[test]
fn byte_order_is_that_of_slices() {
    let all: Vec<Vec<u8>> = vec![vec![], vec![0], vec![0, 1], vec![1], vec![1, 0, 2], vec![255]];
    for a in &all {
        for b in &all {
            assert_eq!(bytes_lt(a, b), a < b);
            assert_eq!(bytes_eq(a, b), a == b);
            let n = a.iter().zip(b.iter()).take_while(|(x, y)| x == y).count();
            assert_eq!(common_prefix(a, b), n);
        }
    }
}

#[test]
fn masks_hold_what_was_set() {
    let mut m = ByteMask::empty();
    assert_eq!(least_ge(&m, 0), None);
    for b in [0u8, 63, 64, 200, 255] {
        m.set_bit(b);
    }
    assert_eq!(m.0, [1 | 1 << 63, 1, 0, 1 << 8 | 1 << 63]);
    assert_eq!(least_ge(&m, 0), Some(0));
    assert_eq!(m.next_bit(0), Some(63));
    assert_eq!(m.next_bit(63), Some(64));
    assert_eq!(m.next_bit(64), Some(200));
    assert_eq!(m.next_bit(255), None);
    assert_eq!(least_ge(&m, 201), Some(255));
}

#[test]
fn a_set_keeps_one_of_each() {
    let mut set = PathSet::new();
    assert!(set.insert(&[2, 1]));
    assert!(set.insert(&[1]));
    assert!(!set.insert(&[2, 1]));
    assert!(set.insert(&[]));
    let mut z = set.read_zipper_at_path(&[]);
    let mut seen = Vec::new();
    while z.to_next_val() {
        seen.push(z.origin_path().to_vec());
    }
    // The root's own value is where the walk starts, so it is not visited.
    assert_eq!(seen, vec![vec![1], vec![2, 1]]);
    assert_eq!(z.origin_path(), &[] as &[u8]);
}

#[test]
fn a_path_is_a_prefix_of_a_string() {
    let mut set = PathSet::new();
    assert!(!set.read_zipper_at_path(&[]).path_exists());
    set.insert(&[7, 1, 2]);
    set.insert(&[7, 3]);
    for p in [vec![], vec![7], vec![7, 1], vec![7, 1, 2], vec![7, 3]] {
        assert!(set.read_zipper_at_path(&p).path_exists(), "{p:?}");
    }
    for p in [vec![6], vec![8], vec![7, 0], vec![7, 2], vec![7, 1, 2, 0], vec![7, 4]] {
        assert!(!set.read_zipper_at_path(&p).path_exists(), "{p:?}");
    }
}

#[test]
fn a_zipper_stays_below_its_root() {
    let mut set = PathSet::new();
    set.insert(&[7, 1, 2]);
    set.insert(&[7, 3]);
    set.insert(&[8]);
    let mut z = set.read_zipper_at_path(&[7]);
    assert_eq!(z.child_mask().0, [1 << 1 | 1 << 3, 0, 0, 0]);
    z.descend_to_byte(9);
    assert_eq!(z.child_mask().0, [0; 4]);
    assert!(z.ascend_byte());
    assert!(!z.ascend_byte());
    assert_eq!(z.origin_path(), &[7]);
    assert!(z.to_next_val());
    assert_eq!(z.origin_path(), &[7, 1, 2]);
    assert!(z.to_next_val());
    assert_eq!(z.origin_path(), &[7, 3]);
    assert!(!z.to_next_val());
    assert_eq!(z.origin_path(), &[7]);
}

#[test]
fn a_cursor_over_nothing_is_at_its_end() {
    let set = PathSet::new();
    let mut c = SubtermCursor::new(set.read_zipper_at_path(&[2, 0xC1]));
    assert!(c.at_end());
    c.first();
    assert!(c.at_end());
    assert_eq!(c.key(), None);
    c.next();
    assert!(c.at_end());
    c.seek(&sym("a"));
    assert!(c.at_end());
}

#[test]
fn a_walk_visits_every_subterm_once() {
    let mut set = PathSet::new();
    let mut want = vec![sym("b"), sym("a"), nest(&[sym("k"), sym("v")]), vec![0xC0], vec![0x80]];
    for t in &want {
        for tail in ["x", "y"] {
            let mut path = vec![9];
            path.extend_from_slice(t);
            path.extend(sym(tail));
            set.insert(&path);
        }
    }
    want.sort();
    let mut c = SubtermCursor::new(set.read_zipper_at_path(&[9]));
    c.first();
    let mut got = Vec::new();
    while let Some(k) = c.key() {
        got.push(k.to_vec());
        c.next();
    }
    assert_eq!(got, want);
    for t in &want {
        c.seek(t);
        assert_eq!(c.key(), Some(t.as_slice()));
    }
    // A longer target is cut off at the first complete subterm that it starts with.
    let mut long = sym("a");
    long.extend(sym("z"));
    c.seek(&long);
    assert_eq!(c.key(), Some(sym("a").as_slice()));
}

#[test]
fn a_dead_end_stops_the_walk() {
    let mut set = PathSet::new();
    set.insert(&[0xC1, b'a']);
    set.insert(&[0xC2, b'b']);
    set.insert(&[0xC3, b'c', b'c', b'c']);
    let mut c = SubtermCursor::new(set.read_zipper_at_path(&[]));
    c.first();
    assert_eq!(c.key(), Some(&[0xC1, b'a'] as &[u8]));
    c.next();
    assert!(c.at_end());
    c.seek(&[0xC3, b'c', b'c', b'c']);
    assert_eq!(c.key(), Some(&[0xC3, b'c', b'c', b'c'] as &[u8]));
}
