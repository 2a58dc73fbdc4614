//! The joins over a trie that is not a `PathSet`: nodes with children, walked by a stack.

use std::collections::BTreeMap;
use zipper_join::{
    ground_join, unify_join_zipper, unify_join_zipper_partial, ByteMask, Factor, PathSet, PathTrie,
    SubtermCursor, Zipper, ZipperIteration,
};

#[derive(Default)]
struct Node {
    children: BTreeMap<u8, Node>,
    value: bool,
}

impl Node {
    fn insert(&mut self, path: &[u8]) {
        match path.split_first() {
            None => self.value = true,
            Some((b, rest)) => self.children.entry(*b).or_default().insert(rest),
        }
    }

    fn at(&self, path: &[u8]) -> Option<&Node> {
        match path.split_first() {
            None => Some(self),
            Some((b, rest)) => self.children.get(b).and_then(|n| n.at(rest)),
        }
    }

    fn values(&self, path: &mut Vec<u8>, out: &mut Vec<Vec<u8>>) {
        if self.value {
            out.push(path.clone());
        }
        for (b, n) in &self.children {
            path.push(*b);
            n.values(path, out);
            path.pop();
        }
    }
}

struct NodeZipper<'a> {
    trie: &'a Node,
    root: usize,
    path: Vec<u8>,
}

impl Zipper for NodeZipper<'_> {
    fn path_exists(&self) -> bool {
        self.trie.at(&self.path).is_some()
    }

    fn child_mask(&self) -> ByteMask {
        let mut m = ByteMask::empty();
        if let Some(n) = self.trie.at(&self.path) {
            for b in n.children.keys() {
                m.set_bit(*b);
            }
        }
        m
    }

    fn descend_to_byte(&mut self, b: u8) {
        self.path.push(b);
    }

    fn ascend_byte(&mut self) -> bool {
        if self.path.len() > self.root {
            self.path.pop();
            true
        } else {
            false
        }
    }
}

impl ZipperIteration for NodeZipper<'_> {
    fn to_next_val(&mut self) -> bool {
        let mut all = Vec::new();
        let mut root = self.path[..self.root].to_vec();
        if let Some(n) = self.trie.at(&root) {
            n.values(&mut root.clone(), &mut all);
        }
        match all.into_iter().find(|v| *v > self.path) {
            Some(v) => {
                self.path = v;
                true
            }
            None => {
                std::mem::swap(&mut self.path, &mut root);
                false
            }
        }
    }

    fn origin_path(&self) -> &[u8] {
        &self.path
    }
}

impl PathTrie for Node {
    type ReadZipper<'a> = NodeZipper<'a>;

    fn read_zipper_at_path<'a>(&'a self, path: &[u8]) -> NodeZipper<'a> {
        NodeZipper { trie: self, root: path.len(), path: path.to_vec() }
    }
}

fn sym(s: &str) -> Vec<u8> {
    let mut v = vec![0xC0 | s.len() as u8];
    v.extend_from_slice(s.as_bytes());
    v
}

fn fact(rel: &str, args: &[Vec<u8>]) -> Vec<u8> {
    let mut v = vec![1 + args.len() as u8];
    v.extend(sym(rel));
    for a in args {
        v.extend_from_slice(a);
    }
    v
}

fn prefix(rel: &str, arity: u8) -> Vec<u8> {
    let mut v = vec![arity];
    v.extend(sym(rel));
    v
}

fn both(facts: &[Vec<u8>]) -> (PathSet, Node) {
    let mut set = PathSet::new();
    let mut trie = Node::default();
    for f in facts {
        set.insert(f);
        trie.insert(f);
    }
    (set, trie)
}

#[test]
fn cursor_walks_any_trie() {
    let (set, trie) = both(&[
        fact("e", &[sym("a"), sym("b")]),
        fact("e", &[sym("bb"), sym("b")]),
        fact("e", &[fact("k", &[sym("v")]), sym("b")]),
        fact("g", &[sym("z")]),
    ]);
    let p = prefix("e", 3);
    let mut a = SubtermCursor::new(set.read_zipper_at_path(&p));
    let mut b = SubtermCursor::new(trie.read_zipper_at_path(&p));
    a.first();
    b.first();
    let mut n = 0;
    while !a.at_end() {
        assert_eq!(a.key(), b.key());
        a.next();
        b.next();
        n += 1;
    }
    assert!(b.at_end());
    assert_eq!(n, 3);
}

#[test]
fn joins_agree_on_any_trie() {
    let (set, trie) = both(&[
        fact("e", &[sym("a"), sym("b")]),
        fact("e", &[sym("b"), sym("c")]),
        fact("e", &[sym("c"), sym("a")]),
        fact("e", &[sym("c"), sym("d")]),
    ]);
    let p = prefix("e", 3);
    let triangle = vec![
        Factor { prefix: p.clone(), cols: vec![0, 1] },
        Factor { prefix: p.clone(), cols: vec![1, 2] },
        Factor { prefix: p.clone(), cols: vec![2, 0] },
    ];
    let want = vec![
        vec![sym("a"), sym("b"), sym("c")],
        vec![sym("b"), sym("c"), sym("a")],
        vec![sym("c"), sym("a"), sym("b")],
    ];
    assert_eq!(ground_join(&set, &triangle, &[0, 1, 2], 3), want);
    assert_eq!(ground_join(&trie, &triangle, &[0, 1, 2], 3), want);
    assert_eq!(unify_join_zipper(&set, &triangle, &[0, 1, 2], 3), want);
    assert_eq!(unify_join_zipper(&trie, &triangle, &[0, 1, 2], 3), want);
}

#[test]
fn reindexing_reads_any_trie() {
    let (set, trie) = both(&[
        fact("e", &[vec![0xC0], sym("b")]),
        fact("e", &[vec![0xC0], vec![0x80]]),
        fact("e", &[sym("c"), sym("a")]),
    ]);
    let p = prefix("e", 3);
    let query = vec![Factor { prefix: p, cols: vec![1, 0] }];
    let got = unify_join_zipper_partial(&set, &query, &[0, 1], 2);
    assert_eq!(
        got,
        vec![
            vec![None, None],
            vec![Some(sym("a")), Some(sym("c"))],
            vec![Some(sym("b")), None],
        ]
    );
    assert_eq!(unify_join_zipper_partial(&trie, &query, &[0, 1], 2), got);
}
