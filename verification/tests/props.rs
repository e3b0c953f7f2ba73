//! Behavioral properties on concrete trees: interning identity, iterator
//! coherence, offset lookup, boundary sizes, and checkpoint-based wrapping.

use sorbus::green::{Builder, Node, Token, TreeBuilder};
use sorbus::{Kind, NodeOrToken};
use std::collections::hash_map::DefaultHasher;
use std::hash::{Hash, Hasher};
use std::iter::Peekable;
use std::ptr;
use std::sync::Arc;

/// A value summary of a yielded child, for comparing iteration orders.
fn describe(el: NodeOrToken<&Node, &Token>) -> (bool, u16, u32) {
    match el {
        NodeOrToken::Node(n) => (true, n.kind().0, n.len()),
        NodeOrToken::Token(t) => (false, t.kind().0, t.len()),
    }
}

fn sample_tree(builder: &mut Builder) -> Arc<Node> {
    let a = builder.token(Kind(1), b"ab");
    let b = builder.token(Kind(2), b"cde");
    let inner = builder.node(Kind(7), vec![NodeOrToken::Token(a.clone())]);
    builder.node(
        Kind(8),
        vec![
            NodeOrToken::Token(a),
            NodeOrToken::Node(inner),
            NodeOrToken::Token(b),
        ],
    )
}

#[test]
fn token_interning_is_idempotent() {
    let mut builder = Builder::new();
    let t1 = builder.token(Kind(3), b"same");
    let t2 = builder.token(Kind(3), b"same");
    assert!(Arc::ptr_eq(&t1, &t2));
    assert_eq!(builder.size(), 1);

    // a different kind or different text is a different token
    let t3 = builder.token(Kind(4), b"same");
    let t4 = builder.token(Kind(3), b"other");
    assert!(!Arc::ptr_eq(&t1, &t3));
    assert!(!Arc::ptr_eq(&t1, &t4));
    assert_eq!(builder.size(), 3);
}

#[test]
fn node_interning_is_idempotent() {
    let mut builder = Builder::new();
    let size_before;
    let n1;
    {
        let a = builder.token(Kind(1), b"x");
        n1 = builder.node(Kind(5), vec![NodeOrToken::Token(a)]);
        size_before = builder.size();
    }
    let a = builder.token(Kind(1), b"x");
    let n2 = builder.node(Kind(5), vec![NodeOrToken::Token(a)]);
    assert!(Arc::ptr_eq(&n1, &n2));
    assert_eq!(builder.size(), size_before);
    assert_eq!(*n1, *n2);

    let b = builder.token(Kind(2), b"y");
    let n3 = builder.node(Kind(5), vec![NodeOrToken::Token(b)]);
    assert_ne!(*n1, *n3);
}

#[test]
fn node_len_is_sum_of_children() {
    let mut builder = Builder::new();
    let tree = sample_tree(&mut builder);
    let mut sum = 0u32;
    let mut children = tree.children();
    while let Some(el) = children.next() {
        sum += describe(el).2;
    }
    assert_eq!(tree.len(), sum);
    assert_eq!(tree.len(), 2 + 2 + 3);
}

#[test]
fn child_offsets_are_prefix_sums() {
    let mut builder = Builder::new();
    let tree = sample_tree(&mut builder);
    let mut expected = 0u32;
    let mut with_offsets = tree.children().with_offsets();
    while let Some((offset, el)) = with_offsets.next() {
        assert_eq!(offset, expected);
        expected += describe(el).2;
    }
    let offsets: Vec<u32> = {
        let mut v = Vec::new();
        let mut it = tree.children().with_offsets();
        while let Some((offset, _)) = it.next() {
            v.push(offset);
        }
        v
    };
    assert_eq!(offsets, vec![0, 2, 4]);
}

#[test]
fn children_forward_equals_reversed_backward() {
    let mut builder = Builder::new();
    let tree = sample_tree(&mut builder);

    let mut forward = Vec::new();
    let mut it = tree.children();
    while let Some(el) = it.next() {
        forward.push(describe(el));
    }

    let mut backward = Vec::new();
    let mut it = tree.children();
    while let Some(el) = it.next_back() {
        backward.push(describe(el));
    }
    backward.reverse();

    assert_eq!(forward, backward);
    assert_eq!(tree.children().count(), tree.children().len());
    assert_eq!(forward.len(), tree.children().len());
}

#[test]
fn children_nth_equals_get() {
    let mut builder = Builder::new();
    let tree = sample_tree(&mut builder);
    let len = tree.children().len();
    for k in 0..len {
        let from_get = tree.children().get(k).map(describe);
        let mut it = tree.children();
        let from_nth = it.nth(k).map(describe);
        assert_eq!(from_nth, from_get);
        assert_eq!(it.len(), len - k - 1);
    }
    let mut it = tree.children();
    assert!(it.nth(len).is_none());
    assert_eq!(it.len(), 0);
}

#[test]
fn children_random_access() {
    let mut builder = Builder::new();
    let tree = sample_tree(&mut builder);

    let it = tree.children();
    assert_eq!(it.peek().map(describe), it.get(0).map(describe));
    assert_eq!(it.last().map(describe), tree.children().get(2).map(describe));

    let mut it = tree.children();
    assert_eq!(it.nth_back(1).map(describe), tree.children().get(1).map(describe));
    assert_eq!(it.len(), 1);

    let (left, right) = tree.children().split_at(1);
    assert_eq!(left.len(), 1);
    assert_eq!(right.len(), 2);
    assert_eq!(left.get(0).map(describe), tree.children().get(0).map(describe));
    assert_eq!(right.get(1).map(describe), tree.children().get(2).map(describe));

    let with = tree.children().with_offsets();
    let without = with.without_offsets();
    assert_eq!(without.len(), tree.children().len());
}

#[test]
fn index_of_offset_finds_the_containing_child() {
    let mut builder = Builder::new();
    let tree = sample_tree(&mut builder);
    // children cover [0, 2), [2, 4), [4, 7)
    for o in 0..tree.len() {
        let index = tree.index_of_offset(o);
        let (offset, el) = tree.children().with_offsets().get(index).unwrap();
        assert!(offset <= o);
        assert!(o < offset + describe(el).2);
    }
    assert_eq!(tree.index_of_offset(0), 0);
    assert_eq!(tree.index_of_offset(3), 1);
    assert_eq!(tree.index_of_offset(6), 2);
}

#[test]
fn empty_token_is_permitted() {
    let mut builder = Builder::new();
    let t1 = builder.token(Kind(9), b"");
    assert_eq!(t1.len(), 0);
    assert_eq!(t1.text().unwrap().len(), 0);
    assert!(!t1.is_thunk());

    let t2 = builder.token(Kind(9), b"");
    assert!(Arc::ptr_eq(&t1, &t2));
    assert_eq!(*t1, *t2);

    let mut h1 = DefaultHasher::new();
    let mut h2 = DefaultHasher::new();
    t1.hash(&mut h1);
    t2.hash(&mut h2);
    assert_eq!(h1.finish(), h2.finish());
}

#[test]
fn zero_child_node_is_permitted() {
    let mut builder = Builder::new();
    let n = builder.node(Kind(6), vec![]);
    assert_eq!(n.len(), 0);
    assert_eq!(n.children().len(), 0);
    let mut it = n.children();
    assert!(it.next().is_none());
}

#[test]
fn one_and_two_child_nodes() {
    let mut builder = Builder::new();
    let a = builder.token(Kind(1), b"abc");
    let b = builder.token(Kind(2), b"de");

    let one = builder.node(Kind(5), vec![NodeOrToken::Token(a.clone())]);
    assert_eq!(one.len(), 3);
    let (index, offset, el) = one.child_with_offset(2);
    assert_eq!((index, offset), (0, 0));
    assert!(ptr::eq(el.unwrap_token(), &*a));

    let two = builder.node(
        Kind(5),
        vec![NodeOrToken::Token(a.clone()), NodeOrToken::Token(b.clone())],
    );
    assert_eq!(two.len(), 5);
    let (index, offset, el) = two.child_with_offset(3);
    assert_eq!((index, offset), (1, 3));
    assert!(ptr::eq(el.unwrap_token(), &*b));
}

const ATOM: Kind = Kind(0);
const PLUS: Kind = Kind(1);
const MUL: Kind = Kind(2);
const EXPR: Kind = Kind(4);

fn binding_power(kind: &Kind) -> u32 {
    kind.0 as u32
}

fn text_of(kind: Kind) -> &'static [u8] {
    match kind {
        ATOM => b"atom",
        PLUS => b"+",
        MUL => b"*",
        _ => panic!(),
    }
}

fn parse_expr(b: &mut TreeBuilder, bind: u32, tts: &mut Peekable<impl Iterator<Item = Kind>>) {
    let start = b.checkpoint();
    let first_token = tts.next().unwrap();
    b.token(first_token, text_of(first_token));
    loop {
        let power = match tts.peek() {
            None => break,
            Some(op) => binding_power(op),
        };
        if power < bind {
            break;
        }
        let op_token = tts.next().unwrap();
        b.token(op_token, text_of(op_token));
        parse_expr(&mut *b, power, &mut *tts);
        b.start_node_at(start, EXPR);
        b.finish_node();
    }
}

/// A checkpoint-driven precedence climb over `atom*atom+atom*atom` wraps
/// the already-emitted elements into `EXPR(EXPR(a,*,a), +, EXPR(a,*,a))`.
#[test]
fn pratt_checkpoints() {
    let mut builder = TreeBuilder::new();

    builder.start_node(EXPR);
    builder.start_node(EXPR);
    builder.token(ATOM, b"atom");
    builder.token(MUL, b"*");
    builder.token(ATOM, b"atom");
    builder.finish_node();
    builder.token(PLUS, b"+");
    builder.start_node(EXPR);
    builder.token(ATOM, b"atom");
    builder.token(MUL, b"*");
    builder.token(ATOM, b"atom");
    builder.finish_node();
    builder.finish_node();
    let expected_tree = builder.finish();

    let tokens = vec![ATOM, MUL, ATOM, PLUS, ATOM, MUL, ATOM];
    parse_expr(&mut builder, 0, &mut tokens.into_iter().peekable());
    let parsed_tree = builder.finish();

    // the same cache interned both, so equal shape means the same handle
    assert!(Arc::ptr_eq(&parsed_tree, &expected_tree));
}

/// `finish_node_at` wraps only the elements up to the checkpoint; later
/// elements become following siblings in the parent branch.
#[test]
fn finish_node_at_shape() {
    let mut builder = TreeBuilder::new();

    // wrap "a b" into a node, leaving "c" as a sibling after it
    builder.start_node(Kind(10));
    builder.start_node(Kind(12));
    builder.token(Kind(1), b"a");
    builder.token(Kind(2), b"b");
    let cp = builder.checkpoint();
    builder.token(Kind(3), b"c");
    builder.finish_node_at(cp);
    builder.finish_node();
    let tree = builder.finish();

    assert_eq!(tree.len(), 3);
    assert_eq!(tree.children().len(), 2);
    let first = describe(tree.children().get(0).unwrap());
    let second = describe(tree.children().get(1).unwrap());
    assert_eq!(first, (true, 12, 2));
    assert_eq!(second, (false, 3, 1));
}

#[test]
fn recycle_keeps_the_cache() {
    let mut builder = TreeBuilder::new();
    builder.start_node(Kind(1));
    builder.token(Kind(0), b"x");
    builder.finish_node();
    let tree = builder.finish();

    let mut cache = builder.recycle();
    let size = cache.size();
    assert!(size > 0);

    // the recycled cache still dedupes against the old tree
    let x = cache.token(Kind(0), b"x");
    let again = cache.node(Kind(1), vec![NodeOrToken::Token(x)]);
    assert!(Arc::ptr_eq(&tree, &again));
    assert_eq!(cache.size(), size);
}
