//! The pool's collector: entries whose only remaining handle is the pool's
//! own are swept, parents before children, to a fixed point.

use sorbus::green::{Builder, TreeBuilder};
use sorbus::{Kind, NodeOrToken};

#[test]
fn works_properly() {
    let kind0 = Kind(0);
    let kind1 = Kind(1);
    let kind2 = Kind(2);
    let mut builder = TreeBuilder::new();

    builder.start_node(kind1);
    builder.token(kind0, b"kind");
    builder.finish_node();
    let inner = builder.finish();

    builder.start_node(kind2);
    builder.add(NodeOrToken::Node(inner.clone()));
    builder.finish_node();
    let outer = builder.finish();

    assert_eq!(builder.builder().size(), 3);

    drop(outer);
    builder.builder().gc();
    assert_eq!(builder.builder().size(), 2);

    drop(inner);
    builder.builder().gc();
    assert_eq!(builder.builder().size(), 0);
}

#[test]
fn degenerate() {
    let kind = Kind(0);
    let mut builder = TreeBuilder::new();

    for _ in 0..999 {
        builder.start_node(kind);
    }
    builder.token(kind, b"wow");
    for _ in 0..999 {
        builder.finish_node();
    }

    let _ = builder.finish();

    assert_eq!(builder.builder().size(), 1000);
    builder.builder().gc();
    assert_eq!(builder.builder().size(), 0);
}

/// A long chain of nested nodes is torn down by the collector without
/// recursing over the chain: each pass frees the topmost dead node.
#[test]
fn deep_chain_collects() {
    const DEPTH: usize = 2000;
    let kind = Kind(0);
    let mut builder = TreeBuilder::new();

    for _ in 0..DEPTH {
        builder.start_node(kind);
    }
    builder.token(kind, b" ");
    for _ in 0..DEPTH {
        builder.finish_node();
    }
    let tree = builder.finish();
    assert_eq!(builder.builder().size(), DEPTH + 1);

    drop(tree);
    builder.builder().gc();
    assert_eq!(builder.builder().size(), 0);
}

/// The collection turns decide purely by the counts they are given: with
/// all counts 1, each turn removes exactly the entries nothing references,
/// cascading parent before child down to the token.
#[test]
fn turns_follow_the_observed_counts() {
    let mut builder = Builder::new();
    let t = builder.token(Kind(0), b"x");
    let inner = builder.node(Kind(1), vec![NodeOrToken::Token(t.clone())]);
    let outer = builder.node(Kind(2), vec![NodeOrToken::Node(inner.clone())]);
    drop(t);
    drop(inner);
    drop(outer);
    assert_eq!(builder.size(), 3);

    // only the outer node is unreferenced; the first turn removes just it
    let changed = builder.collect_nodes_turn(&vec![1, 1]);
    assert!(changed);
    assert_eq!(builder.size(), 2);

    // now nothing references the inner node any more
    let changed = builder.collect_nodes_turn(&vec![1]);
    assert!(changed);
    assert_eq!(builder.size(), 1);

    // an empty pool is a fixed point
    let changed = builder.collect_nodes_turn(&vec![]);
    assert!(!changed);

    // with no nodes left, the token turn clears the token
    builder.collect_tokens_turn(&vec![1]);
    assert_eq!(builder.size(), 0);
}

/// A turn never removes an entry whose count shows a handle outside the
/// pool, nor one an interned node still holds.
#[test]
fn turns_keep_live_entries() {
    let mut builder = Builder::new();
    let t = builder.token(Kind(0), b"x");
    let n = builder.node(Kind(1), vec![NodeOrToken::Token(t.clone())]);
    drop(n);
    assert_eq!(builder.size(), 2);

    // counts showing outside handles: nothing is removed
    let changed = builder.collect_nodes_turn(&vec![2]);
    assert!(!changed);
    builder.collect_tokens_turn(&vec![2]);
    assert_eq!(builder.size(), 2);

    // the node is dead; the token stays for its outside handle alone
    let changed = builder.collect_nodes_turn(&vec![1]);
    assert!(changed);
    builder.collect_tokens_turn(&vec![2]);
    assert_eq!(builder.size(), 1);
    assert_eq!(t.len(), 1);
}
