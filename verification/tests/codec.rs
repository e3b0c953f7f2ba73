//! The structural (de)serialization layer: trees leave as canonical forms
//! and re-enter through a builder, collapsing equal parts to shared storage.

use sorbus::green::{Builder, ElementData, NodeData, TokenData, TreeBuilder};
use sorbus::{Kind, NodeOrToken};
use std::ptr;
use std::sync::Arc;

fn token_data(kind: u16, text: &[u8]) -> ElementData {
    ElementData::Token(TokenData { kind: Kind(kind), text: text.to_vec() })
}

#[test]
fn token_round_trip() {
    let mut builder = Builder::new();
    let token = builder.token(Kind(5), b"no-this-is-patrick");

    let data = token.to_data();
    assert_eq!(data.kind, Kind(5));
    assert_eq!(data.text, b"no-this-is-patrick".to_vec());

    let back = builder.deserialize_token(&data);
    assert!(Arc::ptr_eq(&token, &back));
}

#[test]
fn tree_round_trip_through_same_builder() {
    let mut builder = TreeBuilder::new();
    builder.start_node(Kind(2));
    builder.token(Kind(0), b"0");
    builder.token(Kind(1), b"1");
    builder.finish_node();
    let tree = builder.finish();
    let mut cache = builder.recycle();

    let data = tree.to_data();
    let size = cache.size();

    assert!(cache.can_deserialize(&data));
    let back = cache.deserialize_node(&data);

    // the decoded tree is the identical allocation, and nothing was added
    assert!(Arc::ptr_eq(&tree, &back));
    assert_eq!(cache.size(), size);
}

#[test]
fn tree_round_trip_through_fresh_builder() {
    let mut builder = TreeBuilder::new();
    builder.start_node(Kind(2));
    builder.token(Kind(0), b"0");
    builder.start_node(Kind(3));
    builder.token(Kind(1), b"11");
    builder.finish_node();
    builder.finish_node();
    let tree = builder.finish();

    let data = tree.to_data();

    let mut fresh = Builder::new();
    let back = fresh.deserialize_node(&data);

    // an equal tree, rebuilt from nothing
    assert_eq!(back.kind(), tree.kind());
    assert_eq!(back.len(), tree.len());
    assert_eq!(back.to_data(), data);
}

#[test]
fn deduplication_of_nodes_happens() {
    // a node with two structurally equal children collapses to one child
    // allocation when deserialized
    let inner = NodeData { kind: Kind(1), children: vec![token_data(0, b" ")] };
    let inner_again = NodeData { kind: Kind(1), children: vec![token_data(0, b" ")] };
    let data = NodeData {
        kind: Kind(2),
        children: vec![ElementData::Node(inner), ElementData::Node(inner_again)],
    };

    let mut builder = Builder::new();
    assert!(builder.can_deserialize(&data));
    let node = builder.deserialize_node(&data);

    let mut children = node.children();
    let first = children.next().unwrap().unwrap_node();
    let second = children.next().unwrap().unwrap_node();
    assert!(ptr::eq(first, second));

    // one outer node, one inner node, one token
    assert_eq!(builder.size(), 3);
}

#[test]
fn oversized_forms_are_rejected() {
    let mut children = Vec::new();
    for _ in 0..0x10000 {
        children.push(token_data(0, b""));
    }
    let data = NodeData { kind: Kind(0), children };

    let builder = Builder::new();
    assert!(!builder.can_deserialize(&data));

    let fits = NodeData { kind: Kind(0), children: vec![token_data(0, b"x")] };
    assert!(builder.can_deserialize(&fits));
}
