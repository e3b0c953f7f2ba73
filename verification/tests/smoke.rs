//! End-to-end construction through both builders, mirroring everyday use:
//! build a small s-expression tree top-down and a math tree bottom-up, and
//! check offsets, deduplication and pointer identity.

use sorbus::green::{Builder, Node, Token, TreeBuilder};
use sorbus::{Kind, NodeOrToken};
use std::ptr;
use std::sync::Arc;

/// This test creates a tree for the sexpr
///
/// ```lisp
/// (+ (* 15 2) 62)
/// ```
///
/// using the top-down `TreeBuilder`.
#[test]
fn make_sexpr_tree() {
    const WS: Kind = Kind(0);
    const L_PAREN: Kind = Kind(1);
    const R_PAREN: Kind = Kind(2);
    const ATOM: Kind = Kind(3);
    const LIST: Kind = Kind(4);

    let mut builder = TreeBuilder::new();

    builder.start_node(LIST);
    builder.token(L_PAREN, b"(");
    builder.token(ATOM, b"+");
    builder.token(WS, b" ");
    builder.start_node(LIST);
    builder.token(L_PAREN, b"(");
    builder.token(ATOM, b"*");
    builder.token(WS, b" ");
    builder.token(ATOM, b"15");
    builder.token(WS, b" ");
    builder.token(ATOM, b"2");
    builder.token(R_PAREN, b")");
    builder.finish_node();
    builder.token(WS, b" ");
    builder.token(ATOM, b"62");
    builder.token(R_PAREN, b")");
    builder.finish_node();
    let tree = builder.finish();

    // This produces a node with the same identity as the inner list above,
    // because the builder dedupes nodes with an internal cache.
    builder.start_node(LIST);
    builder.token(L_PAREN, b"(");
    builder.token(ATOM, b"*");
    builder.token(WS, b" ");
    builder.token(ATOM, b"15");
    builder.token(WS, b" ");
    builder.token(ATOM, b"2");
    builder.token(R_PAREN, b")");
    builder.finish_node();
    let inner_mul = builder.finish();

    assert_eq!(tree.len(), 15);

    let (index, offset, el) = tree.child_with_offset(5);
    assert_eq!(index, 3);
    assert_eq!(offset, 3);
    assert!(ptr::eq(el.unwrap_node(), &*inner_mul));

    // walk all children; their offsets are the prefix sums of the lengths
    let mut expected_offset = 0u32;
    let mut with_offsets = tree.children().with_offsets();
    while let Some((offset, el)) = with_offsets.next() {
        assert_eq!(offset, expected_offset);
        expected_offset += match el {
            NodeOrToken::Node(n) => n.len(),
            NodeOrToken::Token(t) => t.len(),
        };
    }
    assert_eq!(expected_offset, tree.len());
}

/// This test creates a tree for the math
///
/// ```math
/// 1 + 2 * 3 + 4
/// ```
///
/// grouping as `((1 + (2 * 3)) + 4)`, using the bottom-up `Builder`.
#[test]
fn make_math_tree() {
    const WS: Kind = Kind(0);
    const OP: Kind = Kind(1);
    const NUM: Kind = Kind(2);
    const EXPR: Kind = Kind(3);

    let mut builder = Builder::new();

    let ws = builder.token(WS, b" ");
    let n1 = builder.token(NUM, b"1");
    let n2 = builder.token(NUM, b"2");
    let n3 = builder.token(NUM, b"3");
    let n4 = builder.token(NUM, b"4");
    let add = builder.token(OP, b"+");
    let mul = builder.token(OP, b"*");

    // Invocations of the builder with the same arguments produce the same
    // (identical) results.
    assert!(Arc::ptr_eq(&ws, &builder.token(WS, b" ")));

    let n = |node: &Arc<Node>| NodeOrToken::Node(node.clone());
    let t = |token: &Arc<Token>| NodeOrToken::Token(token.clone());

    let inner_mul = builder.node(EXPR, vec![t(&n2), t(&ws), t(&mul), t(&ws), t(&n3)]);
    let left_add = builder.node(EXPR, vec![t(&n1), t(&ws), t(&add), t(&ws), n(&inner_mul)]);
    let right_add = builder.node(EXPR, vec![n(&left_add), t(&ws), t(&add), t(&ws), t(&n4)]);

    let tree = right_add;

    assert_eq!(tree.len(), 13);
    let (index, offset, el) = tree.child_with_offset(5);
    assert_eq!(index, 0);
    assert_eq!(offset, 0);
    assert!(ptr::eq(el.unwrap_node(), &*left_add));

    let mut children = tree.children();
    while let Some(el) = children.next() {
        drop(el);
    }
}

#[test]
fn test_send_sync() {
    fn assert_send_sync<T: Send + Sync>() {}
    assert_send_sync::<Arc<Node>>();
    assert_send_sync::<Arc<Token>>();
}
