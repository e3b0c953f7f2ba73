use crate::green::token::Token;
use crate::utils::{Kind, NodeOrToken, TextSize};
use std::sync::Arc;
use vstd::prelude::*;

verus! {

/// One child slot inside a node: the child's offset from the start of the
/// parent's text, and a shared handle to the child itself.
#[derive(Debug, PartialEq, Eq, Hash)]
pub struct Element {
    /// Offset of this child from the start of the parent node's text.
    pub offset: TextSize,
    /// Shared handle to the child node or token.
    pub child: NodeOrToken<Arc<Node>, Arc<Token>>,
}

/// A nonleaf node in the immutable green tree.
///
/// Nodes are created through [`Builder::node`](crate::green::Builder::node),
/// which hands out shared `Arc<Node>` handles and deduplicates nodes whose
/// kind and children identities coincide. As with tokens, the `id` field
/// records the handle's identity within the builder that interned it.
#[derive(Debug, Hash)]
pub struct Node {
    /// Identity of this node within the builder that interned it.
    pub id: u64,
    /// The kind tag of this node.
    pub kind: Kind,
    /// The length in bytes of all text under this node.
    pub text_len: TextSize,
    /// The child slots of this node, in order, with their offsets.
    pub children: Vec<Element>,
}

/// The identity of one child of a node: which arena it lives in (node or
/// token), its id there, and its text length.
#[verifier::ext_equal]
pub struct ChildView {
    pub is_node: bool,
    pub id: u64,
    pub len: nat,
}

/// The mathematical value of an [`Element`]: the stored offset and the
/// identity of the child.
#[verifier::ext_equal]
pub struct ElemView {
    pub offset: nat,
    pub child: ChildView,
}

/// The mathematical value of a [`Node`]: its identity, kind, text length and
/// the identities of its children.
#[verifier::ext_equal]
pub struct NodeView {
    pub id: u64,
    pub kind: Kind,
    pub text_len: nat,
    pub children: Seq<ElemView>,
}

/// The identity of a child handle.
pub open spec fn child_view(c: NodeOrToken<Arc<Node>, Arc<Token>>) -> ChildView {
    match c {
        NodeOrToken::Node(n) => ChildView { is_node: true, id: n.id, len: n.text_len as nat },
        NodeOrToken::Token(t) => ChildView { is_node: false, id: t.id, len: t.text@.len() },
    }
}

impl View for Element {
    type V = ElemView;

    open spec fn view(&self) -> ElemView {
        ElemView { offset: self.offset as nat, child: child_view(self.child) }
    }
}

impl View for Node {
    type V = NodeView;

    open spec fn view(&self) -> NodeView {
        NodeView {
            id: self.id,
            kind: self.kind,
            text_len: self.text_len as nat,
            children: self.children@.map_values(|e: Element| e@),
        }
    }
}

/// The summed text length of the first `i` children.
pub open spec fn prefix_len(s: Seq<ElemView>, i: int) -> nat
    decreases i,
{
    if i <= 0 {
        0
    } else {
        prefix_len(s, i - 1) + s[i - 1].child.len
    }
}

impl NodeView {
    /// Structural soundness of a node: it has at most `u16::MAX` children,
    /// each child's stored offset is the summed length of the children before
    /// it, and the node's text length is the summed length of all children.
    pub open spec fn wf(self) -> bool {
        &&& self.children.len() <= 0xFFFF
        &&& forall|i: int|
            0 <= i < self.children.len() ==> (#[trigger] self.children[i].offset) == prefix_len(
                self.children,
                i,
            )
        &&& self.text_len == prefix_len(self.children, self.children.len() as int)
    }
}

/// The total text length of a node is the sum of the lengths of its
/// children: `n.len() == Σ c.len() for c in n.children()`.
pub proof fn lemma_node_len_is_sum_of_children(n: NodeView)
    requires
        n.wf(),
    ensures
        n.text_len == prefix_len(n.children, n.children.len() as int),
{
}

/// Each child's offset within a node is the summed length of the children
/// before it: `children[i].offset == Σ_{j<i} children[j].len()`.
pub proof fn lemma_child_offset_is_prefix_sum(n: NodeView, i: int)
    requires
        n.wf(),
        0 <= i < n.children.len(),
    ensures
        n.children[i].offset == prefix_len(n.children, i),
{
}

/// Whether `r` borrows the same element that the owning handle `c` holds.
pub open spec fn is_borrow_of(r: NodeOrToken<&Node, &Token>, c: NodeOrToken<
    Arc<Node>,
    Arc<Token>,
>) -> bool {
    match (r, c) {
        (NodeOrToken::Node(b), NodeOrToken::Node(a)) => *b == *a,
        (NodeOrToken::Token(b), NodeOrToken::Token(a)) => *b == *a,
        _ => false,
    }
}

impl Element {
    /// Borrow the child in this slot.
    pub fn get(&self) -> (r: NodeOrToken<&Node, &Token>)
        ensures
            is_borrow_of(r, self.child),
    {
        match &self.child {
            NodeOrToken::Node(a) => NodeOrToken::Node(&**a),
            NodeOrToken::Token(a) => NodeOrToken::Token(&**a),
        }
    }
}


impl PartialEq for Node {
    /// Nodes are equal exactly when their kinds, text lengths and child
    /// slots agree — each child slot by offset and by the identity of the
    /// handle it holds, not by deep structure: every interned child is
    /// already unique, so identity of children suffices.
    fn eq(&self, other: &Node) -> (r: bool) {
        proof {
            assert(self@.children.len() == self.children@.len());
            assert(other@.children.len() == other.children@.len());
        }
        if !(self.kind == other.kind && self.text_len == other.text_len && self.children.len()
            == other.children.len()) {
            return false;
        }
        let n = self.children.len();
        let mut j: usize = 0;
        while j < n
            invariant
                n == self.children@.len(),
                n == other.children@.len(),
                j <= n,
                forall|k: int| 0 <= k < j ==> self@.children[k] == other@.children[k],
            decreases n - j,
        {
            proof {
                assert(self.children@[j as int]@ == self@.children[j as int]);
                assert(other.children@[j as int]@ == other@.children[j as int]);
            }
            let e1 = &self.children[j];
            let e2 = &other.children[j];
            let same = e1.offset == e2.offset && match (&e1.child, &e2.child) {
                (NodeOrToken::Node(a), NodeOrToken::Node(b)) => a.id == b.id && a.text_len
                    == b.text_len,
                (NodeOrToken::Token(a), NodeOrToken::Token(b)) => a.id == b.id && a.text.len()
                    == b.text.len(),
                _ => false,
            };
            if !same {
                proof {
                    assert(self@.children[j as int] != other@.children[j as int]);
                    if self@.children == other@.children {
                        assert(self@.children[j as int] == other@.children[j as int]);
                    }
                }
                return false;
            }
            proof {
                assert(self@.children[j as int] =~= other@.children[j as int]);
            }
            j = j + 1;
        }
        proof {
            assert(self@.children =~= other@.children);
        }
        true
    }
}

impl vstd::std_specs::cmp::PartialEqSpecImpl for Node {
    open spec fn obeys_eq_spec() -> bool {
        true
    }

    open spec fn eq_spec(&self, other: &Node) -> bool {
        self@.kind == other@.kind && self@.text_len == other@.text_len && self@.children
            == other@.children
    }
}

impl Eq for Node {

}

impl NodeOrToken<Arc<Node>, Arc<Token>> {
    /// This element with the handle in either arm dereferenced to a borrow
    /// of the tree element it retains.
    pub fn as_deref(&self) -> (r: NodeOrToken<&Node, &Token>)
        ensures
            is_borrow_of(r, *self),
    {
        match self {
            NodeOrToken::Node(a) => NodeOrToken::Node(&**a),
            NodeOrToken::Token(a) => NodeOrToken::Token(&**a),
        }
    }
}

impl Node {
    /// The kind of this node.
    pub fn kind(&self) -> (r: Kind)
        ensures
            r == self@.kind,
    {
        self.kind
    }

    /// The length in bytes of the text covered by this node.
    pub fn len(&self) -> (r: TextSize)
        ensures
            r as nat == self@.text_len,
    {
        self.text_len
    }

    /// Child elements of this node.
    pub fn children(&self) -> (r: crate::green::Children<'_>)
        ensures
            r.remaining() == self.children@,
    {
        crate::green::Children::new(self.children.as_slice())
    }

    /// The index of the child whose text range contains the given offset.
    ///
    /// If the offset is the start of a child, returns that child.
    /// The offset must lie inside this node's text.
    pub fn index_of_offset(&self, offset: TextSize) -> (r: usize)
        requires
            self@.wf(),
            offset < self@.text_len,
        ensures
            r < self@.children.len(),
            self@.children[r as int].offset <= offset,
            offset < self@.children[r as int].offset + self@.children[r as int].child.len,
    {
        proof {
            if self.children.len() == 0 {
                assert(self@.text_len == prefix_len(self@.children, 0));
            }
        }
        let mut lo: usize = 0;
        let mut hi: usize = self.children.len();
        proof {
            assert(self@.children[0].offset == prefix_len(self@.children, 0));
        }
        while hi - lo > 1
            invariant
                self@.wf(),
                offset < self@.text_len,
                lo < hi <= self@.children.len(),
                self@.children.len() == self.children.len(),
                self@.children[lo as int].offset <= offset,
                hi < self@.children.len() ==> offset < self@.children[hi as int].offset,
            decreases hi - lo,
        {
            let mid = lo + (hi - lo) / 2;
            if self.children[mid].offset <= offset {
                lo = mid;
            } else {
                hi = mid;
            }
        }
        proof {
            let cs = self@.children;
            assert(cs[lo as int].offset + cs[lo as int].child.len == prefix_len(cs, lo + 1));
            if lo + 1 < cs.len() {
                assert(cs[lo + 1].offset == prefix_len(cs, lo + 1));
            } else {
                assert(self@.text_len == prefix_len(cs, cs.len() as int));
            }
        }
        lo
    }

    /// The child containing the given offset, with its index and offset.
    ///
    /// Returns the index of that child, the child's offset from the start of
    /// this node, and a borrow of the child itself.
    pub fn child_with_offset(&self, offset: TextSize) -> (r: (
        usize,
        TextSize,
        NodeOrToken<&Node, &Token>,
    ))
        requires
            self@.wf(),
            offset < self@.text_len,
        ensures
            r.0 < self@.children.len(),
            self@.children[r.0 as int].offset <= offset,
            offset < self@.children[r.0 as int].offset + self@.children[r.0 as int].child.len,
            r.1 as nat == self@.children[r.0 as int].offset,
            is_borrow_of(r.2, self.children@[r.0 as int].child),
    {
        let index = self.index_of_offset(offset);
        let element = &self.children[index];
        (index, element.offset, element.get())
    }
}

} // verus!
