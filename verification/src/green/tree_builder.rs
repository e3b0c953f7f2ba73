use crate::green::builder::Builder;
use crate::green::node::{Node, NodeView};
use crate::green::token::TokenView;
use crate::green::token::Token;
use crate::utils::{Kind, NodeOrToken};
use std::sync::Arc;
use vstd::prelude::*;

verus! {

use crate::green::builder::{
    child_views,
    node_step,
    prefix_child_len,
    token_step,
};
use crate::green::node::ChildView;

/// The identity a token contributes as a child.
pub open spec fn token_child(t: TokenView) -> ChildView {
    ChildView { is_node: false, id: t.id, len: t.text.len() }
}

/// The identity a node contributes as a child.
pub open spec fn node_child(n: NodeView) -> ChildView {
    ChildView { is_node: true, id: n.id, len: n.text_len }
}

/// Checkpoint for maybe wrapping a node. See [`TreeBuilder::checkpoint`].
#[derive(Debug, Copy, Clone, Ord, PartialOrd, Eq, PartialEq, Hash)]
pub struct Checkpoint(pub(crate) usize);

impl Checkpoint {
    /// The position in the child buffer that this checkpoint captured.
    pub closed spec fn pos(&self) -> int {
        self.0 as int
    }
}

/// Top-down builder context for a green tree.
///
/// A parser drives it with [`start_node`](TreeBuilder::start_node),
/// [`token`](TreeBuilder::token) and [`finish_node`](TreeBuilder::finish_node);
/// [`checkpoint`](TreeBuilder::checkpoint) and
/// [`start_node_at`](TreeBuilder::start_node_at) let it wrap elements it has
/// already emitted into a node after the fact. Every completed branch is
/// interned through the owned [`Builder`].
#[derive(Debug)]
pub struct TreeBuilder {
    cache: Builder,
    stack: Vec<(Kind, usize)>,
    children: Vec<NodeOrToken<Arc<Node>, Arc<Token>>>,
}

impl Default for TreeBuilder {
    /// A new builder with an empty cache.
    fn default() -> (r: TreeBuilder)
        ensures
            r.inv(),
            r.frames().len() == 0,
            r.buffer().len() == 0,
            r.cache_view().tokens.len() == 0,
            r.cache_view().nodes.len() == 0,
            r.cache_view().next_id == 0,
    {
        TreeBuilder::new()
    }
}

impl TreeBuilder {
    /// The cache this builder interns through.
    pub closed spec fn cache_spec(&self) -> Builder {
        self.cache
    }

    /// The value of the owned cache.
    pub open spec fn cache_view(&self) -> crate::green::BuilderView {
        self.cache_spec()@
    }

    /// The open frames: each started node's kind, and the buffer position
    /// where its children begin.
    pub closed spec fn frames(&self) -> Seq<(Kind, usize)> {
        self.stack@
    }

    /// The flat buffer of child handles emitted so far.
    pub closed spec fn buffer(&self) -> Seq<NodeOrToken<Arc<Node>, Arc<Token>>> {
        self.children@
    }

    /// The identities of the buffered children.
    pub open spec fn buffer_keys(&self) -> Seq<ChildView> {
        child_views(self.buffer())
    }

    /// Whether this handle is one the owned cache interned.
    pub closed spec fn owns_child(&self, c: NodeOrToken<Arc<Node>, Arc<Token>>) -> bool {
        self.cache.owns_child(c)
    }

    /// The builder is sound: its cache is, every buffered child is a handle
    /// the cache interned, and the open frames lie within the buffer in
    /// the order they were opened.
    pub closed spec fn inv(&self) -> bool {
        &&& self.cache.inv()
        &&& forall|i: int|
            0 <= i < self.children@.len() ==> self.cache.owns_child(#[trigger] self.children@[i])
        &&& forall|i: int| 0 <= i < self.stack@.len() ==> (#[trigger] self.stack@[i]).1 <= self.children@.len()
        &&& forall|i: int, j: int|
            0 <= i < j < self.stack@.len() ==> (#[trigger] self.stack@[i]).1 <= (
            #[trigger] self.stack@[j]).1
    }

    /// Create a new builder with an empty cache.
    pub fn new() -> (r: TreeBuilder)
        ensures
            r.inv(),
            r.frames().len() == 0,
            r.buffer().len() == 0,
            r.cache_view().tokens.len() == 0,
            r.cache_view().nodes.len() == 0,
            r.cache_view().next_id == 0,
    {
        TreeBuilder { cache: Builder::new(), stack: Vec::new(), children: Vec::new() }
    }

    /// Create a new builder, reusing a [`Builder`] cache.
    pub fn new_with(cache: Builder) -> (r: TreeBuilder)
        requires
            cache.inv(),
        ensures
            r.inv(),
            r.frames().len() == 0,
            r.buffer().len() == 0,
            r.cache_spec() == cache,
    {
        TreeBuilder { cache, stack: Vec::new(), children: Vec::new() }
    }

    /// The [`Builder`] used to create and deduplicate nodes.
    pub fn builder(&mut self) -> (r: &mut Builder)
        ensures
            *r == old(self).cache_spec(),
            final(self).cache_spec() == *final(r),
            final(self).frames() == old(self).frames(),
            final(self).buffer() == old(self).buffer(),
    {
        &mut self.cache
    }

    /// Add an element to the current branch.
    ///
    /// The handle must be one that this builder's cache interned.
    pub fn add(&mut self, element: NodeOrToken<Arc<Node>, Arc<Token>>)
        requires
            old(self).inv(),
            old(self).owns_child(element),
        ensures
            final(self).inv(),
            final(self).cache_spec() == old(self).cache_spec(),
            final(self).frames() == old(self).frames(),
            final(self).buffer() == old(self).buffer().push(element),
            final(self).owns_child(element),
            forall|c: NodeOrToken<Arc<Node>, Arc<Token>>|
                old(self).owns_child(c) ==> final(self).owns_child(c),
    {
        self.children.push(element);
    }

    /// Add a new token to the current branch.
    pub fn token(&mut self, kind: Kind, text: &[u8])
        requires
            old(self).inv(),
            old(self).cache_view().has_capacity(1),
            text@.len() <= u32::MAX,
        ensures
            final(self).inv(),
            final(self).cache_view() == token_step(old(self).cache_view(), kind, text@).0,
            final(self).frames() == old(self).frames(),
            final(self).buffer().len() == old(self).buffer().len() + 1,
            final(self).buffer().drop_last() == old(self).buffer(),
            final(self).buffer().last() matches NodeOrToken::Token(a) && a@ == token_step(
                old(self).cache_view(),
                kind,
                text@,
            ).1,
            final(self).buffer_keys() == old(self).buffer_keys().push(
                token_child(token_step(old(self).cache_view(), kind, text@).1),
            ),
            final(self).owns_child(final(self).buffer().last()),
            forall|c: NodeOrToken<Arc<Node>, Arc<Token>>|
                old(self).owns_child(c) ==> final(self).owns_child(c),
    {
        let ghost pre = self.buffer();
        let token = self.cache.token(kind, text);
        self.children.push(NodeOrToken::Token(token));
        proof {
            crate::green::builder::lemma_owns_child_monotone(old(self).cache_spec(), self.cache_spec());
        }
        proof {
            assert(self.buffer().drop_last() =~= pre);
        }
        proof {
            assert forall|i: int| 0 <= i < self.children@.len() implies self.cache.owns_child(
                #[trigger] self.children@[i],
            ) by {
                if i < pre.len() {
                    assert(self.children@[i] == pre[i]);
                    assert(old(self).cache_spec().owns_child(pre[i]));
                }
            }
            assert(self.buffer_keys() =~= old(self).buffer_keys().push(
                token_child(token_step(old(self).cache_view(), kind, text@).1),
            ));
        }
    }

    /// Add a new node with the given children to the current branch.
    ///
    /// The children must be handles that this builder's cache interned.
    pub fn node(&mut self, kind: Kind, children: Vec<NodeOrToken<Arc<Node>, Arc<Token>>>)
        requires
            old(self).inv(),
            old(self).cache_view().has_capacity(1),
            children@.len() <= 0xFFFF,
            forall|k: int|
                0 <= k < children@.len() ==> old(self).owns_child(#[trigger] children@[k]),
            prefix_child_len(child_views(children@), children@.len() as int) <= u32::MAX,
        ensures
            final(self).inv(),
            final(self).cache_view() == node_step(
                old(self).cache_view(),
                kind,
                child_views(children@),
            ).0,
            final(self).frames() == old(self).frames(),
            final(self).buffer().len() == old(self).buffer().len() + 1,
            final(self).buffer().drop_last() == old(self).buffer(),
            final(self).buffer().last() matches NodeOrToken::Node(a) && a@ == node_step(
                old(self).cache_view(),
                kind,
                child_views(children@),
            ).1,
            final(self).buffer_keys() == old(self).buffer_keys().push(
                node_child(node_step(old(self).cache_view(), kind, child_views(children@)).1),
            ),
            final(self).owns_child(final(self).buffer().last()),
            forall|c: NodeOrToken<Arc<Node>, Arc<Token>>|
                old(self).owns_child(c) ==> final(self).owns_child(c),
    {
        let ghost pre = self.buffer();
        let node = self.cache.node(kind, children);
        self.children.push(NodeOrToken::Node(node));
        proof {
            crate::green::builder::lemma_owns_child_monotone(old(self).cache_spec(), self.cache_spec());
        }
        proof {
            assert(self.buffer().drop_last() =~= pre);
        }
        proof {
            assert forall|i: int| 0 <= i < self.children@.len() implies self.cache.owns_child(
                #[trigger] self.children@[i],
            ) by {
                if i < pre.len() {
                    assert(self.children@[i] == pre[i]);
                    assert(old(self).cache_spec().owns_child(pre[i]));
                }
            }
            assert(self.buffer_keys() =~= old(self).buffer_keys().push(
                node_child(node_step(old(self).cache_view(), kind, child_views(children@)).1),
            ));
        }
    }

    /// Start a new child node and make it the current branch.
    pub fn start_node(&mut self, kind: Kind)
        requires
            old(self).inv(),
        ensures
            final(self).inv(),
            final(self).cache_spec() == old(self).cache_spec(),
            final(self).buffer() == old(self).buffer(),
            final(self).frames() == old(self).frames().push(
                (kind, old(self).buffer().len() as usize),
            ),
    {
        let at = self.children.len();
        self.stack.push((kind, at));
    }

    /// Prepare for maybe wrapping the next node.
    ///
    /// To potentially wrap elements into a node, first take a checkpoint,
    /// add some items that might be wrapped, then maybe call
    /// [`start_node_at`](TreeBuilder::start_node_at) — and afterwards still
    /// [`finish_node`](TreeBuilder::finish_node) for the node started there.
    /// This is what lets a precedence-climbing parser wrap the elements it
    /// has already emitted into a new node after the fact.
    pub fn checkpoint(&self) -> (r: Checkpoint)
        ensures
            r.pos() == self.buffer().len(),
    {
        Checkpoint(self.children.len())
    }

    /// Wrap the elements added after `checkpoint` in a new node, and make
    /// the new node the current branch.
    ///
    /// The checkpoint must still lie within the buffer — `finish_node` must
    /// not have consumed it — and within the currently open branch.
    pub fn start_node_at(&mut self, checkpoint: Checkpoint, kind: Kind)
        requires
            old(self).inv(),
            checkpoint.pos() <= old(self).buffer().len(),
            old(self).frames().len() > 0 ==> old(self).frames().last().1 <= checkpoint.pos(),
        ensures
            final(self).inv(),
            final(self).cache_spec() == old(self).cache_spec(),
            final(self).buffer() == old(self).buffer(),
            final(self).frames().len() == old(self).frames().len() + 1,
            final(self).frames().drop_last() == old(self).frames(),
            final(self).frames().last().0 == kind,
            final(self).frames().last().1 as int == checkpoint.pos(),
    {
        self.stack.push((kind, checkpoint.0));
    }

    /// Finish the current branch and restore its parent as current.
    ///
    /// Interns a node of the branch's kind holding every element added
    /// since the matching `start_node`, and adds it to the parent branch.
    pub fn finish_node(&mut self)
        requires
            old(self).inv(),
            old(self).frames().len() > 0,
            old(self).cache_view().has_capacity(1),
            old(self).buffer().len() - old(self).frames().last().1 <= 0xFFFF,
            prefix_child_len(
                old(self).buffer_keys().skip(old(self).frames().last().1 as int),
                old(self).buffer().len() - old(self).frames().last().1,
            ) <= u32::MAX,
        ensures
            final(self).inv(),
            final(self).frames() == old(self).frames().drop_last(),
            ({
                let first = old(self).frames().last().1 as int;
                let kind = old(self).frames().last().0;
                let key = old(self).buffer_keys().skip(first);
                let (cache2, nv) = node_step(old(self).cache_view(), kind, key);
                &&& final(self).cache_view() == cache2
                &&& final(self).buffer().len() == first + 1
                &&& final(self).buffer().drop_last() == old(self).buffer().take(first)
                &&& (final(self).buffer().last() matches NodeOrToken::Node(a) && a@ == nv)
                &&& final(self).buffer_keys() == old(self).buffer_keys().take(first).push(
                    node_child(nv),
                )
            }),
            final(self).owns_child(final(self).buffer().last()),
            forall|c: NodeOrToken<Arc<Node>, Arc<Token>>|
                old(self).owns_child(c) ==> final(self).owns_child(c),
    {
        let frame = self.stack.pop();
        let (kind, first) = match frame {
            Some(f) => f,
            None => unreached(),
        };
        let ghost pre_buf = self.buffer();
        let ghost key = self.buffer_keys().skip(first as int);
        let seg = self.children.split_off(first);
        proof {
            assert(child_views(seg@) =~= key);
            assert forall|k: int| 0 <= k < seg@.len() implies self.cache.owns_child(
                #[trigger] seg@[k],
            ) by {
                assert(seg@[k] == pre_buf[first + k]);
                assert(old(self).cache_spec().owns_child(pre_buf[first + k]));
            }
        }
        let node = self.cache.node(kind, seg);
        self.children.push(NodeOrToken::Node(node));
        proof {
            assert forall|i: int| 0 <= i < self.children@.len() implies self.cache.owns_child(
                #[trigger] self.children@[i],
            ) by {
                if i < first {
                    assert(self.children@[i] == pre_buf[i]);
                    assert(old(self).cache_spec().owns_child(pre_buf[i]));
                }
            }
            assert(self.buffer_keys() =~= old(self).buffer_keys().take(first as int).push(
                node_child(node_step(old(self).cache_view(), kind, key).1),
            ));
            assert(self.buffer().drop_last() =~= old(self).buffer().take(first as int));
            assert(self.frames() =~= old(self).frames().drop_last());
            crate::green::builder::lemma_owns_child_monotone(
                old(self).cache_spec(),
                self.cache_spec(),
            );
        }
    }

    /// Finish the current branch up to a given checkpoint, and restore its
    /// parent as current.
    ///
    /// Elements added after the checkpoint are shifted from the finished
    /// branch to its parent, after the newly created node. Prefer
    /// [`finish_node`](TreeBuilder::finish_node) where possible: it does
    /// not have to move the elements after the checkpoint.
    pub fn finish_node_at(&mut self, checkpoint: Checkpoint)
        requires
            old(self).inv(),
            old(self).frames().len() > 0,
            checkpoint.pos() <= old(self).buffer().len(),
            old(self).frames().last().1 <= checkpoint.pos(),
            old(self).cache_view().has_capacity(1),
            checkpoint.pos() - old(self).frames().last().1 <= 0xFFFF,
            prefix_child_len(
                old(self).buffer_keys().subrange(
                    old(self).frames().last().1 as int,
                    checkpoint.pos(),
                ),
                checkpoint.pos() - old(self).frames().last().1,
            ) <= u32::MAX,
        ensures
            final(self).inv(),
            final(self).frames() == old(self).frames().drop_last(),
            ({
                let first = old(self).frames().last().1 as int;
                let kind = old(self).frames().last().0;
                let key = old(self).buffer_keys().subrange(first, checkpoint.pos());
                let (cache2, nv) = node_step(old(self).cache_view(), kind, key);
                &&& final(self).cache_view() == cache2
                &&& final(self).buffer().len() == first + 1 + (old(self).buffer().len()
                    - checkpoint.pos())
                &&& final(self).buffer().take(first) == old(self).buffer().take(first)
                &&& (final(self).buffer()[first] matches NodeOrToken::Node(a) && a@ == nv)
                &&& final(self).buffer().skip(first + 1) == old(self).buffer().skip(
                    checkpoint.pos(),
                )
                &&& final(self).buffer_keys() == old(self).buffer_keys().take(first).push(
                    node_child(nv),
                ) + old(self).buffer_keys().skip(checkpoint.pos())
            }),
            forall|c: NodeOrToken<Arc<Node>, Arc<Token>>|
                old(self).owns_child(c) ==> final(self).owns_child(c),
    {
        let frame = self.stack.pop();
        let (kind, first) = match frame {
            Some(f) => f,
            None => unreached(),
        };
        let ghost pre_buf = self.buffer();
        let ghost key = self.buffer_keys().subrange(first as int, checkpoint.pos());
        let mut tail = self.children.split_off(checkpoint.0);
        let seg = self.children.split_off(first);
        proof {
            assert(child_views(seg@) =~= key);
            assert forall|k: int| 0 <= k < seg@.len() implies self.cache.owns_child(
                #[trigger] seg@[k],
            ) by {
                assert(seg@[k] == pre_buf[first + k]);
                assert(old(self).cache_spec().owns_child(pre_buf[first + k]));
            }
        }
        let node = self.cache.node(kind, seg);
        self.children.push(NodeOrToken::Node(node));
        self.children.append(&mut tail);
        proof {
            assert forall|i: int| 0 <= i < self.children@.len() implies self.cache.owns_child(
                #[trigger] self.children@[i],
            ) by {
                if i < first {
                    assert(self.children@[i] == pre_buf[i]);
                    assert(old(self).cache_spec().owns_child(pre_buf[i]));
                } else if i > first {
                    assert(self.children@[i] == pre_buf[checkpoint.pos() + (i - first - 1)]);
                    assert(old(self).cache_spec().owns_child(
                        pre_buf[checkpoint.pos() + (i - first - 1)],
                    ));
                }
            }
            assert(self.buffer_keys() =~= old(self).buffer_keys().take(first as int).push(
                node_child(node_step(old(self).cache_view(), kind, key).1),
            ) + old(self).buffer_keys().skip(checkpoint.pos()));
            assert(self.buffer().take(first as int) =~= old(self).buffer().take(first as int));
            assert(self.buffer().skip(first + 1) =~= old(self).buffer().skip(checkpoint.pos()));
            assert(self.frames() =~= old(self).frames().drop_last());
            crate::green::builder::lemma_owns_child_monotone(
                old(self).cache_spec(),
                self.cache_spec(),
            );
        }
    }

    /// Complete the current tree building and return the root.
    ///
    /// Every started node must have been finished, and exactly one element
    /// — a node — must remain in the buffer. The builder is reset and can
    /// be used to build another tree through the same cache.
    pub fn finish(&mut self) -> (r: Arc<Node>)
        requires
            old(self).inv(),
            old(self).frames().len() == 0,
            old(self).buffer().len() == 1,
            old(self).buffer_keys()[0].is_node,
        ensures
            final(self).inv(),
            final(self).cache_spec() == old(self).cache_spec(),
            final(self).frames().len() == 0,
            final(self).buffer().len() == 0,
            old(self).buffer()[0] matches NodeOrToken::Node(a) && r == a,
            node_child(r@) == old(self).buffer_keys()[0],
            final(self).owns_child(NodeOrToken::Node(r)),
            r@.wf(),
    {
        let last = self.children.pop();
        match last {
            Some(NodeOrToken::Node(node)) => {
                proof {
                    assert(old(self).buffer()[0] matches NodeOrToken::Node(a) && a == node);
                    assert(old(self).cache_spec().owns_child(old(self).buffer()[0]));
                    crate::green::builder::lemma_owned_node_wf(&self.cache, &node);
                }
                node
            },
            _ => unreached(),
        }
    }

    /// Destroy this tree builder and recycle its build cache.
    pub fn recycle(self) -> (r: Builder)
        requires
            self.inv(),
        ensures
            r.inv(),
            r == self.cache_spec(),
    {
        self.cache
    }
}

/// The two ownership views coincide: a tree builder owns exactly the
/// handles its cache interned, so what [`Builder::token`] and
/// [`Builder::node`] promise about the cache carries over to
/// [`TreeBuilder::add`] and the other methods that ask for owned handles.
pub proof fn lemma_owns_is_cache_owns(tb: &TreeBuilder, c: NodeOrToken<Arc<Node>, Arc<Token>>)
    ensures
        tb.owns_child(c) <==> tb.cache_spec().owns_child(c),
{
}

} // verus!
