use crate::green::node::{child_view, ChildView, Element, ElemView, Node, NodeView};
use crate::green::token::{Token, TokenView};
use crate::utils::{Kind, NodeOrToken};
use std::sync::Arc;
use vstd::prelude::*;

verus! {

use crate::green::node::prefix_len;

/// The mathematical value of a [`Builder`]: the interned tokens and nodes in
/// insertion order, and the watermark below which all identities lie.
#[verifier::ext_equal]
pub struct BuilderView {
    pub tokens: Seq<TokenView>,
    pub nodes: Seq<NodeView>,
    pub next_id: nat,
}

/// Whether an interned token carries the given key.
pub open spec fn token_key_matches(t: TokenView, kind: Kind, text: Seq<u8>) -> bool {
    t.kind == kind && t.text == text
}

/// The index of the token with the given key, if one is interned.
pub open spec fn token_lookup(tokens: Seq<TokenView>, kind: Kind, text: Seq<u8>) -> Option<int> {
    if exists|i: int| 0 <= i < tokens.len() && token_key_matches(#[trigger] tokens[i], kind, text) {
        Some(choose|i: int| 0 <= i < tokens.len() && token_key_matches(#[trigger] tokens[i], kind, text))
    } else {
        None
    }
}

/// What interning a token does: return the interned token with this key if
/// there is one, otherwise append a fresh one under the next identity.
pub open spec fn token_step(b: BuilderView, kind: Kind, text: Seq<u8>) -> (BuilderView, TokenView) {
    match token_lookup(b.tokens, kind, text) {
        Some(i) => (b, b.tokens[i]),
        None => {
            let t = TokenView { id: b.next_id as u64, kind, text };
            (BuilderView { tokens: b.tokens.push(t), nodes: b.nodes, next_id: b.next_id + 1 }, t)
        },
    }
}

/// The identities of the children of a node, in order, without offsets.
pub open spec fn children_of(n: NodeView) -> Seq<ChildView> {
    n.children.map_values(|e: ElemView| e.child)
}

/// Whether an interned node carries the given key: its kind, and the
/// identities of its children in order.
pub open spec fn node_key_matches(n: NodeView, kind: Kind, key: Seq<ChildView>) -> bool {
    n.kind == kind && children_of(n) == key
}

/// The index of the node with the given key, if one is interned.
pub open spec fn node_lookup(nodes: Seq<NodeView>, kind: Kind, key: Seq<ChildView>) -> Option<int> {
    if exists|i: int| 0 <= i < nodes.len() && node_key_matches(#[trigger] nodes[i], kind, key) {
        Some(choose|i: int| 0 <= i < nodes.len() && node_key_matches(#[trigger] nodes[i], kind, key))
    } else {
        None
    }
}

/// The summed text length of the first `i` children in a key.
pub open spec fn prefix_child_len(s: Seq<ChildView>, i: int) -> nat
    decreases i,
{
    if i <= 0 {
        0
    } else {
        prefix_child_len(s, i - 1) + s[i - 1].len
    }
}

/// The child slots of a node built from the given children: each child at
/// the offset that is the summed length of the children before it.
pub open spec fn elems_of(key: Seq<ChildView>) -> Seq<ElemView> {
    Seq::new(key.len(), |i: int| ElemView { offset: prefix_child_len(key, i), child: key[i] })
}

/// What interning a node does: return the interned node with this key if
/// there is one, otherwise append a fresh one under the next identity, with
/// its children at their prefix-sum offsets.
pub open spec fn node_step(b: BuilderView, kind: Kind, key: Seq<ChildView>) -> (BuilderView, NodeView) {
    match node_lookup(b.nodes, kind, key) {
        Some(i) => (b, b.nodes[i]),
        None => {
            let n = NodeView {
                id: b.next_id as u64,
                kind,
                text_len: prefix_child_len(key, key.len() as int),
                children: elems_of(key),
            };
            (BuilderView { tokens: b.tokens, nodes: b.nodes.push(n), next_id: b.next_id + 1 }, n)
        },
    }
}

/// The identities of a sequence of child handles.
pub open spec fn child_views(cs: Seq<NodeOrToken<Arc<Node>, Arc<Token>>>) -> Seq<ChildView> {
    cs.map_values(|c: NodeOrToken<Arc<Node>, Arc<Token>>| child_view(c))
}

impl BuilderView {
    /// Whether `k` more identities can still be assigned.
    pub open spec fn has_capacity(self, k: nat) -> bool {
        self.next_id + k <= u64::MAX
    }

    /// Whether a child identity names an interned entry of the right length.
    pub open spec fn resolves(self, c: ChildView) -> bool {
        if c.is_node {
            exists|k: int|
                0 <= k < self.nodes.len() && (#[trigger] self.nodes[k]).id == c.id
                    && self.nodes[k].text_len == c.len
        } else {
            exists|k: int|
                0 <= k < self.tokens.len() && (#[trigger] self.tokens[k]).id == c.id
                    && self.tokens[k].text.len() == c.len
        }
    }

    /// Soundness of the interning pool:
    /// - all identities lie below the watermark and are distinct, so the
    ///   watermark also bounds how many entries there are;
    /// - no two interned tokens share a key, and no two interned nodes do,
    ///   so a key names at most one entry;
    /// - every interned token and node is itself well formed;
    /// - the children of every interned node are interned here too, and were
    ///   interned before it: their identities lie below the node's own.
    pub open spec fn wf(self) -> bool {
        &&& self.tokens.len() + self.nodes.len() <= self.next_id
        &&& forall|i: int| 0 <= i < self.tokens.len() ==> (#[trigger] self.tokens[i]).id < self.next_id
        &&& forall|i: int| 0 <= i < self.nodes.len() ==> (#[trigger] self.nodes[i]).id < self.next_id
        &&& forall|i: int, j: int|
            0 <= i < self.tokens.len() && 0 <= j < self.tokens.len() && (#[trigger] self.tokens[i]).id
                == (#[trigger] self.tokens[j]).id ==> i == j
        &&& forall|i: int, j: int|
            0 <= i < self.nodes.len() && 0 <= j < self.nodes.len() && (#[trigger] self.nodes[i]).id
                == (#[trigger] self.nodes[j]).id ==> i == j
        &&& forall|i: int, j: int|
            0 <= i < self.tokens.len() && 0 <= j < self.nodes.len() ==> (#[trigger] self.tokens[i]).id
                != (#[trigger] self.nodes[j]).id
        &&& forall|i: int, j: int|
            0 <= i < self.tokens.len() && 0 <= j < self.tokens.len() && (#[trigger] self.tokens[i]).kind
                == (#[trigger] self.tokens[j]).kind && self.tokens[i].text == self.tokens[j].text
                ==> i == j
        &&& forall|i: int, j: int|
            0 <= i < self.nodes.len() && 0 <= j < self.nodes.len() && (#[trigger] self.nodes[i]).kind
                == (#[trigger] self.nodes[j]).kind && children_of(self.nodes[i]) == children_of(
                self.nodes[j],
            ) ==> i == j
        &&& forall|i: int| 0 <= i < self.tokens.len() ==> (#[trigger] self.tokens[i]).wf()
        &&& forall|i: int| 0 <= i < self.nodes.len() ==> (#[trigger] self.nodes[i]).wf()
        &&& forall|i: int, j: int|
            0 <= i < self.nodes.len() && 0 <= j < self.nodes[i].children.len() ==> self.resolves(
                (#[trigger] self.nodes[i].children[j]).child,
            )
        &&& forall|i: int, j: int|
            0 <= i < self.nodes.len() && 0 <= j < self.nodes[i].children.len() ==> (
            #[trigger] self.nodes[i].children[j]).child.id < self.nodes[i].id
    }
}

/// Construction cache for green tree elements.
///
/// As the green tree is immutable, identical nodes can be deduplicated:
/// asking the builder twice for a token or node with the same key returns
/// two handles to one allocation. The pool keeps one handle to every entry
/// it has interned; [`gc`](Builder::gc) prunes entries that no handle
/// outside the pool retains any longer.
#[derive(Debug, Clone)]
pub struct Builder {
    tokens: Vec<Arc<Token>>,
    nodes: Vec<Arc<Node>>,
    next_id: u64,
}

impl View for Builder {
    type V = BuilderView;

    closed spec fn view(&self) -> BuilderView {
        BuilderView {
            tokens: self.tokens@.map_values(|a: Arc<Token>| a@),
            nodes: self.nodes@.map_values(|a: Arc<Node>| a@),
            next_id: self.next_id as nat,
        }
    }
}

impl Default for Builder {
    /// A new builder with an empty pool.
    fn default() -> (r: Builder)
        ensures
            r.inv(),
            r@.tokens.len() == 0,
            r@.nodes.len() == 0,
            r@.next_id == 0,
    {
        Builder::new()
    }
}

impl Builder {
    /// Whether this exact token value (identity included) is interned here.
    pub closed spec fn owns_token(&self, t: Token) -> bool {
        exists|k: int| 0 <= k < self.tokens@.len() && *(#[trigger] self.tokens@[k]) == t
    }

    /// Whether this exact node value (identity included) is interned here.
    pub closed spec fn owns_node(&self, n: Node) -> bool {
        exists|k: int| 0 <= k < self.nodes@.len() && *(#[trigger] self.nodes@[k]) == n
    }

    /// Whether the handle in a child slot is a handle this builder interned.
    pub open spec fn owns_child(&self, c: NodeOrToken<Arc<Node>, Arc<Token>>) -> bool {
        match c {
            NodeOrToken::Node(a) => self.owns_node(*a),
            NodeOrToken::Token(a) => self.owns_token(*a),
        }
    }

    /// The pool is sound: its value is well formed, and the child handles
    /// stored inside interned nodes are themselves handles interned here.
    pub closed spec fn inv(&self) -> bool {
        &&& self@.wf()
        &&& forall|i: int, j: int|
            0 <= i < self.nodes@.len() && 0 <= j < self.nodes@[i].children@.len()
                ==> self.owns_child((#[trigger] self.nodes@[i].children@[j]).child)
    }

    /// Create a new builder with an empty pool.
    pub fn new() -> (r: Builder)
        ensures
            r.inv(),
            r@.tokens.len() == 0,
            r@.nodes.len() == 0,
            r@.next_id == 0,
    {
        let r = Builder { tokens: Vec::new(), nodes: Vec::new(), next_id: 0 };
        proof {
            assert(r@.tokens.len() == 0);
            assert(r@.nodes.len() == 0);
        }
        r
    }

    /// The number of cached elements.
    ///
    /// Identities are assigned one per cached entry, so the watermark
    /// bounds the pool and the sum cannot overflow while the watermark
    /// fits the address space.
    pub fn size(&self) -> (r: usize)
        requires
            self.inv(),
            self@.next_id <= usize::MAX,
        ensures
            r == self@.tokens.len() + self@.nodes.len(),
    {
        proof {
            assert(self@.tokens.len() + self@.nodes.len() <= self@.next_id);
        }
        self.tokens.len() + self.nodes.len()
    }

    /// The number of identities this builder can still assign.
    pub(crate) fn id_budget(&self) -> (r: u64)
        ensures
            r as nat == u64::MAX - self@.next_id,
    {
        u64::MAX - self.next_id
    }

    /// The index of the interned token with the given key, if any.
    fn find_token(&self, kind: Kind, text: &[u8]) -> (r: Option<usize>)
        ensures
            match r {
                Some(i) => 0 <= i < self@.tokens.len() && token_key_matches(
                    self@.tokens[i as int],
                    kind,
                    text@,
                ),
                None => forall|i: int|
                    0 <= i < self@.tokens.len() ==> !token_key_matches(
                        #[trigger] self@.tokens[i],
                        kind,
                        text@,
                    ),
            },
    {
        let n = self.tokens.len();
        let mut i: usize = 0;
        while i < n
            invariant
                n == self@.tokens.len(),
                i <= n,
                forall|j: int|
                    0 <= j < i ==> !token_key_matches(#[trigger] self@.tokens[j], kind, text@),
            decreases n - i,
        {
            let t = &self.tokens[i];
            if t.kind == kind && bytes_eq(t.text.as_slice(), text) {
                proof {
                    assert(self@.tokens[i as int] == self.tokens@[i as int]@);
                }
                return Some(i);
            }
            proof {
                assert(self@.tokens[i as int] == self.tokens@[i as int]@);
            }
            i = i + 1;
        }
        None
    }

    /// Create a new token or a second handle to an existing equivalent one.
    ///
    /// Looks the key `(kind, text)` up by content; on a miss a fresh token is
    /// allocated and interned, on a hit the interned token is returned, so
    /// equal keys always yield handles to one allocation.
    pub fn token(&mut self, kind: Kind, text: &[u8]) -> (r: Arc<Token>)
        requires
            old(self).inv(),
            old(self)@.has_capacity(1),
            text@.len() <= u32::MAX,
        ensures
            final(self).inv(),
            r@ == token_step(old(self)@, kind, text@).1,
            final(self)@ == token_step(old(self)@, kind, text@).0,
            final(self).owns_token(*r),
            forall|t: Token| old(self).owns_token(t) ==> final(self).owns_token(t),
            forall|n: Node| old(self).owns_node(n) ==> final(self).owns_node(n),
    {
        let ghost pre = self@;
        match self.find_token(kind, text) {
            Some(i) => {
                let r = self.tokens[i].clone();
                proof {
                    let found = choose|j: int|
                        0 <= j < pre.tokens.len() && token_key_matches(
                            #[trigger] pre.tokens[j],
                            kind,
                            text@,
                        );
                    assert(token_key_matches(pre.tokens[i as int], kind, text@));
                    assert(token_key_matches(pre.tokens[found], kind, text@));
                    assert(found == i);
                    assert(r@ == pre.tokens[i as int]);
                }
                r
            },
            None => {
                let id = self.next_id;
                self.next_id = id + 1;
                let tok = Token::make(id, kind, copy_bytes(text));
                let arc = Arc::new(tok);
                self.tokens.push(arc.clone());
                proof {
                    let tv = TokenView { id, kind, text: text@ };
                    assert(self@.tokens =~= pre.tokens.push(tv));
                    assert(self@.nodes =~= pre.nodes);
                    assert(self@ =~= token_step(pre, kind, text@).0);
                    assert(arc@ == tv);
                    assert(*self.tokens@[pre.tokens.len() as int] == *arc);
                    assert(self.owns_token(*arc));
                    lemma_token_insert_wf(pre, kind, text@);
                    // the untouched nodes still own their child handles
                    assert forall|i: int, j: int|
                        0 <= i < self.nodes@.len() && 0 <= j
                            < self.nodes@[i].children@.len() implies self.owns_child(
                        (#[trigger] self.nodes@[i].children@[j]).child,
                    ) by {
                        assert(old(self).owns_child(self.nodes@[i].children@[j].child));
                        lemma_owns_grows(old(self), self, self.nodes@[i].children@[j].child);
                    }
                    assert forall|t: Token| old(self).owns_token(t) implies self.owns_token(t) by {
                        let k = choose|k: int|
                            0 <= k < old(self).tokens@.len() && *(#[trigger] old(
                                self,
                            ).tokens@[k]) == t;
                        assert(*self.tokens@[k] == t);
                    }
                }
                arc
            },
        }
    }
}

impl Builder {
    /// Whether the children of interned node `i` carry exactly the given
    /// child identities.
    fn children_key_eq(&self, i: usize, children: &Vec<NodeOrToken<Arc<Node>, Arc<Token>>>) -> (r:
        bool)
        requires
            self.inv(),
            i < self@.nodes.len(),
            forall|k: int|
                0 <= k < children@.len() ==> self.owns_child(#[trigger] children@[k]),
            self@.nodes[i as int].children.len() == children@.len(),
        ensures
            r == (children_of(self@.nodes[i as int]) == child_views(children@)),
    {
        let ghost nv = self@.nodes[i as int];
        let ghost cv_key = children_of(nv);
        let ghost ck = child_views(children@);
        let cand = &self.nodes[i];
        proof {
            assert(cand@ == nv);
        }
        let m = children.len();
        assert(cand.children@.len() == m);
        let mut j: usize = 0;
        while j < m
            invariant
                self.inv(),
                i < self@.nodes.len(),
                nv == self@.nodes[i as int],
                cv_key == children_of(nv),
                ck == child_views(children@),
                forall|k: int|
                    0 <= k < children@.len() ==> self.owns_child(#[trigger] children@[k]),
                cand@ == nv,
                m == children@.len(),
                cand.children@.len() == m,
                nv.children.len() == m,
                cv_key.len() == m,
                ck.len() == m,
                j <= m,
                forall|k: int| 0 <= k < j ==> cv_key[k] == ck[k],
            decreases m - j,
        {
            proof {
                assert(cand.children@[j as int]@ == nv.children[j as int]);
                assert(cv_key[j as int] == nv.children[j as int].child);
                assert(ck[j as int] == child_view(children@[j as int]));
            }
            let same = match (&cand.children[j].child, &children[j]) {
                (NodeOrToken::Node(x), NodeOrToken::Node(y)) => x.id == y.id,
                (NodeOrToken::Token(x), NodeOrToken::Token(y)) => x.id == y.id,
                _ => false,
            };
            if !same {
                proof {
                    assert(cv_key[j as int] != ck[j as int]);
                    if children_of(self@.nodes[i as int]) == child_views(children@) {
                        assert(cv_key[j as int] == ck[j as int]);
                    }
                }
                return false;
            }
            proof {
                assert(self@.resolves(nv.children[j as int].child));
                lemma_same_identity_same_len(self, cv_key[j as int], children@[j as int]);
            }
            j = j + 1;
        }
        proof {
            assert(cv_key =~= ck);
        }
        true
    }

    /// The index of the interned node with the given key, if any.
    fn find_node(&self, kind: Kind, children: &Vec<NodeOrToken<Arc<Node>, Arc<Token>>>) -> (r:
        Option<usize>)
        requires
            self.inv(),
            forall|k: int|
                0 <= k < children@.len() ==> self.owns_child(#[trigger] children@[k]),
        ensures
            match r {
                Some(i) => 0 <= i < self@.nodes.len() && node_key_matches(
                    self@.nodes[i as int],
                    kind,
                    child_views(children@),
                ),
                None => forall|i: int|
                    0 <= i < self@.nodes.len() ==> !node_key_matches(
                        #[trigger] self@.nodes[i],
                        kind,
                        child_views(children@),
                    ),
            },
    {
        let ghost ck = child_views(children@);
        let n = self.nodes.len();
        let mut i: usize = 0;
        while i < n
            invariant
                self.inv(),
                ck == child_views(children@),
                forall|k: int|
                    0 <= k < children@.len() ==> self.owns_child(#[trigger] children@[k]),
                n == self@.nodes.len(),
                i <= n,
                forall|j: int| 0 <= j < i ==> !node_key_matches(#[trigger] self@.nodes[j], kind, ck),
            decreases n - i,
        {
            let ghost nv = self@.nodes[i as int];
            let cand = &self.nodes[i];
            proof {
                assert(cand@ == nv);
                assert(children_of(nv).len() == nv.children.len());
            }
            if cand.kind == kind && cand.children.len() == children.len() {
                if self.children_key_eq(i, children) {
                    return Some(i);
                }
            }
            i = i + 1;
        }
        None
    }

    /// Create a new node or a second handle to an existing equivalent one.
    ///
    /// The lookup checks children for identity, not structure, so it is
    /// `O(children.len())` per candidate and deduplicates higher-level nodes
    /// exactly when the lower-level nodes were interned through this builder
    /// too — which is why the children must be handles this builder owns.
    /// The new node stores each child at the offset that is the summed
    /// length of the children before it.
    pub fn node(&mut self, kind: Kind, children: Vec<NodeOrToken<Arc<Node>, Arc<Token>>>) -> (r:
        Arc<Node>)
        requires
            old(self).inv(),
            old(self)@.has_capacity(1),
            children@.len() <= 0xFFFF,
            forall|k: int|
                0 <= k < children@.len() ==> old(self).owns_child(#[trigger] children@[k]),
            prefix_child_len(child_views(children@), children@.len() as int) <= u32::MAX,
        ensures
            final(self).inv(),
            r@ == node_step(old(self)@, kind, child_views(children@)).1,
            final(self)@ == node_step(old(self)@, kind, child_views(children@)).0,
            final(self).owns_node(*r),
            r@.wf(),
            forall|t: Token| old(self).owns_token(t) ==> final(self).owns_token(t),
            forall|n: Node| old(self).owns_node(n) ==> final(self).owns_node(n),
    {
        let ghost pre = self@;
        let ghost key = child_views(children@);
        match self.find_node(kind, &children) {
            Some(i) => {
                let r = self.nodes[i].clone();
                proof {
                    let found = choose|j: int|
                        0 <= j < pre.nodes.len() && node_key_matches(
                            #[trigger] pre.nodes[j],
                            kind,
                            key,
                        );
                    assert(node_key_matches(pre.nodes[i as int], kind, key));
                    assert(node_key_matches(pre.nodes[found], kind, key));
                    assert(found == i);
                    assert(r@ == pre.nodes[i as int]);
                }
                r
            },
            None => {
                let n = children.len();
                let mut elements: Vec<Element> = Vec::new();
                let mut offset: u32 = 0;
                let mut i: usize = 0;
                while i < n
                    invariant
                        self.inv(),
                        self@ == pre,
                        key == child_views(children@),
                        forall|k: int|
                            0 <= k < children@.len() ==> self.owns_child(#[trigger] children@[k]),
                        n == children@.len(),
                        n <= 0xFFFF,
                        prefix_child_len(key, n as int) <= u32::MAX,
                        i <= n,
                        elements@.len() == i,
                        offset == prefix_child_len(key, i as int),
                        forall|k: int|
                            0 <= k < i ==> (#[trigger] elements@[k])@ == (ElemView {
                                offset: prefix_child_len(key, k),
                                child: key[k],
                            }),
                        forall|k: int| 0 <= k < i ==> (#[trigger] elements@[k]).child == children@[k],
                    decreases n - i,
                {
                    proof {
                        lemma_owned_child_resolves(self, children@[i as int]);
                        lemma_prefix_child_len_monotone(key, i + 1, n as int);
                    }
                    let c = dup_child(&children[i]);
                    let l = child_len(&c);
                    elements.push(Element { offset, child: c });
                    offset = offset + l;
                    i = i + 1;
                }
                let id = self.next_id;
                self.next_id = id + 1;
                let node = Node { id, kind, text_len: offset, children: elements };
                let arc = Arc::new(node);
                self.nodes.push(arc.clone());
                proof {
                    let nv = NodeView {
                        id,
                        kind,
                        text_len: prefix_child_len(key, key.len() as int),
                        children: elems_of(key),
                    };
                    assert(arc@.children =~= elems_of(key));
                    assert(arc@ =~= nv);
                    assert(self@.nodes =~= pre.nodes.push(nv));
                    assert(self@.tokens =~= pre.tokens);
                    assert(self@ =~= node_step(pre, kind, key).0);
                    assert forall|k: int| 0 <= k < key.len() implies pre.resolves(#[trigger] key[k]) by {
                        lemma_owned_child_resolves(old(self), children@[k]);
                    }
                    lemma_node_insert_wf(pre, kind, key);
                    assert(*self.nodes@[pre.nodes.len() as int] == *arc);
                    assert(self.owns_node(*arc));
                    // each stored child handle is owned, before and after
                    assert forall|i2: int, j2: int|
                        0 <= i2 < self.nodes@.len() && 0 <= j2
                            < self.nodes@[i2].children@.len() implies self.owns_child(
                        (#[trigger] self.nodes@[i2].children@[j2]).child,
                    ) by {
                        if i2 < pre.nodes.len() {
                            assert(old(self).owns_child(self.nodes@[i2].children@[j2].child));
                            lemma_owns_grows(old(self), self, self.nodes@[i2].children@[j2].child);
                        } else {
                            assert(self.nodes@[i2] == arc);
                            assert(self.nodes@[i2].children@[j2].child == children@[j2]);
                            assert(old(self).owns_child(children@[j2]));
                            lemma_owns_grows(old(self), self, children@[j2]);
                        }
                    }
                    assert forall|t: Token| old(self).owns_token(t) implies self.owns_token(t) by {
                        let k = choose|k: int|
                            0 <= k < old(self).tokens@.len() && *(#[trigger] old(
                                self,
                            ).tokens@[k]) == t;
                        assert(*self.tokens@[k] == t);
                    }
                    assert forall|n2: Node| old(self).owns_node(n2) implies self.owns_node(n2) by {
                        let k = choose|k: int|
                            0 <= k < old(self).nodes@.len() && *(#[trigger] old(self).nodes@[k])
                                == n2;
                        assert(*self.nodes@[k] == n2);
                    }
                }
                arc
            },
        }
    }
}

/// Whether `s` is `t` with zero or more entries left out, order kept.
pub open spec fn is_subseq_of<A>(s: Seq<A>, t: Seq<A>) -> bool {
    exists|m: Seq<int>|
        {
            &&& m.len() == s.len()
            &&& forall|k: int| 0 <= k < m.len() ==> 0 <= #[trigger] m[k] < t.len()
            &&& forall|k1: int, k2: int| 0 <= k1 < k2 < m.len() ==> m[k1] < m[k2]
            &&& forall|k: int| 0 <= k < m.len() ==> s[k] == t[#[trigger] m[k]]
        }
}

/// Every sequence arises from itself by leaving nothing out.
pub proof fn lemma_subseq_refl<A>(s: Seq<A>)
    ensures
        is_subseq_of(s, s),
{
    let m = Seq::new(s.len(), |k: int| k);
    assert(m.len() == s.len() && (forall|k: int| 0 <= k < m.len() ==> 0 <= #[trigger] m[k] < s.len())
        && (forall|k1: int, k2: int| 0 <= k1 < k2 < m.len() ==> m[k1] < m[k2]) && (forall|k: int|
        0 <= k < m.len() ==> s[k] == s[#[trigger] m[k]]));
}

/// Leaving entries out twice is leaving entries out once.
pub proof fn lemma_subseq_trans<A>(a: Seq<A>, b: Seq<A>, c: Seq<A>)
    requires
        is_subseq_of(a, b),
        is_subseq_of(b, c),
    ensures
        is_subseq_of(a, c),
{
    let m1 = choose|m: Seq<int>|
        {
            &&& m.len() == a.len()
            &&& forall|k: int| 0 <= k < m.len() ==> 0 <= #[trigger] m[k] < b.len()
            &&& forall|k1: int, k2: int| 0 <= k1 < k2 < m.len() ==> m[k1] < m[k2]
            &&& forall|k: int| 0 <= k < m.len() ==> a[k] == b[#[trigger] m[k]]
        };
    let m2 = choose|m: Seq<int>|
        {
            &&& m.len() == b.len()
            &&& forall|k: int| 0 <= k < m.len() ==> 0 <= #[trigger] m[k] < c.len()
            &&& forall|k1: int, k2: int| 0 <= k1 < k2 < m.len() ==> m[k1] < m[k2]
            &&& forall|k: int| 0 <= k < m.len() ==> b[k] == c[#[trigger] m[k]]
        };
    let m = Seq::new(a.len(), |k: int| m2[m1[k]]);
    assert(m.len() == a.len() && (forall|k: int| 0 <= k < m.len() ==> 0 <= #[trigger] m[k] < c.len())
        && (forall|k1: int, k2: int| 0 <= k1 < k2 < m.len() ==> m[k1] < m[k2]) && (forall|k: int|
        0 <= k < m.len() ==> a[k] == c[#[trigger] m[k]]));
}

/// Whether some interned node holds a node child with this identity.
pub open spec fn node_id_referenced(b: BuilderView, id: u64) -> bool {
    exists|i: int, j: int|
        0 <= i < b.nodes.len() && 0 <= j < b.nodes[i].children.len() && (#[trigger] b.nodes[i].children[j]).child.is_node
            && b.nodes[i].children[j].child.id == id
}

/// Whether some interned node holds a token child with this identity.
pub open spec fn token_id_referenced(b: BuilderView, id: u64) -> bool {
    exists|i: int, j: int|
        0 <= i < b.nodes.len() && 0 <= j < b.nodes[i].children.len() && !(#[trigger] b.nodes[i].children[j]).child.is_node
            && b.nodes[i].children[j].child.id == id
}

/// A well-shaped observation of handle counts for a pool of `n` entries:
/// one count per entry, each at least 1 — the pool itself holds one handle.
pub open spec fn counts_ok(counts: Seq<usize>, n: int) -> bool {
    counts.len() == n && forall|i: int| 0 <= i < counts.len() ==> (#[trigger] counts[i]) >= 1
}

/// Whether a collection turn keeps interned node `i`, given the observed
/// handle counts: a handle outside the pool still holds it, or an interned
/// node does.
pub open spec fn node_keep(b: BuilderView, counts: Seq<usize>, i: int) -> bool {
    counts[i] > 1 || node_id_referenced(b, b.nodes[i].id)
}

/// Whether a collection turn keeps interned token `i`, given the observed
/// handle counts.
pub open spec fn token_keep(b: BuilderView, counts: Seq<usize>, i: int) -> bool {
    counts[i] > 1 || token_id_referenced(b, b.tokens[i].id)
}

/// The kept entries among the first `i` interned nodes of a turn with
/// these counts, in order.
pub open spec fn node_sweep_prefix(b: BuilderView, counts: Seq<usize>, i: int) -> Seq<NodeView>
    decreases i,
{
    if i <= 0 {
        Seq::empty()
    } else {
        let p = node_sweep_prefix(b, counts, i - 1);
        if node_keep(b, counts, i - 1) {
            p.push(b.nodes[i - 1])
        } else {
            p
        }
    }
}

/// The interned nodes a turn with these counts keeps, in order.
pub open spec fn node_sweep(b: BuilderView, counts: Seq<usize>) -> Seq<NodeView> {
    node_sweep_prefix(b, counts, b.nodes.len() as int)
}

/// The kept entries among the first `i` interned tokens of a turn with
/// these counts, in order.
pub open spec fn token_sweep_prefix(b: BuilderView, counts: Seq<usize>, i: int) -> Seq<TokenView>
    decreases i,
{
    if i <= 0 {
        Seq::empty()
    } else {
        let p = token_sweep_prefix(b, counts, i - 1);
        if token_keep(b, counts, i - 1) {
            p.push(b.tokens[i - 1])
        } else {
            p
        }
    }
}

/// The interned tokens a turn with these counts keeps, in order.
pub open spec fn token_sweep(b: BuilderView, counts: Seq<usize>) -> Seq<TokenView> {
    token_sweep_prefix(b, counts, b.tokens.len() as int)
}

/// What one collection turn over the nodes does, given the observed counts:
/// drop exactly the nodes that no outside handle and no interned node holds.
pub open spec fn nodes_turn(b: BuilderView, counts: Seq<usize>) -> BuilderView {
    BuilderView { tokens: b.tokens, nodes: node_sweep(b, counts), next_id: b.next_id }
}

/// What one collection turn over the tokens does, given the observed counts.
pub open spec fn tokens_turn(b: BuilderView, counts: Seq<usize>) -> BuilderView {
    BuilderView { tokens: token_sweep(b, counts), nodes: b.nodes, next_id: b.next_id }
}

/// Repeated node turns, earliest observation first.
pub open spec fn nodes_run(b: BuilderView, css: Seq<Seq<usize>>) -> BuilderView
    decreases css.len(),
{
    if css.len() == 0 {
        b
    } else {
        nodes_run(nodes_turn(b, css.first()), css.drop_first())
    }
}

/// What a full collection does, as a function of the handle counts it
/// observed: node turns to a fixed point — the last observation kept
/// everything — then one token turn. Which entries leave is fixed by the
/// observations; only the observations themselves come from outside.
pub open spec fn gc_trace(
    b0: BuilderView,
    css: Seq<Seq<usize>>,
    tcounts: Seq<usize>,
    b1: BuilderView,
) -> bool {
    &&& css.len() > 0
    &&& forall|k: int|
        0 <= k < css.len() ==> counts_ok(#[trigger] css[k], nodes_run(b0, css.take(k)).nodes.len() as int)
    &&& nodes_run(b0, css) == nodes_run(b0, css.drop_last())
    &&& counts_ok(tcounts, nodes_run(b0, css).tokens.len() as int)
    &&& b1 == tokens_turn(nodes_run(b0, css), tcounts)
}

/// Relies on std::sync::Arc::strong_count: the number of handles alive for
/// this allocation. At least one exists, namely the one passed in; nothing
/// else can be promised of a count that other threads and scopes change.
#[verifier::external_body]
fn handle_count<T>(a: &Arc<T>) -> (r: usize)
    ensures
        r >= 1,
{
    Arc::strong_count(a)
}

impl Builder {
    /// Whether some interned node holds a node child with this identity.
    fn node_id_is_referenced(&self, id: u64) -> (r: bool)
        ensures
            r == node_id_referenced(self@, id),
    {
        let n = self.nodes.len();
        let mut i: usize = 0;
        while i < n
            invariant
                n == self@.nodes.len(),
                i <= n,
                forall|i2: int, j2: int|
                    0 <= i2 < i && 0 <= j2 < self@.nodes[i2].children.len() ==> !((
                    #[trigger] self@.nodes[i2].children[j2]).child.is_node
                        && self@.nodes[i2].children[j2].child.id == id),
            decreases n - i,
        {
            let cand = &self.nodes[i];
            proof {
                assert(cand@ == self@.nodes[i as int]);
            }
            let m = cand.children.len();
            let mut j: usize = 0;
            while j < m
                invariant
                    cand@ == self@.nodes[i as int],
                    i < self@.nodes.len(),
                    m == cand.children@.len(),
                    m == self@.nodes[i as int].children.len(),
                    j <= m,
                    forall|j2: int|
                        0 <= j2 < j ==> !((#[trigger] self@.nodes[i as int].children[j2]).child.is_node
                            && self@.nodes[i as int].children[j2].child.id == id),
                decreases m - j,
            {
                proof {
                    assert(cand.children@[j as int]@ == self@.nodes[i as int].children[j as int]);
                }
                match &cand.children[j].child {
                    NodeOrToken::Node(a) => {
                        if a.id == id {
                            return true;
                        }
                    },
                    NodeOrToken::Token(_) => {},
                }
                j = j + 1;
            }
            i = i + 1;
        }
        false
    }

    /// Whether some interned node holds a token child with this identity.
    fn token_id_is_referenced(&self, id: u64) -> (r: bool)
        ensures
            r == token_id_referenced(self@, id),
    {
        let n = self.nodes.len();
        let mut i: usize = 0;
        while i < n
            invariant
                n == self@.nodes.len(),
                i <= n,
                forall|i2: int, j2: int|
                    0 <= i2 < i && 0 <= j2 < self@.nodes[i2].children.len() ==> !(!((
                    #[trigger] self@.nodes[i2].children[j2]).child.is_node)
                        && self@.nodes[i2].children[j2].child.id == id),
            decreases n - i,
        {
            let cand = &self.nodes[i];
            proof {
                assert(cand@ == self@.nodes[i as int]);
            }
            let m = cand.children.len();
            let mut j: usize = 0;
            while j < m
                invariant
                    cand@ == self@.nodes[i as int],
                    i < self@.nodes.len(),
                    m == cand.children@.len(),
                    m == self@.nodes[i as int].children.len(),
                    j <= m,
                    forall|j2: int|
                        0 <= j2 < j ==> !(!((
                        #[trigger] self@.nodes[i as int].children[j2]).child.is_node)
                            && self@.nodes[i as int].children[j2].child.id == id),
                decreases m - j,
            {
                proof {
                    assert(cand.children@[j as int]@ == self@.nodes[i as int].children[j as int]);
                }
                match &cand.children[j].child {
                    NodeOrToken::Token(a) => {
                        if a.id == id {
                            return true;
                        }
                    },
                    NodeOrToken::Node(_) => {},
                }
                j = j + 1;
            }
            i = i + 1;
        }
        false
    }

    /// The observed handle count of every interned node, in order.
    fn node_counts(&self) -> (r: Vec<usize>)
        ensures
            counts_ok(r@, self@.nodes.len() as int),
    {
        let n = self.nodes.len();
        let mut r: Vec<usize> = Vec::new();
        let mut i: usize = 0;
        while i < n
            invariant
                n == self.nodes@.len(),
                n == self@.nodes.len(),
                i <= n,
                r@.len() == i,
                forall|k: int| 0 <= k < i ==> (#[trigger] r@[k]) >= 1,
            decreases n - i,
        {
            r.push(handle_count(&self.nodes[i]));
            i = i + 1;
        }
        r
    }

    /// The observed handle count of every interned token, in order.
    fn token_counts(&self) -> (r: Vec<usize>)
        ensures
            counts_ok(r@, self@.tokens.len() as int),
    {
        let n = self.tokens.len();
        let mut r: Vec<usize> = Vec::new();
        let mut i: usize = 0;
        while i < n
            invariant
                n == self.tokens@.len(),
                n == self@.tokens.len(),
                i <= n,
                r@.len() == i,
                forall|k: int| 0 <= k < i ==> (#[trigger] r@[k]) >= 1,
            decreases n - i,
        {
            r.push(handle_count(&self.tokens[i]));
            i = i + 1;
        }
        r
    }

    /// One collection turn over the interned nodes, deciding by the given
    /// handle counts: a node leaves exactly when its count says no handle
    /// outside the pool holds it and no interned node holds it as a child.
    /// Returns whether anything left.
    pub fn collect_nodes_turn(&mut self, counts: &Vec<usize>) -> (changed: bool)
        requires
            old(self).inv(),
            counts@.len() == old(self)@.nodes.len(),
        ensures
            final(self).inv(),
            final(self)@ == nodes_turn(old(self)@, counts@),
            final(self)@.nodes.len() <= old(self)@.nodes.len(),
            changed == (final(self)@.nodes.len() != old(self)@.nodes.len()),
            is_subseq_of(final(self)@.nodes, old(self)@.nodes),
    {
        let ghost pre = self@;
        let n = self.nodes.len();
        let mut keep: Vec<bool> = Vec::new();
        let mut i: usize = 0;
        while i < n
            invariant
                self.inv(),
                self@ == pre,
                counts@.len() == pre.nodes.len(),
                n == self.nodes@.len(),
                n == pre.nodes.len(),
                i <= n,
                keep@.len() == i,
                forall|k: int| 0 <= k < i ==> #[trigger] keep@[k] == node_keep(pre, counts@, k),
            decreases n - i,
        {
            let keep_i = if counts[i] > 1 {
                true
            } else {
                let id = self.nodes[i].id;
                proof {
                    assert(self.nodes@[i as int]@ == pre.nodes[i as int]);
                }
                self.node_id_is_referenced(id)
            };
            keep.push(keep_i);
            i = i + 1;
        }
        let mut kept: Vec<Arc<Node>> = Vec::new();
        let ghost mut m: Seq<int> = Seq::empty();
        let mut i: usize = 0;
        while i < n
            invariant
                self.inv(),
                self@ == pre,
                counts@.len() == pre.nodes.len(),
                n == self.nodes@.len(),
                n == pre.nodes.len(),
                keep@.len() == n,
                forall|k: int| 0 <= k < n ==> #[trigger] keep@[k] == node_keep(pre, counts@, k),
                i <= n,
                m.len() == kept@.len(),
                kept@.len() <= i,
                kept@.map_values(|a: Arc<Node>| a@) =~= node_sweep_prefix(pre, counts@, i as int),
                forall|k: int| 0 <= k < m.len() ==> 0 <= #[trigger] m[k] < i,
                forall|k1: int, k2: int| 0 <= k1 < k2 < m.len() ==> m[k1] < m[k2],
                forall|k: int| 0 <= k < m.len() ==> kept@[k] == self.nodes@[#[trigger] m[k]],
                forall|k: int| 0 <= k < m.len() ==> keep@[#[trigger] m[k]],
                forall|k: int|
                    0 <= k < i && #[trigger] keep@[k] ==> exists|k2: int|
                        0 <= k2 < m.len() && m[k2] == k,
            decreases n - i,
        {
            if keep[i] {
                kept.push(self.nodes[i].clone());
                proof {
                    let m0 = m;
                    m = m.push(i as int);
                    assert(self.nodes@[i as int]@ == pre.nodes[i as int]);
                    assert forall|k: int| 0 <= k < i + 1 && #[trigger] keep@[k] implies exists|
                        k2: int,
                    |
                        0 <= k2 < m.len() && m[k2] == k by {
                        if k < i {
                            let k2 = choose|k2: int| 0 <= k2 < m0.len() && m0[k2] == k;
                            assert(m[k2] == m0[k2]);
                            assert(m[k2] == k);
                        } else {
                            assert(m[m.len() - 1] == k);
                        }
                    }
                }
            }
            i = i + 1;
        }
        let changed = kept.len() != n;
        self.nodes = kept;
        proof {
            assert forall|k: int|
                0 <= k < pre.nodes.len() && !(#[trigger] keep@[k]) implies !node_id_referenced(
                pre,
                pre.nodes[k].id,
            ) by {
                assert(keep@[k] == node_keep(pre, counts@, k));
            }
            lemma_nodes_sweep_inv(old(self), self, pre, keep@, m);
            assert(self@.nodes =~= node_sweep(pre, counts@));
            assert(self@ =~= nodes_turn(pre, counts@));
            lemma_sweep_len(pre, counts@, pre.nodes.len() as int);
            assert(is_subseq_of(self@.nodes, pre.nodes)) by {
                let mv = m;
                assert(mv.len() == self@.nodes.len() && (forall|k: int|
                    0 <= k < mv.len() ==> 0 <= #[trigger] mv[k] < pre.nodes.len()) && (forall|
                    k1: int,
                    k2: int,
                |
                    0 <= k1 < k2 < mv.len() ==> mv[k1] < mv[k2]) && (forall|k: int|
                    0 <= k < mv.len() ==> self@.nodes[k] == pre.nodes[#[trigger] mv[k]]));
            }
        }
        changed
    }

    /// One collection turn over the interned tokens, deciding by the given
    /// handle counts: a token leaves exactly when its count says no handle
    /// outside the pool holds it and no interned node holds it as a child.
    pub fn collect_tokens_turn(&mut self, counts: &Vec<usize>)
        requires
            old(self).inv(),
            counts@.len() == old(self)@.tokens.len(),
        ensures
            final(self).inv(),
            final(self)@ == tokens_turn(old(self)@, counts@),
            is_subseq_of(final(self)@.tokens, old(self)@.tokens),
    {
        let ghost pre = self@;
        let n = self.tokens.len();
        let mut keep: Vec<bool> = Vec::new();
        let mut i: usize = 0;
        while i < n
            invariant
                self.inv(),
                self@ == pre,
                counts@.len() == pre.tokens.len(),
                n == self.tokens@.len(),
                n == pre.tokens.len(),
                i <= n,
                keep@.len() == i,
                forall|k: int| 0 <= k < i ==> #[trigger] keep@[k] == token_keep(pre, counts@, k),
            decreases n - i,
        {
            let keep_i = if counts[i] > 1 {
                true
            } else {
                let id = self.tokens[i].id;
                proof {
                    assert(self.tokens@[i as int]@ == pre.tokens[i as int]);
                }
                self.token_id_is_referenced(id)
            };
            keep.push(keep_i);
            i = i + 1;
        }
        let mut kept: Vec<Arc<Token>> = Vec::new();
        let ghost mut m: Seq<int> = Seq::empty();
        let mut i: usize = 0;
        while i < n
            invariant
                self.inv(),
                self@ == pre,
                counts@.len() == pre.tokens.len(),
                n == self.tokens@.len(),
                n == pre.tokens.len(),
                keep@.len() == n,
                forall|k: int| 0 <= k < n ==> #[trigger] keep@[k] == token_keep(pre, counts@, k),
                i <= n,
                m.len() == kept@.len(),
                kept@.len() <= i,
                kept@.map_values(|a: Arc<Token>| a@) =~= token_sweep_prefix(pre, counts@, i as int),
                forall|k: int| 0 <= k < m.len() ==> 0 <= #[trigger] m[k] < i,
                forall|k1: int, k2: int| 0 <= k1 < k2 < m.len() ==> m[k1] < m[k2],
                forall|k: int| 0 <= k < m.len() ==> kept@[k] == self.tokens@[#[trigger] m[k]],
                forall|k: int| 0 <= k < m.len() ==> keep@[#[trigger] m[k]],
                forall|k: int|
                    0 <= k < i && #[trigger] keep@[k] ==> exists|k2: int|
                        0 <= k2 < m.len() && m[k2] == k,
            decreases n - i,
        {
            if keep[i] {
                kept.push(self.tokens[i].clone());
                proof {
                    let m0 = m;
                    m = m.push(i as int);
                    assert(self.tokens@[i as int]@ == pre.tokens[i as int]);
                    assert forall|k: int| 0 <= k < i + 1 && #[trigger] keep@[k] implies exists|
                        k2: int,
                    |
                        0 <= k2 < m.len() && m[k2] == k by {
                        if k < i {
                            let k2 = choose|k2: int| 0 <= k2 < m0.len() && m0[k2] == k;
                            assert(m[k2] == m0[k2]);
                            assert(m[k2] == k);
                        } else {
                            assert(m[m.len() - 1] == k);
                        }
                    }
                }
            }
            i = i + 1;
        }
        self.tokens = kept;
        proof {
            assert forall|k: int|
                0 <= k < pre.tokens.len() && !(#[trigger] keep@[k]) implies !token_id_referenced(
                pre,
                pre.tokens[k].id,
            ) by {
                assert(keep@[k] == token_keep(pre, counts@, k));
            }
            lemma_tokens_sweep_inv(old(self), self, pre, keep@, m);
            assert(self@.tokens =~= token_sweep(pre, counts@));
            assert(self@ =~= tokens_turn(pre, counts@));
            assert(is_subseq_of(self@.tokens, pre.tokens)) by {
                let mv = m;
                assert(mv.len() == self@.tokens.len() && (forall|k: int|
                    0 <= k < mv.len() ==> 0 <= #[trigger] mv[k] < pre.tokens.len()) && (forall|
                    k1: int,
                    k2: int,
                |
                    0 <= k1 < k2 < mv.len() ==> mv[k1] < mv[k2]) && (forall|k: int|
                    0 <= k < mv.len() ==> self@.tokens[k] == pre.tokens[#[trigger] mv[k]]));
            }
        }
    }

    /// Collect all cached elements that are no longer live outside the
    /// cache.
    ///
    /// Runs node collection turns until one removes nothing, then sweeps
    /// the tokens once. The result is fixed by the handle counts observed
    /// at each turn, as [`gc_trace`] states: what leaves is exactly what no
    /// outside handle and no interned node held at its turn, cascading —
    /// removing a dead parent lets the next turn remove its children — to a
    /// fixed point. Only the counts themselves come from outside.
    pub fn gc(&mut self)
        requires
            old(self).inv(),
        ensures
            final(self).inv(),
            final(self)@.next_id == old(self)@.next_id,
            is_subseq_of(final(self)@.tokens, old(self)@.tokens),
            is_subseq_of(final(self)@.nodes, old(self)@.nodes),
            exists|css: Seq<Seq<usize>>, tcounts: Seq<usize>|
                gc_trace(old(self)@, css, tcounts, final(self)@),
    {
        let ghost pre = self@;
        let ghost mut css: Seq<Seq<usize>> = Seq::empty();
        proof {
            lemma_subseq_refl(pre.nodes);
        }
        let mut done = false;
        while !done
            invariant
                self.inv(),
                self@.next_id == pre.next_id,
                self@.tokens == pre.tokens,
                is_subseq_of(self@.nodes, pre.nodes),
                self@ == nodes_run(pre, css),
                forall|k: int|
                    0 <= k < css.len() ==> counts_ok(
                        #[trigger] css[k],
                        nodes_run(pre, css.take(k)).nodes.len() as int,
                    ),
                done ==> css.len() > 0 && nodes_run(pre, css) == nodes_run(pre, css.drop_last()),
            decreases self@.nodes.len() + (if done {
                0int
            } else {
                1int
            }),
        {
            let counts = self.node_counts();
            let ghost mid = self@;
            let changed = self.collect_nodes_turn(&counts);
            proof {
                let css0 = css;
                css = css.push(counts@);
                lemma_nodes_run_snoc(pre, css0, counts@);
                assert(css.drop_last() =~= css0);
                assert(css.take(css.len() - 1) =~= css0);
                assert(self@ == nodes_run(pre, css));
                assert forall|k: int| 0 <= k < css.len() implies counts_ok(
                    #[trigger] css[k],
                    nodes_run(pre, css.take(k)).nodes.len() as int,
                ) by {
                    if k < css0.len() {
                        assert(css.take(k) =~= css0.take(k));
                        assert(css[k] == css0[k]);
                    } else {
                        assert(css.take(k) =~= css0);
                    }
                }
                lemma_subseq_trans(self@.nodes, mid.nodes, pre.nodes);
            }
            if !changed {
                done = true;
                proof {
                    // the turn kept as many nodes as there were, so it kept
                    // them all and the pool is at a fixed point
                    lemma_sweep_full_keeps_all(mid, counts@);
                    assert(nodes_turn(mid, counts@) =~= mid);
                    assert(nodes_run(pre, css) == nodes_run(pre, css.drop_last()));
                }
            }
        }
        let ghost css_final = css;
        let tcounts = self.token_counts();
        let ghost bn = self@;
        self.collect_tokens_turn(&tcounts);
        proof {
            assert(bn == nodes_run(pre, css_final));
            assert(gc_trace(pre, css_final, tcounts@, self@));
        }
    }
}

/// Appending one more observation to a run applies one more turn.
proof fn lemma_nodes_run_snoc(b: BuilderView, css: Seq<Seq<usize>>, c: Seq<usize>)
    ensures
        nodes_run(b, css.push(c)) == nodes_turn(nodes_run(b, css), c),
    decreases css.len(),
{
    if css.len() == 0 {
        assert(css.push(c).drop_first() =~= Seq::<Seq<usize>>::empty());
        assert(css.push(c).first() == c);
        assert(nodes_run(nodes_turn(b, c), Seq::<Seq<usize>>::empty()) == nodes_turn(b, c));
        assert(nodes_run(b, css.push(c)) == nodes_run(
            nodes_turn(b, c),
            Seq::<Seq<usize>>::empty(),
        ));
        assert(nodes_run(b, css) == b);
    } else {
        assert(css.push(c).first() == css.first());
        assert(css.push(c).drop_first() =~= css.drop_first().push(c));
        lemma_nodes_run_snoc(nodes_turn(b, css.first()), css.drop_first(), c);
        assert(nodes_run(b, css.push(c)) == nodes_run(
            nodes_turn(b, css.first()),
            css.drop_first().push(c),
        ));
        assert(nodes_run(b, css) == nodes_run(nodes_turn(b, css.first()), css.drop_first()));
    }
}

/// A sweep never keeps more entries than it looked at, and one that kept
/// as many as it looked at kept every one of them, in place.
proof fn lemma_sweep_len(b: BuilderView, counts: Seq<usize>, i: int)
    requires
        0 <= i <= b.nodes.len(),
    ensures
        node_sweep_prefix(b, counts, i).len() <= i,
        node_sweep_prefix(b, counts, i).len() == i ==> node_sweep_prefix(b, counts, i)
            =~= b.nodes.subrange(0, i),
    decreases i,
{
    if i > 0 {
        lemma_sweep_len(b, counts, i - 1);
        if node_sweep_prefix(b, counts, i).len() == i {
            assert(b.nodes.subrange(0, i - 1).push(b.nodes[i - 1]) =~= b.nodes.subrange(0, i));
        }
    }
}

/// A turn that removed nothing kept every node.
proof fn lemma_sweep_full_keeps_all(b: BuilderView, counts: Seq<usize>)
    requires
        node_sweep(b, counts).len() == b.nodes.len(),
    ensures
        node_sweep(b, counts) == b.nodes,
{
    lemma_sweep_len(b, counts, b.nodes.len() as int);
    assert(b.nodes.subrange(0, b.nodes.len() as int) =~= b.nodes);
}

/// A strictly increasing map into `[0, bound)` has at most `bound` entries.
proof fn lemma_increasing_bounded(m: Seq<int>, bound: int)
    requires
        0 <= bound,
        forall|k: int| 0 <= k < m.len() ==> 0 <= #[trigger] m[k] < bound,
        forall|k1: int, k2: int| 0 <= k1 < k2 < m.len() ==> (#[trigger] m[k1]) < (#[trigger] m[k2]),
    ensures
        m.len() <= bound,
{
    if m.len() > 0 {
        lemma_increasing_lower(m, m.len() - 1);
        assert(m[m.len() - 1] < bound);
    }
}

/// In a strictly increasing map, the entry at `k` is at least `k`.
proof fn lemma_increasing_lower(m: Seq<int>, k: int)
    requires
        0 <= k < m.len(),
        forall|k1: int| 0 <= k1 < m.len() ==> (#[trigger] m[k1]) >= 0,
        forall|k1: int, k2: int| 0 <= k1 < k2 < m.len() ==> (#[trigger] m[k1]) < (#[trigger] m[k2]),
    ensures
        m[k] >= k,
    decreases k,
{
    if k > 0 {
        lemma_increasing_lower(m, k - 1);
        assert(m[k - 1] < m[k]);
    }
}

/// A kept node stays in the sweep: the entries before `j` include node `i`
/// whenever the turn keeps it.
proof fn lemma_node_sweep_member(b: BuilderView, counts: Seq<usize>, i: int, j: int)
    requires
        0 <= i < j <= b.nodes.len(),
        node_keep(b, counts, i),
    ensures
        exists|k: int|
            0 <= k < node_sweep_prefix(b, counts, j).len() && #[trigger] node_sweep_prefix(
                b,
                counts,
                j,
            )[k] == b.nodes[i],
    decreases j,
{
    if i == j - 1 {
        let p = node_sweep_prefix(b, counts, j);
        assert(p[p.len() - 1] == b.nodes[i]);
    } else {
        lemma_node_sweep_member(b, counts, i, j - 1);
        let k = choose|k: int|
            0 <= k < node_sweep_prefix(b, counts, j - 1).len() && #[trigger] node_sweep_prefix(
                b,
                counts,
                j - 1,
            )[k] == b.nodes[i];
        assert(node_sweep_prefix(b, counts, j)[k] == b.nodes[i]);
    }
}

/// A kept token stays in the sweep.
proof fn lemma_token_sweep_member(b: BuilderView, counts: Seq<usize>, i: int, j: int)
    requires
        0 <= i < j <= b.tokens.len(),
        token_keep(b, counts, i),
    ensures
        exists|k: int|
            0 <= k < token_sweep_prefix(b, counts, j).len() && #[trigger] token_sweep_prefix(
                b,
                counts,
                j,
            )[k] == b.tokens[i],
    decreases j,
{
    if i == j - 1 {
        let p = token_sweep_prefix(b, counts, j);
        assert(p[p.len() - 1] == b.tokens[i]);
    } else {
        lemma_token_sweep_member(b, counts, i, j - 1);
        let k = choose|k: int|
            0 <= k < token_sweep_prefix(b, counts, j - 1).len() && #[trigger] token_sweep_prefix(
                b,
                counts,
                j - 1,
            )[k] == b.tokens[i];
        assert(token_sweep_prefix(b, counts, j)[k] == b.tokens[i]);
    }
}

/// A collection turn removes only entries owned solely by the pool: every
/// node whose observed count shows a handle outside the pool — and every
/// node some interned node still holds — stays, at its exact old value, so
/// no handle is invalidated and no contents change.
pub proof fn lemma_nodes_turn_keeps_live(b: BuilderView, counts: Seq<usize>, i: int)
    requires
        counts.len() == b.nodes.len(),
        0 <= i < b.nodes.len(),
        node_keep(b, counts, i),
    ensures
        exists|k: int|
            0 <= k < nodes_turn(b, counts).nodes.len() && #[trigger] nodes_turn(
                b,
                counts,
            ).nodes[k] == b.nodes[i],
{
    lemma_node_sweep_member(b, counts, i, b.nodes.len() as int);
    let k = choose|k: int|
        0 <= k < node_sweep_prefix(b, counts, b.nodes.len() as int).len()
            && #[trigger] node_sweep_prefix(b, counts, b.nodes.len() as int)[k] == b.nodes[i];
    assert(nodes_turn(b, counts).nodes[k] == b.nodes[i]);
}

/// A collection turn removes only tokens owned solely by the pool.
pub proof fn lemma_tokens_turn_keeps_live(b: BuilderView, counts: Seq<usize>, i: int)
    requires
        counts.len() == b.tokens.len(),
        0 <= i < b.tokens.len(),
        token_keep(b, counts, i),
    ensures
        exists|k: int|
            0 <= k < tokens_turn(b, counts).tokens.len() && #[trigger] tokens_turn(
                b,
                counts,
            ).tokens[k] == b.tokens[i],
{
    lemma_token_sweep_member(b, counts, i, b.tokens.len() as int);
    let k = choose|k: int|
        0 <= k < token_sweep_prefix(b, counts, b.tokens.len() as int).len()
            && #[trigger] token_sweep_prefix(b, counts, b.tokens.len() as int)[k] == b.tokens[i];
    assert(tokens_turn(b, counts).tokens[k] == b.tokens[i]);
}

/// With every node kept, the sweep is the pool itself.
proof fn lemma_node_sweep_all_kept(b: BuilderView, counts: Seq<usize>, j: int)
    requires
        0 <= j <= b.nodes.len(),
        forall|i: int| 0 <= i < j ==> node_keep(b, counts, i),
    ensures
        node_sweep_prefix(b, counts, j) =~= b.nodes.subrange(0, j),
    decreases j,
{
    if j > 0 {
        lemma_node_sweep_all_kept(b, counts, j - 1);
    }
}

/// With every token kept, the sweep is the pool itself.
proof fn lemma_token_sweep_all_kept(b: BuilderView, counts: Seq<usize>, j: int)
    requires
        0 <= j <= b.tokens.len(),
        forall|i: int| 0 <= i < j ==> token_keep(b, counts, i),
    ensures
        token_sweep_prefix(b, counts, j) =~= b.tokens.subrange(0, j),
    decreases j,
{
    if j > 0 {
        lemma_token_sweep_all_kept(b, counts, j - 1);
    }
}

/// When every entry is still held outside the pool, a collection turn is
/// the identity: run again right away, a collection removes nothing.
pub proof fn lemma_nodes_turn_all_live_identity(b: BuilderView, counts: Seq<usize>)
    requires
        counts.len() == b.nodes.len(),
        forall|i: int| 0 <= i < counts.len() ==> (#[trigger] counts[i]) > 1,
    ensures
        nodes_turn(b, counts) == b,
{
    lemma_node_sweep_all_kept(b, counts, b.nodes.len() as int);
    assert(b.nodes.subrange(0, b.nodes.len() as int) =~= b.nodes);
    assert(nodes_turn(b, counts) =~= b);
}

/// When every token is still held outside the pool, a token turn is the
/// identity.
pub proof fn lemma_tokens_turn_all_live_identity(b: BuilderView, counts: Seq<usize>)
    requires
        counts.len() == b.tokens.len(),
        forall|i: int| 0 <= i < counts.len() ==> (#[trigger] counts[i]) > 1,
    ensures
        tokens_turn(b, counts) == b,
{
    lemma_token_sweep_all_kept(b, counts, b.tokens.len() as int);
    assert(b.tokens.subrange(0, b.tokens.len() as int) =~= b.tokens);
    assert(tokens_turn(b, counts) =~= b);
}

/// Whether every child of every node in the sequence was interned before
/// its parent: child identities lie below the parent's.
pub open spec fn children_older(nodes: Seq<NodeView>) -> bool {
    forall|i: int, j: int|
        0 <= i < nodes.len() && 0 <= j < nodes[i].children.len() ==> (
        #[trigger] nodes[i].children[j]).child.id < nodes[i].id
}

/// Whether node `m` carries the largest identity among the first `j`.
spec fn max_id_at(nodes: Seq<NodeView>, j: int, m: int) -> bool {
    forall|k: int| 0 <= k < j ==> (#[trigger] nodes[k]).id <= nodes[m].id
}

/// Some node of a nonempty pool carries the largest identity among the
/// first `j`.
proof fn lemma_max_id_index(nodes: Seq<NodeView>, j: int)
    requires
        1 <= j <= nodes.len(),
    ensures
        exists|m: int| 0 <= m < j && #[trigger] max_id_at(nodes, j, m),
    decreases j,
{
    if j == 1 {
        assert(max_id_at(nodes, j, 0));
    } else {
        lemma_max_id_index(nodes, j - 1);
        let m0 = choose|m: int| 0 <= m < j - 1 && #[trigger] max_id_at(nodes, j - 1, m);
        if nodes[j - 1].id > nodes[m0].id {
            assert(max_id_at(nodes, j, j - 1));
        } else {
            assert(max_id_at(nodes, j, m0));
        }
    }
}

/// A sweep that skips some entry before `j` keeps fewer than `j`.
proof fn lemma_node_sweep_skips(b: BuilderView, counts: Seq<usize>, skip: int, j: int)
    requires
        0 <= skip < j <= b.nodes.len(),
        !node_keep(b, counts, skip),
    ensures
        node_sweep_prefix(b, counts, j).len() < j,
    decreases j,
{
    lemma_sweep_len(b, counts, j - 1);
    if skip < j - 1 {
        lemma_node_sweep_skips(b, counts, skip, j - 1);
    }
}

/// While no handle outside the pool holds anything, a collection turn over
/// a nonempty pool removes at least one node: the newest, which no
/// interned node references. Dead pools therefore drain, turn by turn.
pub proof fn lemma_dead_nodes_turn_shrinks(b: BuilderView, counts: Seq<usize>)
    requires
        counts.len() == b.nodes.len(),
        forall|i: int| 0 <= i < counts.len() ==> (#[trigger] counts[i]) <= 1,
        children_older(b.nodes),
        b.nodes.len() > 0,
    ensures
        nodes_turn(b, counts).nodes.len() < b.nodes.len(),
{
    lemma_max_id_index(b.nodes, b.nodes.len() as int);
    let m = choose|m: int|
        0 <= m < b.nodes.len() && #[trigger] max_id_at(b.nodes, b.nodes.len() as int, m);
    assert(!node_id_referenced(b, b.nodes[m].id)) by {
        if node_id_referenced(b, b.nodes[m].id) {
            let (i, j) = choose|i: int, j: int|
                0 <= i < b.nodes.len() && 0 <= j < b.nodes[i].children.len() && (
                #[trigger] b.nodes[i].children[j]).child.is_node && b.nodes[i].children[j].child.id
                    == b.nodes[m].id;
            assert(b.nodes[i].children[j].child.id < b.nodes[i].id);
            assert(b.nodes[i].id <= b.nodes[m].id);
        }
    }
    assert(!node_keep(b, counts, m));
    lemma_node_sweep_skips(b, counts, m, b.nodes.len() as int);
}

/// A pool of nodes that is stable under a turn observing no outside
/// handles is empty.
pub proof fn lemma_stable_dead_nodes_empty(b: BuilderView, counts: Seq<usize>)
    requires
        counts.len() == b.nodes.len(),
        forall|i: int| 0 <= i < counts.len() ==> (#[trigger] counts[i]) <= 1,
        children_older(b.nodes),
        nodes_turn(b, counts) == b,
    ensures
        b.nodes.len() == 0,
{
    if b.nodes.len() > 0 {
        lemma_dead_nodes_turn_shrinks(b, counts);
    }
}

/// With no sweep entries kept, the sweep is empty.
proof fn lemma_token_sweep_none(b: BuilderView, counts: Seq<usize>, j: int)
    requires
        0 <= j <= b.tokens.len(),
        forall|i: int| 0 <= i < j ==> !token_keep(b, counts, i),
    ensures
        token_sweep_prefix(b, counts, j).len() == 0,
    decreases j,
{
    if j > 0 {
        lemma_token_sweep_none(b, counts, j - 1);
    }
}

/// Once no nodes remain and no handle outside the pool holds any token, a
/// token turn removes every token.
pub proof fn lemma_dead_tokens_turn_empties(b: BuilderView, counts: Seq<usize>)
    requires
        counts.len() == b.tokens.len(),
        forall|i: int| 0 <= i < counts.len() ==> (#[trigger] counts[i]) <= 1,
        b.nodes.len() == 0,
    ensures
        tokens_turn(b, counts).tokens.len() == 0,
{
    assert forall|i: int| 0 <= i < b.tokens.len() implies !token_keep(b, counts, i) by {
        assert(!token_id_referenced(b, b.tokens[i].id));
    }
    lemma_token_sweep_none(b, counts, b.tokens.len() as int);
}

/// A full collection whose final observations saw no handle outside the
/// pool leaves nothing cached: with all external handles dropped, the node
/// turns cascade — dead parents first, then their children — until the
/// pool is empty, and the token turn then clears the tokens.
pub proof fn lemma_gc_dead_pool_empty(
    b0: BuilderView,
    css: Seq<Seq<usize>>,
    tcounts: Seq<usize>,
    b1: BuilderView,
)
    requires
        gc_trace(b0, css, tcounts, b1),
        b1.wf(),
        forall|i: int| 0 <= i < css.last().len() ==> (#[trigger] css.last()[i]) <= 1,
        forall|i: int| 0 <= i < tcounts.len() ==> (#[trigger] tcounts[i]) <= 1,
    ensures
        b1.nodes.len() == 0,
        b1.tokens.len() == 0,
{
    let stable = nodes_run(b0, css.drop_last());
    assert(css.drop_last().push(css.last()) =~= css);
    lemma_nodes_run_snoc(b0, css.drop_last(), css.last());
    assert(nodes_run(b0, css) == nodes_turn(stable, css.last()));
    assert(nodes_turn(stable, css.last()) == stable);
    // the stable pool's nodes are the final pool's nodes, so the final
    // soundness carries the age ordering over to it
    assert(b1.nodes == stable.nodes);
    assert(children_older(stable.nodes)) by {
        assert forall|i: int, j: int|
            0 <= i < stable.nodes.len() && 0 <= j < stable.nodes[i].children.len() implies (
        #[trigger] stable.nodes[i].children[j]).child.id < stable.nodes[i].id by {
            assert(b1.nodes[i].children[j].child.id < b1.nodes[i].id);
        }
    }
    assert(counts_ok(css.last(), stable.nodes.len() as int)) by {
        assert(css.take(css.len() - 1) =~= css.drop_last());
        assert(counts_ok(css[css.len() - 1], nodes_run(
            b0,
            css.take(css.len() - 1),
        ).nodes.len() as int));
    }
    lemma_stable_dead_nodes_empty(stable, css.last());
    lemma_dead_tokens_turn_empties(nodes_run(b0, css), tcounts);
}

/// After a node sweep that kept every node some pool node still references,
/// the pool is sound again.
proof fn lemma_nodes_sweep_inv(
    before: &Builder,
    after: &Builder,
    pre: BuilderView,
    keep: Seq<bool>,
    m: Seq<int>,
)
    requires
        before.inv(),
        before@ == pre,
        keep.len() == pre.nodes.len(),
        forall|k: int|
            0 <= k < pre.nodes.len() && !(#[trigger] keep[k]) ==> !node_id_referenced(
                pre,
                pre.nodes[k].id,
            ),
        m.len() == after.nodes@.len(),
        forall|k: int| 0 <= k < m.len() ==> 0 <= #[trigger] m[k] < pre.nodes.len(),
        forall|k1: int, k2: int| 0 <= k1 < k2 < m.len() ==> m[k1] < m[k2],
        forall|k: int| 0 <= k < m.len() ==> after.nodes@[k] == before.nodes@[#[trigger] m[k]],
        forall|k: int| 0 <= k < m.len() ==> keep[#[trigger] m[k]],
        forall|k: int|
            0 <= k < pre.nodes.len() && #[trigger] keep[k] ==> exists|k2: int|
                0 <= k2 < m.len() && m[k2] == k,
        after.tokens@ == before.tokens@,
        after.next_id == before.next_id,
    ensures
        after.inv(),
{
    let post = after@;
    assert(post.tokens == pre.tokens);
    assert(post.nodes.len() == m.len());
    assert forall|k: int| 0 <= k < m.len() implies post.nodes[k] == pre.nodes[m[k]] by {
        assert(after.nodes@[k]@ == before.nodes@[m[k]]@);
    }
    // uniqueness and per-entry soundness carry over through the index map
    assert forall|i: int, j: int|
        0 <= i < post.nodes.len() && 0 <= j < post.nodes.len() && (#[trigger] post.nodes[i]).id
            == (#[trigger] post.nodes[j]).id implies i == j by {
        assert(pre.nodes[m[i]].id == pre.nodes[m[j]].id);
        assert(m[i] == m[j]);
        if i < j {
            assert(m[i] < m[j]);
        }
        if j < i {
            assert(m[j] < m[i]);
        }
    }
    assert forall|i: int, j: int|
        0 <= i < post.nodes.len() && 0 <= j < post.nodes.len() && (#[trigger] post.nodes[i]).kind
            == (#[trigger] post.nodes[j]).kind && children_of(post.nodes[i]) == children_of(
        post.nodes[j],
    ) implies i == j by {
        assert(pre.nodes[m[i]].kind == pre.nodes[m[j]].kind);
        assert(children_of(pre.nodes[m[i]]) == children_of(pre.nodes[m[j]]));
        assert(m[i] == m[j]);
        if i < j {
            assert(m[i] < m[j]);
        }
        if j < i {
            assert(m[j] < m[i]);
        }
    }
    // children of kept nodes still resolve among the kept entries
    assert forall|i: int, j: int|
        0 <= i < post.nodes.len() && 0 <= j < post.nodes[i].children.len() implies post.resolves(
        (#[trigger] post.nodes[i].children[j]).child,
    ) by {
        let c = post.nodes[i].children[j].child;
        assert(pre.nodes[m[i]].children[j].child == c);
        assert(pre.resolves(c));
        if c.is_node {
            let k = choose|k: int|
                0 <= k < pre.nodes.len() && (#[trigger] pre.nodes[k]).id == c.id
                    && pre.nodes[k].text_len == c.len;
            // the kept parent still references this id, so it was kept
            assert(node_id_referenced(pre, c.id)) by {
                assert(0 <= m[i] < pre.nodes.len() && 0 <= j < pre.nodes[m[i]].children.len() && (
                pre.nodes[m[i]].children[j]).child.is_node && pre.nodes[m[i]].children[j].child.id
                    == c.id);
            }
            assert(keep[k]);
            let k2 = choose|k2: int| 0 <= k2 < m.len() && m[k2] == k;
            assert(post.nodes[k2].id == c.id && post.nodes[k2].text_len == c.len);
        }
    }
    // the child handles stored in kept nodes are still owned by the pool
    assert forall|i: int, j: int|
        0 <= i < after.nodes@.len() && 0 <= j
            < after.nodes@[i].children@.len() implies after.owns_child(
        (#[trigger] after.nodes@[i].children@[j]).child,
    ) by {
        let c = after.nodes@[i].children@[j].child;
        assert(after.nodes@[i] == before.nodes@[m[i]]);
        assert(before.owns_child(c));
        match c {
            NodeOrToken::Node(a) => {
                let k = choose|k: int|
                    0 <= k < before.nodes@.len() && *(#[trigger] before.nodes@[k]) == *a;
                assert(pre.nodes[k].id == a.id);
                assert(node_id_referenced(pre, a.id)) by {
                    assert(post.nodes[i].children[j].child.is_node
                        && post.nodes[i].children[j].child.id == a.id);
                    assert(pre.nodes[m[i]].children[j] == post.nodes[i].children[j]);
                    assert(0 <= m[i] < pre.nodes.len() && 0 <= j < pre.nodes[m[i]].children.len()
                        && (pre.nodes[m[i]].children[j]).child.is_node
                        && pre.nodes[m[i]].children[j].child.id == a.id);
                }
                assert(keep[k]);
                let k2 = choose|k2: int| 0 <= k2 < m.len() && m[k2] == k;
                assert(*after.nodes@[k2] == *a);
            },
            NodeOrToken::Token(a) => {
                let k = choose|k: int|
                    0 <= k < before.tokens@.len() && *(#[trigger] before.tokens@[k])
                        == *a;
                assert(*after.tokens@[k] == *a);
            },
        }
    }
    // the kept pool is no larger, so the watermark still bounds it
    lemma_increasing_bounded(m, pre.nodes.len() as int);
    // children were interned before their parents, still
    assert forall|i: int, j: int|
        0 <= i < post.nodes.len() && 0 <= j < post.nodes[i].children.len() implies (
    #[trigger] post.nodes[i].children[j]).child.id < post.nodes[i].id by {
        assert(pre.nodes[m[i]].children[j] == post.nodes[i].children[j]);
    }
}

/// After a token sweep that kept every token some pool node still
/// references, the pool is sound again.
proof fn lemma_tokens_sweep_inv(
    before: &Builder,
    after: &Builder,
    pre: BuilderView,
    keep: Seq<bool>,
    m: Seq<int>,
)
    requires
        before.inv(),
        before@ == pre,
        keep.len() == pre.tokens.len(),
        forall|k: int|
            0 <= k < pre.tokens.len() && !(#[trigger] keep[k]) ==> !token_id_referenced(
                pre,
                pre.tokens[k].id,
            ),
        m.len() == after.tokens@.len(),
        forall|k: int| 0 <= k < m.len() ==> 0 <= #[trigger] m[k] < pre.tokens.len(),
        forall|k1: int, k2: int| 0 <= k1 < k2 < m.len() ==> m[k1] < m[k2],
        forall|k: int|
            0 <= k < m.len() ==> after.tokens@[k] == before.tokens@[#[trigger] m[k]],
        forall|k: int| 0 <= k < m.len() ==> keep[#[trigger] m[k]],
        forall|k: int|
            0 <= k < pre.tokens.len() && #[trigger] keep[k] ==> exists|k2: int|
                0 <= k2 < m.len() && m[k2] == k,
        after.nodes@ == before.nodes@,
        after.next_id == before.next_id,
    ensures
        after.inv(),
{
    let post = after@;
    assert(post.nodes == pre.nodes);
    assert(post.tokens.len() == m.len());
    assert forall|k: int| 0 <= k < m.len() implies post.tokens[k] == pre.tokens[m[k]] by {
        assert(after.tokens@[k]@ == before.tokens@[m[k]]@);
    }
    assert forall|i: int, j: int|
        0 <= i < post.tokens.len() && 0 <= j < post.tokens.len() && (#[trigger] post.tokens[i]).id
            == (#[trigger] post.tokens[j]).id implies i == j by {
        assert(pre.tokens[m[i]].id == pre.tokens[m[j]].id);
        assert(m[i] == m[j]);
        if i < j {
            assert(m[i] < m[j]);
        }
        if j < i {
            assert(m[j] < m[i]);
        }
    }
    assert forall|i: int, j: int|
        0 <= i < post.tokens.len() && 0 <= j < post.tokens.len() && (#[trigger] post.tokens[i]).kind
            == (#[trigger] post.tokens[j]).kind && post.tokens[i].text == post.tokens[j].text
        implies i == j by {
        assert(pre.tokens[m[i]].kind == pre.tokens[m[j]].kind);
        assert(pre.tokens[m[i]].text == pre.tokens[m[j]].text);
        assert(m[i] == m[j]);
        if i < j {
            assert(m[i] < m[j]);
        }
        if j < i {
            assert(m[j] < m[i]);
        }
    }
    // children of the untouched nodes still resolve: node children are
    // untouched, and token children were kept because they are referenced
    assert forall|i: int, j: int|
        0 <= i < post.nodes.len() && 0 <= j < post.nodes[i].children.len() implies post.resolves(
        (#[trigger] post.nodes[i].children[j]).child,
    ) by {
        let c = post.nodes[i].children[j].child;
        assert(pre.resolves(c));
        if !c.is_node {
            let k = choose|k: int|
                0 <= k < pre.tokens.len() && (#[trigger] pre.tokens[k]).id == c.id
                    && pre.tokens[k].text.len() == c.len;
            assert(token_id_referenced(pre, c.id)) by {
                assert(0 <= i < pre.nodes.len() && 0 <= j < pre.nodes[i].children.len() && !(
                pre.nodes[i].children[j]).child.is_node && pre.nodes[i].children[j].child.id
                    == c.id);
            }
            assert(keep[k]);
            let k2 = choose|k2: int| 0 <= k2 < m.len() && m[k2] == k;
            assert(post.tokens[k2].id == c.id && post.tokens[k2].text.len() == c.len);
        }
    }
    assert forall|i: int, j: int|
        0 <= i < after.nodes@.len() && 0 <= j
            < after.nodes@[i].children@.len() implies after.owns_child(
        (#[trigger] after.nodes@[i].children@[j]).child,
    ) by {
        let c = after.nodes@[i].children@[j].child;
        assert(before.owns_child(c));
        match c {
            NodeOrToken::Node(a) => {
                let k = choose|k: int|
                    0 <= k < before.nodes@.len() && *(#[trigger] before.nodes@[k]) == *a;
                assert(*after.nodes@[k] == *a);
            },
            NodeOrToken::Token(a) => {
                let k = choose|k: int|
                    0 <= k < before.tokens@.len() && *(#[trigger] before.tokens@[k])
                        == *a;
                assert(pre.tokens[k].id == a.id);
                assert(token_id_referenced(pre, a.id)) by {
                    assert(post.nodes[i].children[j] == pre.nodes[i].children[j]);
                    assert(0 <= i < pre.nodes.len() && 0 <= j < pre.nodes[i].children.len() && !(
                    pre.nodes[i].children[j]).child.is_node && pre.nodes[i].children[j].child.id
                        == a.id);
                }
                assert(keep[k]);
                let k2 = choose|k2: int| 0 <= k2 < m.len() && m[k2] == k;
                assert(*after.tokens@[k2] == *a);
            },
        }
    }
    // the kept pool is no larger, so the watermark still bounds it
    lemma_increasing_bounded(m, pre.tokens.len() as int);
}


/// Whether a pool holds a node with exactly this value.
pub open spec fn node_pooled(b: BuilderView, nv: NodeView) -> bool {
    exists|k: int| 0 <= k < b.nodes.len() && #[trigger] b.nodes[k] == nv
}

/// Whether a pool holds a token with exactly this value.
pub open spec fn token_pooled(b: BuilderView, tv: TokenView) -> bool {
    exists|k: int| 0 <= k < b.tokens.len() && #[trigger] b.tokens[k] == tv
}

/// A sound pool's value is well formed.
pub proof fn lemma_inv_wf(b: &Builder)
    requires
        b.inv(),
    ensures
        b@.wf(),
{
}

/// An owned node's value is in the pool.
pub proof fn lemma_owns_node_view(b: &Builder, n: Node)
    requires
        b.owns_node(n),
    ensures
        node_pooled(b@, n@),
{
    let k = choose|k: int| 0 <= k < b.nodes@.len() && *(#[trigger] b.nodes@[k]) == n;
    assert(b@.nodes[k] == b.nodes@[k]@);
}

/// An owned token's value is in the pool.
pub proof fn lemma_owns_token_view(b: &Builder, t: Token)
    requires
        b.owns_token(t),
    ensures
        token_pooled(b@, t@),
{
    let k = choose|k: int| 0 <= k < b.tokens@.len() && *(#[trigger] b.tokens@[k]) == t;
    assert(b@.tokens[k] == b.tokens@[k]@);
}

/// The children of an owned node are owned handles too.
pub proof fn lemma_owned_node_children_owned(b: &Builder, n: Node)
    requires
        b.inv(),
        b.owns_node(n),
    ensures
        forall|j: int| 0 <= j < n.children@.len() ==> b.owns_child(#[trigger] n.children@[j].child),
{
    let k = choose|k: int| 0 <= k < b.nodes@.len() && *(#[trigger] b.nodes@[k]) == n;
    assert forall|j: int| 0 <= j < n.children@.len() implies b.owns_child(
        #[trigger] n.children@[j].child,
    ) by {
        assert(b.owns_child(b.nodes@[k].children@[j].child));
    }
}

/// A pool that keeps every owned token and node keeps every owned child
/// handle.
pub proof fn lemma_owns_child_monotone(b0: Builder, b1: Builder)
    requires
        forall|t: Token| b0.owns_token(t) ==> b1.owns_token(t),
        forall|n: Node| b0.owns_node(n) ==> b1.owns_node(n),
    ensures
        forall|c: NodeOrToken<Arc<Node>, Arc<Token>>|
            b0.owns_child(c) ==> b1.owns_child(c),
{
    assert forall|c: NodeOrToken<Arc<Node>, Arc<Token>>|
        b0.owns_child(c) implies b1.owns_child(c) by {
        match c {
            NodeOrToken::Node(a) => {
                assert(b0.owns_node(*a));
            },
            NodeOrToken::Token(a) => {
                assert(b0.owns_token(*a));
            },
        }
    }
}

/// A node the pool owns is well formed: it sits in a sound pool.
pub proof fn lemma_owned_node_wf(b: &Builder, n: &Arc<Node>)
    requires
        b.inv(),
        b.owns_node(**n),
    ensures
        n@.wf(),
{
    let k = choose|k: int| 0 <= k < b.nodes@.len() && *(#[trigger] b.nodes@[k]) == **n;
    assert(b@.nodes[k] == b.nodes@[k]@);
    assert(b@.nodes[k].wf());
}

/// The length of an owned child handle, as stored in its allocation.
fn child_len(c: &NodeOrToken<Arc<Node>, Arc<Token>>) -> (r: u32)
    requires
        child_view(*c).len <= u32::MAX,
    ensures
        r as nat == child_view(*c).len,
{
    match c {
        NodeOrToken::Node(a) => a.text_len,
        NodeOrToken::Token(a) => a.text.len() as u32,
    }
}

/// A second handle to the same child.
fn dup_child(c: &NodeOrToken<Arc<Node>, Arc<Token>>) -> (r: NodeOrToken<Arc<Node>, Arc<Token>>)
    ensures
        r == *c,
{
    match c {
        NodeOrToken::Node(a) => NodeOrToken::Node(a.clone()),
        NodeOrToken::Token(a) => NodeOrToken::Token(a.clone()),
    }
}

/// Summed key lengths only grow as more children are counted.
pub proof fn lemma_prefix_child_len_monotone(s: Seq<ChildView>, i: int, j: int)
    requires
        i <= j,
    ensures
        prefix_child_len(s, i) <= prefix_child_len(s, j),
    decreases j - i,
{
    if i < j {
        lemma_prefix_child_len_monotone(s, i, j - 1);
    }
}

/// The offsets a key assigns agree with the summed lengths of the slots
/// built from it.
proof fn lemma_elems_of_prefix(key: Seq<ChildView>, i: int)
    requires
        0 <= i <= key.len(),
    ensures
        prefix_len(elems_of(key), i) == prefix_child_len(key, i),
    decreases i,
{
    if i > 0 {
        lemma_elems_of_prefix(key, i - 1);
    }
}

/// A handle the pool owns resolves in the pool under its identity, and its
/// length fits in a text size.
proof fn lemma_owned_child_resolves(b: &Builder, c: NodeOrToken<Arc<Node>, Arc<Token>>)
    requires
        b.inv(),
        b.owns_child(c),
    ensures
        b@.resolves(child_view(c)),
        child_view(c).len <= u32::MAX,
{
    match c {
        NodeOrToken::Node(a) => {
            let k = choose|k: int| 0 <= k < b.nodes@.len() && *(#[trigger] b.nodes@[k]) == *a;
            assert(b@.nodes[k] == b.nodes@[k]@);
            assert(b@.nodes[k].id == child_view(c).id);
            assert(b@.nodes[k].text_len == child_view(c).len);
        },
        NodeOrToken::Token(a) => {
            let k = choose|k: int| 0 <= k < b.tokens@.len() && *(#[trigger] b.tokens@[k]) == *a;
            assert(b@.tokens[k] == b.tokens@[k]@);
            assert(b@.tokens[k].id == child_view(c).id);
            assert(b@.tokens[k].text.len() == child_view(c).len);
            assert(b@.tokens[k].wf());
        },
    }
}

/// Two child identities with the same arena and id also agree on length:
/// both resolve to the one interned entry that carries that id.
proof fn lemma_same_identity_same_len(
    b: &Builder,
    cv: ChildView,
    c: NodeOrToken<Arc<Node>, Arc<Token>>,
)
    requires
        b.inv(),
        b@.resolves(cv),
        b.owns_child(c),
        cv.is_node == child_view(c).is_node,
        cv.id == child_view(c).id,
    ensures
        cv == child_view(c),
{
    lemma_owned_child_resolves(b, c);
    let cv2 = child_view(c);
    if cv.is_node {
        let k1 = choose|k: int|
            0 <= k < b@.nodes.len() && (#[trigger] b@.nodes[k]).id == cv.id && b@.nodes[k].text_len
                == cv.len;
        let k2 = choose|k: int|
            0 <= k < b@.nodes.len() && (#[trigger] b@.nodes[k]).id == cv2.id && b@.nodes[k].text_len
                == cv2.len;
        assert(k1 == k2);
        assert(cv =~= cv2);
    } else {
        let k1 = choose|k: int|
            0 <= k < b@.tokens.len() && (#[trigger] b@.tokens[k]).id == cv.id
                && b@.tokens[k].text.len() == cv.len;
        let k2 = choose|k: int|
            0 <= k < b@.tokens.len() && (#[trigger] b@.tokens[k]).id == cv2.id
                && b@.tokens[k].text.len() == cv2.len;
        assert(k1 == k2);
        assert(cv =~= cv2);
    }
}

/// A node insertion with a fresh id and an unmatched key preserves pool
/// soundness.
proof fn lemma_node_insert_wf(b: BuilderView, kind: Kind, key: Seq<ChildView>)
    requires
        b.wf(),
        b.has_capacity(1),
        key.len() <= 0xFFFF,
        forall|k: int| 0 <= k < key.len() ==> b.resolves(#[trigger] key[k]),
        node_lookup(b.nodes, kind, key) is None,
    ensures
        node_step(b, kind, key).0.wf(),
        node_step(b, kind, key).1.wf(),
        children_of(node_step(b, kind, key).1) == key,
{
    let (b2, nv) = node_step(b, kind, key);
    // the new node is well formed: its offsets are the prefix sums
    assert forall|i: int| 0 <= i < nv.children.len() implies (#[trigger] nv.children[i].offset)
        == prefix_len(nv.children, i) by {
        lemma_elems_of_prefix(key, i);
    }
    lemma_elems_of_prefix(key, key.len() as int);
    assert(nv.wf());
    assert(children_of(nv) =~= key);
    // no interned node matched the key, so keys stay unique
    assert forall|i: int, j: int|
        0 <= i < b2.nodes.len() && 0 <= j < b2.nodes.len() && (#[trigger] b2.nodes[i]).kind
            == (#[trigger] b2.nodes[j]).kind && children_of(b2.nodes[i]) == children_of(b2.nodes[j])
        implies i == j by {
        let last = b.nodes.len() as int;
        if i == last && j < last {
            assert(node_key_matches(b.nodes[j], kind, key));
        } else if j == last && i < last {
            assert(node_key_matches(b.nodes[i], kind, key));
        }
    }
    // children of interned nodes still resolve
    assert forall|i: int, j: int|
        0 <= i < b2.nodes.len() && 0 <= j < b2.nodes[i].children.len() implies b2.resolves(
        (#[trigger] b2.nodes[i].children[j]).child,
    ) by {
        let last = b.nodes.len() as int;
        let c = b2.nodes[i].children[j].child;
        if i < last {
            assert(b2.nodes[i] == b.nodes[i]);
            assert(b.resolves(c));
        } else {
            assert(b2.nodes[i] == nv);
            assert(nv.children[j] == (ElemView {
                offset: prefix_child_len(key, j),
                child: key[j],
            }));
            assert(c == key[j]);
            assert(b.resolves(c));
        }
        if c.is_node {
            let k = choose|k: int|
                0 <= k < b.nodes.len() && (#[trigger] b.nodes[k]).id == c.id && b.nodes[k].text_len
                    == c.len;
            assert(b2.nodes[k] == b.nodes[k]);
            assert(b2.nodes[k].id == c.id && b2.nodes[k].text_len == c.len);
        } else {
            let k = choose|k: int|
                0 <= k < b.tokens.len() && (#[trigger] b.tokens[k]).id == c.id
                    && b.tokens[k].text.len() == c.len;
            assert(b2.tokens[k].id == c.id && b2.tokens[k].text.len() == c.len);
        }
    }
}

/// Interning a node is idempotent: asking the same builder twice for a node
/// with one kind and one sequence of child identities hands back the very
/// same interned node — the two handles are identical — and the second ask
/// changes nothing.
pub proof fn lemma_node_interning_idempotent(b: BuilderView, kind: Kind, key: Seq<ChildView>)
    requires
        b.wf(),
        b.has_capacity(1),
        key.len() <= 0xFFFF,
        forall|k: int| 0 <= k < key.len() ==> b.resolves(#[trigger] key[k]),
    ensures
        ({
            let (b1, n1) = node_step(b, kind, key);
            let (b2, n2) = node_step(b1, kind, key);
            n2 == n1 && b2 == b1
        }),
{
    let (b1, n1) = node_step(b, kind, key);
    match node_lookup(b.nodes, kind, key) {
        Some(i) => {
            assert(b1 == b);
        },
        None => {
            lemma_node_insert_wf(b, kind, key);
            let last = b.nodes.len() as int;
            assert(node_key_matches(b1.nodes[last], kind, key));
            let j = choose|j: int|
                0 <= j < b1.nodes.len() && node_key_matches(#[trigger] b1.nodes[j], kind, key);
            assert(node_key_matches(b1.nodes[j], kind, key));
            if j < last {
                assert(node_key_matches(b.nodes[j], kind, key));
            }
            assert(j == last);
        },
    }
}

/// A token insertion with a fresh id and an unmatched key preserves pool
/// soundness.
proof fn lemma_token_insert_wf(b: BuilderView, kind: Kind, text: Seq<u8>)
    requires
        b.wf(),
        b.has_capacity(1),
        text.len() <= u32::MAX,
        token_lookup(b.tokens, kind, text) is None,
    ensures
        token_step(b, kind, text).0.wf(),
{
    let (b2, t) = token_step(b, kind, text);
    assert forall|i: int, j: int|
        0 <= i < b2.nodes.len() && 0 <= j < b2.nodes[i].children.len() implies b2.resolves(
        (#[trigger] b2.nodes[i].children[j]).child,
    ) by {
        assert(b.resolves(b.nodes[i].children[j].child));
        let c = b.nodes[i].children[j].child;
        if c.is_node {
        } else {
            let k = choose|k: int|
                0 <= k < b.tokens.len() && (#[trigger] b.tokens[k]).id == c.id
                    && b.tokens[k].text.len() == c.len;
            assert(b2.tokens[k].id == c.id && b2.tokens[k].text.len() == c.len);
        }
    }
}

/// Anything a pool owned it still owns after entries are appended.
proof fn lemma_owns_grows(
    before: &Builder,
    after: &Builder,
    c: NodeOrToken<Arc<Node>, Arc<Token>>,
)
    requires
        before.owns_child(c),
        before.tokens@.len() <= after.tokens@.len(),
        before.nodes@.len() <= after.nodes@.len(),
        forall|k: int|
            0 <= k < before.tokens@.len() ==> #[trigger] after.tokens@[k] == before.tokens@[k],
        forall|k: int|
            0 <= k < before.nodes@.len() ==> #[trigger] after.nodes@[k] == before.nodes@[k],
    ensures
        after.owns_child(c),
{
    match c {
        NodeOrToken::Node(a) => {
            let k = choose|k: int|
                0 <= k < before.nodes@.len() && *(#[trigger] before.nodes@[k]) == *a;
            assert(*after.nodes@[k] == *a);
        },
        NodeOrToken::Token(a) => {
            let k = choose|k: int|
                0 <= k < before.tokens@.len() && *(#[trigger] before.tokens@[k]) == *a;
            assert(*after.tokens@[k] == *a);
        },
    }
}

/// Whether two byte strings hold the same bytes.
fn bytes_eq(a: &[u8], b: &[u8]) -> (r: bool)
    ensures
        r == (a@ == b@),
{
    if a.len() != b.len() {
        assert(a@.len() != b@.len());
        return false;
    }
    let n = a.len();
    let mut i: usize = 0;
    while i < n
        invariant
            n == a@.len() == b@.len(),
            i <= n,
            forall|j: int| 0 <= j < i ==> a@[j] == b@[j],
        decreases n - i,
    {
        if a[i] != b[i] {
            return false;
        }
        i = i + 1;
    }
    proof {
        assert(a@ =~= b@);
    }
    true
}

/// An owned copy of a byte string.
pub(crate) fn copy_bytes(src: &[u8]) -> (r: Vec<u8>)
    ensures
        r@ == src@,
{
    let n = src.len();
    let mut r: Vec<u8> = Vec::new();
    let mut i: usize = 0;
    while i < n
        invariant
            n == src@.len(),
            i <= n,
            r@ =~= src@.subrange(0, i as int),
        decreases n - i,
    {
        r.push(src[i]);
        i = i + 1;
    }
    proof {
        assert(r@ =~= src@);
    }
    r
}

/// Interning a token is idempotent: asking the same builder twice for a
/// token with one key hands back the very same interned token — the two
/// handles are identical — and the second ask changes nothing.
pub proof fn lemma_token_interning_idempotent(b: BuilderView, kind: Kind, text: Seq<u8>)
    requires
        b.wf(),
        b.has_capacity(1),
        text.len() <= u32::MAX,
    ensures
        ({
            let (b1, t1) = token_step(b, kind, text);
            let (b2, t2) = token_step(b1, kind, text);
            t2 == t1 && b2 == b1
        }),
{
    let (b1, t1) = token_step(b, kind, text);
    match token_lookup(b.tokens, kind, text) {
        Some(i) => {
            assert(b1 == b);
        },
        None => {
            lemma_token_insert_wf(b, kind, text);
            let last = b.tokens.len() as int;
            assert(token_key_matches(b1.tokens[last], kind, text));
            let j = choose|j: int|
                0 <= j < b1.tokens.len() && token_key_matches(#[trigger] b1.tokens[j], kind, text);
            assert(j == last);
        },
    }
}

} // verus!
