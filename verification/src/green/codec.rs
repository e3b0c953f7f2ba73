use crate::green::builder::Builder;
use crate::green::node::{Node, NodeView};
use crate::green::token::Token;
use crate::utils::{Kind, NodeOrToken};
use std::sync::Arc;
use vstd::prelude::*;

verus! {

use crate::green::builder::{
    child_views,
    children_of,
    copy_bytes,
    node_key_matches,
    node_lookup,
    node_step,
    prefix_child_len,
    token_key_matches,
    token_step,
    BuilderView,
};
use crate::green::node::{child_view, ChildView};

/// The canonical structural form of a token: its kind and its text.
///
/// This is the shape in which trees leave and re-enter the library; an
/// encoder in any concrete format reads it, a decoder produces it and
/// hands it to [`Builder::deserialize_token`].
#[derive(Debug, PartialEq, Eq)]
pub struct TokenData {
    /// The kind tag of the token.
    pub kind: Kind,
    /// The text of the token, as UTF-8 bytes.
    pub text: Vec<u8>,
}

/// The canonical structural form of a node: its kind and its children.
#[derive(Debug, PartialEq, Eq)]
pub struct NodeData {
    /// The kind tag of the node.
    pub kind: Kind,
    /// The children of the node, in order, each tagged node or token.
    pub children: Vec<ElementData>,
}

/// The canonical structural form of one child: a tagged node or token.
#[derive(Debug, PartialEq, Eq)]
pub enum ElementData {
    Node(NodeData),
    Token(TokenData),
}

/// Whether a token value has this structural form.
pub open spec fn exec_token_matches_data(t: Token, d: TokenData) -> bool {
    t.kind == d.kind && t.text@ == d.text@
}

/// Whether a node value has this structural form: kinds and texts agree all
/// the way down through the handles the node actually holds.
pub open spec fn exec_node_matches_data(n: Node, d: NodeData) -> bool
    decreases d,
{
    &&& n.kind == d.kind
    &&& n.children@.len() == d.children@.len()
    &&& forall|i: int|
        0 <= i < d.children@.len() ==> match (n.children@[i].child, #[trigger] d.children@[i]) {
            (NodeOrToken::Node(a), ElementData::Node(dn)) => exec_node_matches_data(*a, dn),
            (NodeOrToken::Token(a), ElementData::Token(dt)) => exec_token_matches_data(*a, dt),
            _ => false,
        }
}

/// Whether the interned child with this identity has this structural form.
pub open spec fn child_matches_data(b: BuilderView, c: ChildView, e: ElementData) -> bool
    decreases e,
{
    match e {
        ElementData::Node(dn) => c.is_node && exists|k: int|
            0 <= k < b.nodes.len() && (#[trigger] b.nodes[k]).id == c.id && node_matches_data(
                b,
                b.nodes[k],
                dn,
            ),
        ElementData::Token(dt) => !c.is_node && exists|k: int|
            0 <= k < b.tokens.len() && (#[trigger] b.tokens[k]).id == c.id && b.tokens[k].kind
                == dt.kind && b.tokens[k].text == dt.text@,
    }
}

/// Whether an interned node has this structural form, resolving children
/// through the pool.
pub open spec fn node_matches_data(b: BuilderView, nv: NodeView, d: NodeData) -> bool
    decreases d,
{
    &&& nv.kind == d.kind
    &&& nv.children.len() == d.children@.len()
    &&& forall|i: int|
        0 <= i < d.children@.len() ==> child_matches_data(
            b,
            nv.children[i].child,
            #[trigger] d.children@[i],
        )
}

/// What decoding a token form does to a builder: exactly an interning step.
pub open spec fn decode_token(b: BuilderView, d: TokenData) -> (BuilderView, ChildView) {
    let (b2, t) = token_step(b, d.kind, d.text@);
    (b2, ChildView { is_node: false, id: t.id, len: t.text.len() })
}

/// What decoding a node form does to a builder: decode the children left to
/// right, then intern a node over them.
pub open spec fn decode_node(b: BuilderView, d: NodeData) -> (BuilderView, NodeView)
    decreases d, 1int,
{
    let (b2, key) = decode_children(b, d.children@);
    node_step(b2, d.kind, key)
}

/// Decode a sequence of child forms left to right, accumulating the
/// identities of the decoded children.
pub open spec fn decode_children(b: BuilderView, ds: Seq<ElementData>) -> (
    BuilderView,
    Seq<ChildView>,
)
    decreases ds, 1int,
{
    if ds.len() == 0 {
        (b, Seq::empty())
    } else {
        let (b1, key1) = decode_children(b, ds.drop_last());
        let (b2, c) = decode_element(b1, ds.last());
        (b2, key1.push(c))
    }
}

/// Decode one child form.
pub open spec fn decode_element(b: BuilderView, e: ElementData) -> (BuilderView, ChildView)
    decreases e, 2int,
{
    match e {
        ElementData::Node(dn) => {
            let (b2, nv) = decode_node(b, dn);
            (b2, ChildView { is_node: true, id: nv.id, len: nv.text_len })
        },
        ElementData::Token(dt) => decode_token(b, dt),
    }
}

/// The number of allocations a node form can require: one per element.
pub open spec fn node_data_count(d: NodeData) -> nat
    decreases d, 1int,
{
    1 + elements_count(d.children@)
}

/// The number of allocations a sequence of child forms can require.
pub open spec fn elements_count(ds: Seq<ElementData>) -> nat
    decreases ds, 1int,
{
    if ds.len() == 0 {
        0
    } else {
        elements_count(ds.drop_last()) + element_count(ds.last())
    }
}

/// The number of allocations one child form can require.
pub open spec fn element_count(e: ElementData) -> nat
    decreases e, 2int,
{
    match e {
        ElementData::Node(dn) => node_data_count(dn),
        ElementData::Token(_) => 1,
    }
}

/// The text length a node form describes.
pub open spec fn node_data_len(d: NodeData) -> nat
    decreases d, 1int,
{
    elements_len(d.children@)
}

/// The summed text length a sequence of child forms describes.
pub open spec fn elements_len(ds: Seq<ElementData>) -> nat
    decreases ds, 1int,
{
    if ds.len() == 0 {
        0
    } else {
        elements_len(ds.drop_last()) + element_len(ds.last())
    }
}

/// The text length one child form describes.
pub open spec fn element_len(e: ElementData) -> nat
    decreases e, 2int,
{
    match e {
        ElementData::Node(dn) => node_data_len(dn),
        ElementData::Token(dt) => dt.text@.len(),
    }
}

/// Structural soundness of a node form: the machine limits hold at every
/// level — at most `u16::MAX` children, text lengths that fit a text size.
pub open spec fn node_data_valid(d: NodeData) -> bool
    decreases d, 1int,
{
    &&& d.children@.len() <= 0xFFFF
    &&& node_data_len(d) <= u32::MAX
    &&& forall|i: int| 0 <= i < d.children@.len() ==> element_data_valid(#[trigger] d.children@[i])
}

/// Structural soundness of one child form.
pub open spec fn element_data_valid(e: ElementData) -> bool
    decreases e, 2int,
{
    match e {
        ElementData::Node(dn) => node_data_valid(dn),
        ElementData::Token(dt) => dt.text@.len() <= u32::MAX,
    }
}

impl Token {
    /// Write this token in its canonical structural form.
    pub fn to_data(&self) -> (r: TokenData)
        ensures
            exec_token_matches_data(*self, r),
    {
        TokenData { kind: self.kind, text: copy_bytes(self.text.as_slice()) }
    }
}

impl Node {
    /// Write this node in its canonical structural form: its kind, and each
    /// child in order, tagged node or token.
    pub fn to_data(&self) -> (r: NodeData)
        ensures
            exec_node_matches_data(*self, r),
        decreases *self,
    {
        let n = self.children.len();
        let mut children: Vec<ElementData> = Vec::new();
        let mut i: usize = 0;
        while i < n
            invariant
                n == self.children@.len(),
                i <= n,
                children@.len() == i,
                forall|j: int|
                    0 <= j < i ==> match (self.children@[j].child, #[trigger] children@[j]) {
                        (NodeOrToken::Node(a), ElementData::Node(dn)) => exec_node_matches_data(
                            *a,
                            dn,
                        ),
                        (NodeOrToken::Token(a), ElementData::Token(dt)) => exec_token_matches_data(
                            *a,
                            dt,
                        ),
                        _ => false,
                    },
            decreases n - i,
        {
            let d = match &self.children[i].child {
                NodeOrToken::Node(a) => {
                    proof {
                        assert(decreases_to!(*self => *a));
                    }
                    ElementData::Node(a.to_data())
                },
                NodeOrToken::Token(a) => ElementData::Token(a.to_data()),
            };
            children.push(d);
            i = i + 1;
        }
        NodeData { kind: self.kind, children }
    }
}

impl Builder {
    /// Deserialize a token form through this cache: the interned token with
    /// this kind and text, existing or fresh.
    pub fn deserialize_token(&mut self, data: &TokenData) -> (r: Arc<Token>)
        requires
            old(self).inv(),
            old(self)@.has_capacity(1),
            data.text@.len() <= u32::MAX,
        ensures
            final(self).inv(),
            final(self)@ == token_step(old(self)@, data.kind, data.text@).0,
            r@ == token_step(old(self)@, data.kind, data.text@).1,
            final(self).owns_token(*r),
            forall|t: Token| old(self).owns_token(t) ==> final(self).owns_token(t),
            forall|n: Node| old(self).owns_node(n) ==> final(self).owns_node(n),
    {
        self.token(data.kind, data.text.as_slice())
    }

    /// Deserialize a node form through this cache.
    ///
    /// Every leaf and every subtree is routed through the interning pool,
    /// so parts of the form that are equal to each other — or to trees this
    /// builder already interned — collapse to shared allocations.
    pub fn deserialize_node(&mut self, data: &NodeData) -> (r: Arc<Node>)
        requires
            old(self).inv(),
            node_data_valid(*data),
            old(self)@.has_capacity(node_data_count(*data)),
        ensures
            final(self).inv(),
            final(self)@ == decode_node(old(self)@, *data).0,
            r@ == decode_node(old(self)@, *data).1,
            final(self).owns_node(*r),
            r@.wf(),
            r@.text_len == node_data_len(*data),
            forall|t: Token| old(self).owns_token(t) ==> final(self).owns_token(t),
            forall|n: Node| old(self).owns_node(n) ==> final(self).owns_node(n),
        decreases *data,
    {
        let ghost pre = self@;
        let n = data.children.len();
        let mut children: Vec<NodeOrToken<Arc<Node>, Arc<Token>>> = Vec::new();
        let mut i: usize = 0;
        proof {
            assert(data.children@.subrange(0, 0) =~= Seq::<ElementData>::empty());
        }
        while i < n
            invariant
                self.inv(),
                n == data.children@.len(),
                node_data_valid(*data),
                pre == old(self)@,
                pre.has_capacity(node_data_count(*data)),
                i <= n,
                children@.len() == i,
                self@ == decode_children(pre, data.children@.subrange(0, i as int)).0,
                child_views(children@) == decode_children(
                    pre,
                    data.children@.subrange(0, i as int),
                ).1,
                prefix_child_len(child_views(children@), i as int) == elements_len(
                    data.children@.subrange(0, i as int),
                ),
                forall|k: int|
                    0 <= k < children@.len() ==> self.owns_child(#[trigger] children@[k]),
                forall|t: Token| old(self).owns_token(t) ==> self.owns_token(t),
                forall|n2: Node| old(self).owns_node(n2) ==> self.owns_node(n2),
            decreases n - i,
        {
            let ghost prefix = data.children@.subrange(0, i as int);
            let ghost mid = self@;
            proof {
                lemma_decode_children_next_id(pre, data.children@.subrange(0, i as int));
                lemma_elements_count_prefix(data.children@, i as int);
                assert(element_count(data.children@[i as int]) + elements_count(
                    data.children@.subrange(0, i as int),
                ) <= elements_count(data.children@)) by {
                    lemma_elements_count_take_step(data.children@, i as int);
                }
            }
            let c: NodeOrToken<Arc<Node>, Arc<Token>> = match &data.children[i] {
                ElementData::Node(dn) => {
                    proof {
                        assert(decreases_to!(*data => *dn));
                        assert(data.children@[i as int] == ElementData::Node(*dn));
                        assert(element_data_valid(data.children@[i as int]));
                    }
                    let a = self.deserialize_node(dn);
                    proof {
                        assert(self@ == decode_element(mid, data.children@[i as int]).0);
                        assert(child_view(NodeOrToken::Node(a)) =~= decode_element(
                            mid,
                            data.children@[i as int],
                        ).1);
                        assert(child_view(NodeOrToken::Node(a)).len == element_len(
                            data.children@[i as int],
                        ));
                    }
                    NodeOrToken::Node(a)
                },
                ElementData::Token(dt) => {
                    proof {
                        assert(data.children@[i as int] == ElementData::Token(*dt));
                        assert(element_data_valid(data.children@[i as int]));
                    }
                    let a = self.deserialize_token(dt);
                    proof {
                        assert(self@ == decode_element(mid, data.children@[i as int]).0);
                        assert(child_view(NodeOrToken::Token(a)) =~= decode_element(
                            mid,
                            data.children@[i as int],
                        ).1);
                        assert(child_view(NodeOrToken::Token(a)).len == element_len(
                            data.children@[i as int],
                        ));
                    }
                    NodeOrToken::Token(a)
                },
            };
            proof {
                // the children decoded so far are still owned after this step
                assert forall|k: int| 0 <= k < children@.len() implies self.owns_child(
                    #[trigger] children@[k],
                ) by {
                    match children@[k] {
                        NodeOrToken::Node(a) => {
                            assert(self.owns_node(*a));
                        },
                        NodeOrToken::Token(a) => {
                            assert(self.owns_token(*a));
                        },
                    }
                }
            }
            children.push(c);
            i = i + 1;
            proof {
                let stepped = data.children@.subrange(0, i as int);
                assert(stepped.drop_last() =~= prefix);
                assert(stepped.drop_last() == prefix);
                assert(stepped.last() == data.children@[i - 1]);
                assert(decode_children(pre, stepped).0 == decode_element(
                    mid,
                    data.children@[i - 1],
                ).0);
                assert(decode_children(pre, stepped).1 == decode_children(pre, prefix).1.push(
                    decode_element(mid, data.children@[i - 1]).1,
                ));
                assert(child_view(children@[i - 1]) == decode_element(
                    mid,
                    data.children@[i - 1],
                ).1);
                assert(child_views(children@) =~= decode_children(pre, stepped).1);
                let dk = decode_children(pre, prefix).1;
                let key2 = child_views(children@);
                assert(key2.drop_last() =~= dk);
                lemma_prefix_child_len_same_prefix(key2, dk, i - 1);
                assert(prefix_child_len(key2, i - 1) == elements_len(prefix));
                assert(key2[i - 1] == child_view(children@[i - 1]));
                assert(key2[i - 1].len == element_len(data.children@[i - 1]));
                lemma_elements_len_step(data.children@, i - 1);
                assert(prefix_child_len(key2, i as int) == elements_len(stepped));
            }
        }
        proof {
            assert(data.children@.subrange(0, n as int) =~= data.children@);
            lemma_decode_children_next_id(pre, data.children@);
            assert(prefix_child_len(child_views(children@), children@.len() as int)
                == node_data_len(*data));
        }
        let ghost key = child_views(children@);
        let ghost mid = self@;
        let r = self.node(data.kind, children);
        proof {
            assert(r@ == node_step(mid, data.kind, key).1);
            match node_lookup(mid.nodes, data.kind, key) {
                Some(idx) => {
                    assert(node_key_matches(mid.nodes[idx], data.kind, key));
                    assert(children_of(r@) == key);
                    lemma_prefix_child_len_of_matching(r@, key);
                    assert(r@.text_len == node_data_len(*data));
                },
                None => {
                    assert(r@.text_len == prefix_child_len(key, key.len() as int));
                },
            }
        }
        r
    }
}


/// The structural form written for an owned node matches that node as the
/// pool resolves it: every child form names the interned child.
proof fn lemma_exec_match_to_pool(b: &Builder, n: Node, d: NodeData)
    requires
        b.inv(),
        b.owns_node(n),
        exec_node_matches_data(n, d),
    ensures
        node_matches_data(b@, n@, d),
    decreases d,
{
    crate::green::builder::lemma_owned_node_children_owned(b, n);
    assert forall|i: int| 0 <= i < d.children@.len() implies child_matches_data(
        b@,
        n@.children[i].child,
        #[trigger] d.children@[i],
    ) by {
        assert(n@.children[i] == n.children@[i]@);
        let c = n.children@[i].child;
        assert(b.owns_child(c));
        match (c, d.children@[i]) {
            (NodeOrToken::Node(a), ElementData::Node(dn)) => {
                lemma_exec_match_to_pool(b, *a, dn);
                crate::green::builder::lemma_owns_node_view(b, *a);
                let k = choose|k: int| 0 <= k < b@.nodes.len() && #[trigger] b@.nodes[k] == a@;
                assert(b@.nodes[k].id == child_view(c).id && node_matches_data(
                    b@,
                    b@.nodes[k],
                    dn,
                ));
            },
            (NodeOrToken::Token(a), ElementData::Token(dt)) => {
                crate::green::builder::lemma_owns_token_view(b, *a);
                let k = choose|k: int| 0 <= k < b@.tokens.len() && #[trigger] b@.tokens[k] == a@;
                assert(b@.tokens[k].id == child_view(c).id && b@.tokens[k].kind == dt.kind
                    && b@.tokens[k].text == dt.text@);
            },
            _ => {},
        }
    }
}

/// Decoding a child form that names an interned child returns exactly that
/// child's identity and changes nothing.
proof fn lemma_decode_element_interned(b: BuilderView, c: ChildView, e: ElementData)
    requires
        b.wf(),
        b.resolves(c),
        child_matches_data(b, c, e),
    ensures
        decode_element(b, e) == (b, c),
    decreases e, 3int,
{
    match e {
        ElementData::Node(dn) => {
            let k = choose|k: int|
                0 <= k < b.nodes.len() && (#[trigger] b.nodes[k]).id == c.id && node_matches_data(
                    b,
                    b.nodes[k],
                    dn,
                );
            lemma_decode_node_interned(b, k, dn);
            let kr = choose|k2: int|
                0 <= k2 < b.nodes.len() && (#[trigger] b.nodes[k2]).id == c.id && b.nodes[k2].text_len
                    == c.len;
            assert(kr == k);
            assert(decode_element(b, e).1 =~= c);
        },
        ElementData::Token(dt) => {
            let k = choose|k: int|
                0 <= k < b.tokens.len() && (#[trigger] b.tokens[k]).id == c.id && b.tokens[k].kind
                    == dt.kind && b.tokens[k].text == dt.text@;
            assert(token_key_matches(b.tokens[k], dt.kind, dt.text@));
            let j = choose|j: int|
                0 <= j < b.tokens.len() && token_key_matches(#[trigger] b.tokens[j], dt.kind, dt.text@);
            assert(token_key_matches(b.tokens[j], dt.kind, dt.text@));
            assert(j == k);
            let kr = choose|k2: int|
                0 <= k2 < b.tokens.len() && (#[trigger] b.tokens[k2]).id == c.id
                    && b.tokens[k2].text.len() == c.len;
            assert(kr == k);
            assert(decode_element(b, e).1 =~= c);
        },
    }
}

/// Decoding child forms that name interned children returns exactly their
/// identities and changes nothing.
proof fn lemma_decode_children_interned(b: BuilderView, cs: Seq<ChildView>, ds: Seq<ElementData>)
    requires
        b.wf(),
        cs.len() == ds.len(),
        forall|i: int| 0 <= i < cs.len() ==> b.resolves(#[trigger] cs[i]),
        forall|i: int| 0 <= i < cs.len() ==> child_matches_data(b, cs[i], #[trigger] ds[i]),
    ensures
        decode_children(b, ds) == (b, cs),
    decreases ds, 2int,
{
    if ds.len() == 0 {
        assert(decode_children(b, ds).1 =~= cs);
    } else {
        lemma_decode_children_interned(b, cs.drop_last(), ds.drop_last());
        lemma_decode_element_interned(b, cs.last(), ds.last());
        assert(cs.drop_last().push(cs.last()) =~= cs);
    }
}

/// Decoding the structural form of an interned node through the same pool
/// returns exactly that node and changes nothing.
proof fn lemma_decode_node_interned(b: BuilderView, k: int, d: NodeData)
    requires
        b.wf(),
        0 <= k < b.nodes.len(),
        node_matches_data(b, b.nodes[k], d),
    ensures
        decode_node(b, d) == (b, b.nodes[k]),
    decreases d, 1int,
{
    let nv = b.nodes[k];
    let cs = children_of(nv);
    assert forall|i: int| 0 <= i < cs.len() implies b.resolves(#[trigger] cs[i]) by {
        assert(b.resolves(nv.children[i].child));
    }
    assert forall|i: int| 0 <= i < cs.len() implies child_matches_data(
        b,
        cs[i],
        #[trigger] d.children@[i],
    ) by {
        assert(child_matches_data(b, nv.children[i].child, d.children@[i]));
    }
    lemma_decode_children_interned(b, cs, d.children@);
    assert(node_key_matches(nv, d.kind, cs));
    let j = choose|j: int|
        0 <= j < b.nodes.len() && node_key_matches(#[trigger] b.nodes[j], d.kind, cs);
    assert(node_key_matches(b.nodes[j], d.kind, cs));
    assert(j == k);
}

/// Round trip: the structural form written for a tree this builder has
/// interned, decoded back through the same builder, yields the identical
/// handle — not merely an equal tree — and leaves the builder unchanged.
/// [`Node::to_data`] writes such a form for any owned handle.
pub proof fn lemma_round_trip(b: &Builder, n: Node, d: NodeData)
    requires
        b.inv(),
        b.owns_node(n),
        exec_node_matches_data(n, d),
    ensures
        decode_node(b@, d) == (b@, n@),
{
    lemma_exec_match_to_pool(b, n, d);
    crate::green::builder::lemma_inv_wf(b);
    crate::green::builder::lemma_owns_node_view(b, n);
    let k = choose|k: int| 0 <= k < b@.nodes.len() && #[trigger] b@.nodes[k] == n@;
    lemma_decode_node_interned(b@, k, d);
}


/// Check one child form against the machine limits, within an identity
/// budget. Returns the budget left and the text length described.
fn check_element_form(e: &ElementData, budget: u64) -> (r: Option<(u64, u32)>)
    ensures
        match r {
            Some(p) => element_data_valid(*e) && element_count(*e) <= budget && p.0 == budget
                - element_count(*e) && p.1 == element_len(*e),
            None => !(element_data_valid(*e) && element_count(*e) <= budget),
        },
    decreases *e,
{
    match e {
        ElementData::Node(dn) => {
            proof {
                assert(decreases_to!(*e => *dn));
            }
            check_node_form(dn, budget)
        },
        ElementData::Token(dt) => {
            if budget < 1 {
                None
            } else if dt.text.len() > u32::MAX as usize {
                None
            } else {
                Some((budget - 1, dt.text.len() as u32))
            }
        },
    }
}

/// Check a node form against the machine limits, within an identity
/// budget. Returns the budget left and the text length described.
fn check_node_form(d: &NodeData, budget: u64) -> (r: Option<(u64, u32)>)
    ensures
        match r {
            Some(p) => node_data_valid(*d) && node_data_count(*d) <= budget && p.0 == budget
                - node_data_count(*d) && p.1 == node_data_len(*d),
            None => !(node_data_valid(*d) && node_data_count(*d) <= budget),
        },
    decreases *d,
{
    if budget < 1 {
        return None;
    }
    if d.children.len() > 0xFFFF {
        return None;
    }
    let n = d.children.len();
    let mut rem: u64 = budget - 1;
    let mut total: u32 = 0;
    let mut i: usize = 0;
    proof {
        assert(d.children@.subrange(0, 0) =~= Seq::<ElementData>::empty());
    }
    while i < n
        invariant
            n == d.children@.len(),
            i <= n,
            rem == budget - 1 - elements_count(d.children@.subrange(0, i as int)),
            elements_count(d.children@.subrange(0, i as int)) <= budget - 1,
            total == elements_len(d.children@.subrange(0, i as int)),
            forall|j: int| 0 <= j < i ==> element_data_valid(#[trigger] d.children@[j]),
        decreases n - i,
    {
        let r = check_element_form(&d.children[i], rem);
        match r {
            None => {
                proof {
                    lemma_elements_count_step(d.children@, i as int);
                    lemma_elements_count_prefix(d.children@, i + 1);
                    if element_data_valid(d.children@[i as int]) {
                        assert(element_count(d.children@[i as int]) > rem);
                        assert(elements_count(d.children@) > budget - 1);
                        assert(node_data_count(*d) > budget);
                    }
                }
                return None;
            },
            Some((rem2, len)) => {
                proof {
                    lemma_elements_count_step(d.children@, i as int);
                    lemma_elements_len_step(d.children@, i as int);
                }
                if len > u32::MAX - total {
                    proof {
                        lemma_elements_len_suffix(d.children@, i + 1);
                        assert(elements_len(d.children@.subrange(0, i + 1)) > u32::MAX);
                        assert(node_data_len(*d) > u32::MAX);
                    }
                    return None;
                }
                total = total + len;
                rem = rem2;
                i = i + 1;
            },
        }
    }
    proof {
        assert(d.children@.subrange(0, n as int) =~= d.children@);
    }
    Some((rem, total))
}

/// A whole form never describes less text than the elements before a
/// position.
proof fn lemma_elements_len_suffix(ds: Seq<ElementData>, i: int)
    requires
        0 <= i <= ds.len(),
    ensures
        elements_len(ds.subrange(0, i)) <= elements_len(ds),
    decreases ds.len() - i,
{
    if i < ds.len() {
        lemma_elements_len_step(ds, i);
        lemma_elements_len_suffix(ds, i + 1);
    } else {
        assert(ds.subrange(0, i) =~= ds);
    }
}

impl Builder {
    /// Whether this structural form can be deserialized through this
    /// builder: it respects the machine limits at every level — at most
    /// `u16::MAX` children per node, text lengths that fit a text size —
    /// and enough identities remain in this builder for its elements.
    pub fn can_deserialize(&self, data: &NodeData) -> (r: bool)
        ensures
            r == (node_data_valid(*data) && self@.has_capacity(node_data_count(*data))),
    {
        let budget = self.id_budget();
        match check_node_form(data, budget) {
            Some(_) => true,
            None => false,
        }
    }

    /// Whether this token form can be deserialized through this builder:
    /// its text fits a text size and an identity remains.
    pub fn can_deserialize_token(&self, data: &TokenData) -> (r: bool)
        ensures
            r == (data.text@.len() <= u32::MAX && self@.has_capacity(1)),
    {
        data.text.len() <= u32::MAX as usize && self.id_budget() >= 1
    }
}

/// Decoding children assigns at most one identity per element.
proof fn lemma_decode_children_next_id(b: BuilderView, ds: Seq<ElementData>)
    ensures
        decode_children(b, ds).0.next_id <= b.next_id + elements_count(ds),
        decode_children(b, ds).0.tokens.len() >= b.tokens.len(),
        decode_children(b, ds).0.nodes.len() >= b.nodes.len(),
    decreases ds, 3int,
{
    if ds.len() > 0 {
        lemma_decode_children_next_id(b, ds.drop_last());
        let (b1, _) = decode_children(b, ds.drop_last());
        lemma_decode_element_next_id(b1, ds.last());
    }
}

/// Decoding one element assigns at most its count of identities.
proof fn lemma_decode_element_next_id(b: BuilderView, e: ElementData)
    ensures
        decode_element(b, e).0.next_id <= b.next_id + element_count(e),
        decode_element(b, e).0.tokens.len() >= b.tokens.len(),
        decode_element(b, e).0.nodes.len() >= b.nodes.len(),
    decreases e, 4int,
{
    match e {
        ElementData::Node(dn) => {
            lemma_decode_node_next_id(b, dn);
        },
        ElementData::Token(_) => {},
    }
}

/// Decoding a node form assigns at most its count of identities.
proof fn lemma_decode_node_next_id(b: BuilderView, d: NodeData)
    ensures
        decode_node(b, d).0.next_id <= b.next_id + node_data_count(d),
        decode_node(b, d).0.tokens.len() >= b.tokens.len(),
        decode_node(b, d).0.nodes.len() >= b.nodes.len(),
    decreases d, 3int,
{
    lemma_decode_children_next_id(b, d.children@);
}

/// Summed lengths only depend on the prefix summed over.
proof fn lemma_prefix_child_len_same_prefix(s1: Seq<ChildView>, s2: Seq<ChildView>, i: int)
    requires
        0 <= i <= s1.len(),
        i <= s2.len(),
        forall|k: int| 0 <= k < i ==> s1[k] == s2[k],
    ensures
        prefix_child_len(s1, i) == prefix_child_len(
            s2,
            i,
        ),
    decreases i,
{
    if i > 0 {
        lemma_prefix_child_len_same_prefix(s1, s2, i - 1);
    }
}

/// A node whose children carry the identities of a key has the key's summed
/// length as its text length.
proof fn lemma_prefix_child_len_of_matching(nv: NodeView, key: Seq<ChildView>)
    requires
        nv.wf(),
        children_of(nv) == key,
    ensures
        nv.text_len == prefix_child_len(key, key.len() as int),
{
    lemma_children_of_prefix(nv, nv.children.len() as int);
}

/// The summed lengths of a node's child slots and of its child identities
/// agree.
proof fn lemma_children_of_prefix(nv: NodeView, i: int)
    requires
        0 <= i <= nv.children.len(),
    ensures
        crate::green::node::prefix_len(nv.children, i) == prefix_child_len(
            children_of(nv),
            i,
        ),
    decreases i,
{
    if i > 0 {
        lemma_children_of_prefix(nv, i - 1);
    }
}

/// Counting a prefix never exceeds counting the whole.
proof fn lemma_elements_count_prefix(ds: Seq<ElementData>, i: int)
    requires
        0 <= i <= ds.len(),
    ensures
        elements_count(ds.subrange(0, i)) <= elements_count(ds),
    decreases ds.len() - i,
{
    if i < ds.len() {
        lemma_elements_count_step(ds, i);
        lemma_elements_count_prefix(ds, i + 1);
    } else {
        assert(ds.subrange(0, i) =~= ds);
    }
}

/// Counting one more element adds that element's count.
proof fn lemma_elements_count_step(ds: Seq<ElementData>, i: int)
    requires
        0 <= i < ds.len(),
    ensures
        elements_count(ds.subrange(0, i + 1)) == elements_count(ds.subrange(0, i)) + element_count(
            ds[i],
        ),
{
    let s = ds.subrange(0, i + 1);
    assert(s.len() == i + 1);
    assert(s.drop_last() =~= ds.subrange(0, i));
    assert(s.last() == ds[i]);
}

/// Summing one more element adds that element's length.
proof fn lemma_elements_len_step(ds: Seq<ElementData>, i: int)
    requires
        0 <= i < ds.len(),
    ensures
        elements_len(ds.subrange(0, i + 1)) == elements_len(ds.subrange(0, i)) + element_len(
            ds[i],
        ),
{
    let s = ds.subrange(0, i + 1);
    assert(s.len() == i + 1);
    assert(s.drop_last() =~= ds.subrange(0, i));
    assert(s.last() == ds[i]);
}

/// The elements before a position and the element at it never count more
/// than the whole.
proof fn lemma_elements_count_take_step(ds: Seq<ElementData>, i: int)
    requires
        0 <= i < ds.len(),
    ensures
        element_count(ds[i]) + elements_count(ds.subrange(0, i)) <= elements_count(ds),
{
    lemma_elements_count_step(ds, i);
    lemma_elements_count_prefix(ds, i + 1);
}

} // verus!
