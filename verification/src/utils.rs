use vstd::prelude::*;

verus! {

/// A byte offset or byte length within the text covered by a tree.
pub type TextSize = u32;

/// Raw kind tag for each element in the tree.
///
/// The tag is assigned by the consumer of the library and never interpreted.
#[derive(Debug, Copy, Clone, PartialEq, Eq, Structural, PartialOrd, Ord, Hash)]
pub struct Kind(pub u16);

/// Enum wrapping either a node or a token.
#[derive(Debug, PartialEq, Eq, Hash)]
pub enum NodeOrToken<Node, Token> {
    Node(Node),
    Token(Token),
}

impl<Node, Token> NodeOrToken<Node, Token> {
    /// Whether this element is a node.
    pub fn is_node(&self) -> (r: bool)
        ensures
            r == (self matches NodeOrToken::Node(_)),
    {
        match self {
            NodeOrToken::Node(_) => true,
            NodeOrToken::Token(_) => false,
        }
    }

    /// Whether this element is a token.
    pub fn is_token(&self) -> (r: bool)
        ensures
            r == (self matches NodeOrToken::Token(_)),
    {
        match self {
            NodeOrToken::Node(_) => false,
            NodeOrToken::Token(_) => true,
        }
    }

    /// The node of this element, if it is one.
    pub fn into_node(self) -> (r: Option<Node>)
        ensures
            match self {
                NodeOrToken::Node(n) => r == Some(n),
                NodeOrToken::Token(_) => r is None,
            },
    {
        match self {
            NodeOrToken::Node(n) => Some(n),
            NodeOrToken::Token(_) => None,
        }
    }

    /// A reference to the node of this element, if it is one.
    pub fn as_node(&self) -> (r: Option<&Node>)
        ensures
            match self {
                NodeOrToken::Node(n) => r matches Some(m) && *m == n,
                NodeOrToken::Token(_) => r is None,
            },
    {
        match self {
            NodeOrToken::Node(n) => Some(n),
            NodeOrToken::Token(_) => None,
        }
    }

    /// The node of this element; the element must be one.
    pub fn unwrap_node(self) -> (r: Node)
        requires
            self matches NodeOrToken::Node(_),
        ensures
            self matches NodeOrToken::Node(n) && r == n,
    {
        match self {
            NodeOrToken::Node(n) => n,
            NodeOrToken::Token(_) => unreached(),
        }
    }

    /// The token of this element, if it is one.
    pub fn into_token(self) -> (r: Option<Token>)
        ensures
            match self {
                NodeOrToken::Token(t) => r == Some(t),
                NodeOrToken::Node(_) => r is None,
            },
    {
        match self {
            NodeOrToken::Node(_) => None,
            NodeOrToken::Token(t) => Some(t),
        }
    }

    /// A reference to the token of this element, if it is one.
    pub fn as_token(&self) -> (r: Option<&Token>)
        ensures
            match self {
                NodeOrToken::Token(t) => r matches Some(u) && *u == t,
                NodeOrToken::Node(_) => r is None,
            },
    {
        match self {
            NodeOrToken::Node(_) => None,
            NodeOrToken::Token(t) => Some(t),
        }
    }

    /// The token of this element; the element must be one.
    pub fn unwrap_token(self) -> (r: Token)
        requires
            self matches NodeOrToken::Token(_),
        ensures
            self matches NodeOrToken::Token(t) && r == t,
    {
        match self {
            NodeOrToken::Node(_) => unreached(),
            NodeOrToken::Token(t) => t,
        }
    }

    /// This element with both arms borrowed.
    pub fn as_ref(&self) -> (r: NodeOrToken<&Node, &Token>)
        ensures
            match self {
                NodeOrToken::Node(n) => r matches NodeOrToken::Node(m) && *m == n,
                NodeOrToken::Token(t) => r matches NodeOrToken::Token(u) && *u == t,
            },
    {
        match self {
            NodeOrToken::Node(n) => NodeOrToken::Node(n),
            NodeOrToken::Token(t) => NodeOrToken::Token(t),
        }
    }
}

} // verus!
