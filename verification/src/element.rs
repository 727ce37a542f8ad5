//! A child of a node: either a node or a token, owned or borrowed.

use vstd::prelude::*;
use vstd::std_specs::convert::FromSpecImpl;
use crate::node::GreenNode;
use crate::text::TextSize;
use crate::token::GreenToken;
use crate::tree::Tree;

verus! {

/// Either a node or a token.
#[derive(Debug, PartialEq, Eq, Hash)]
pub enum NodeOrToken<N, T> {
    Node(N),
    Token(T),
}

/// A child as its parent owns it: a handle on a node or on a token.
pub type GreenElement = NodeOrToken<GreenNode, GreenToken>;

/// A child as a reader borrows it from its parent.
pub type GreenElementRef<'a> = NodeOrToken<&'a GreenNode, &'a GreenToken>;

impl<N, T> NodeOrToken<N, T> {
    /// The node, if this is one.
    pub fn into_node(self) -> (node: Option<N>)
        ensures
            node == match self {
                NodeOrToken::Node(n) => Some(n),
                NodeOrToken::Token(_) => None,
            },
    {
        match self {
            NodeOrToken::Node(n) => Some(n),
            NodeOrToken::Token(_) => None,
        }
    }

    /// The token, if this is one.
    pub fn into_token(self) -> (token: Option<T>)
        ensures
            token == match self {
                NodeOrToken::Node(_) => None,
                NodeOrToken::Token(t) => Some(t),
            },
    {
        match self {
            NodeOrToken::Node(_) => None,
            NodeOrToken::Token(t) => Some(t),
        }
    }

    /// A borrow of the node, if this is one.
    pub fn as_node(&self) -> (node: Option<&N>)
        ensures
            node == match *self {
                NodeOrToken::Node(n) => Some(&n),
                NodeOrToken::Token(_) => None,
            },
    {
        match self {
            NodeOrToken::Node(n) => Some(n),
            NodeOrToken::Token(_) => None,
        }
    }

    /// A borrow of the token, if this is one.
    pub fn as_token(&self) -> (token: Option<&T>)
        ensures
            token == match *self {
                NodeOrToken::Node(_) => None,
                NodeOrToken::Token(t) => Some(&t),
            },
    {
        match self {
            NodeOrToken::Node(_) => None,
            NodeOrToken::Token(t) => Some(t),
        }
    }
}

impl<N: Clone, T: Clone> Clone for NodeOrToken<N, T> {
    /// A node for a node and a token for a token, each a clone of what
    /// this one holds.
    fn clone(&self) -> (copy: Self)
        ensures
            match (*self, copy) {
                (NodeOrToken::Node(node), NodeOrToken::Node(other)) => cloned(node, other),
                (NodeOrToken::Token(token), NodeOrToken::Token(other)) => cloned(token, other),
                _ => false,
            },
    {
        match self {
            NodeOrToken::Node(node) => NodeOrToken::Node(node.clone()),
            NodeOrToken::Token(token) => NodeOrToken::Token(token.clone()),
        }
    }
}

impl NodeOrToken<GreenNode, GreenToken> {
    /// The tree that this element stands for.
    pub open spec fn tree(self) -> Tree {
        match self {
            NodeOrToken::Node(node) => node@,
            NodeOrToken::Token(token) => token@,
        }
    }

    /// The length of the text that this element covers.
    pub fn text_len(&self) -> (len: TextSize)
        ensures
            len.raw == self.tree().text_len(),
    {
        match self {
            NodeOrToken::Node(node) => node.text_len(),
            NodeOrToken::Token(token) => token.text_len(),
        }
    }

    /// A borrowed form of this element.
    pub fn as_ref(&self) -> (borrowed: GreenElementRef<'_>)
        ensures
            borrowed == match *self {
                NodeOrToken::Node(node) => NodeOrToken::<&GreenNode, &GreenToken>::Node(&node),
                NodeOrToken::Token(token) => NodeOrToken::Token(&token),
            },
            borrowed.tree() == self.tree(),
    {
        match self {
            NodeOrToken::Node(node) => NodeOrToken::Node(node),
            NodeOrToken::Token(token) => NodeOrToken::Token(token),
        }
    }
}

impl<'a> NodeOrToken<&'a GreenNode, &'a GreenToken> {
    /// The tree that this element stands for.
    pub open spec fn tree(self) -> Tree {
        match self {
            NodeOrToken::Node(node) => node@,
            NodeOrToken::Token(token) => token@,
        }
    }

    /// The length of the text that this element covers.
    pub fn text_len(&self) -> (len: TextSize)
        ensures
            len.raw == self.tree().text_len(),
    {
        match self {
            NodeOrToken::Node(node) => node.text_len(),
            NodeOrToken::Token(token) => token.text_len(),
        }
    }

    /// An owned handle on the same element. The node or token itself is
    /// shared, not copied.
    pub fn cloned(&self) -> (owned: GreenElement)
        ensures
            owned == match *self {
                NodeOrToken::Node(node) => NodeOrToken::<GreenNode, GreenToken>::Node(*node),
                NodeOrToken::Token(token) => NodeOrToken::Token(*token),
            },
            owned.tree() == self.tree(),
    {
        match self {
            NodeOrToken::Node(node) => NodeOrToken::Node((*node).clone()),
            NodeOrToken::Token(token) => NodeOrToken::Token((*token).clone()),
        }
    }
}

impl From<GreenNode> for NodeOrToken<GreenNode, GreenToken> {
    fn from(node: GreenNode) -> (element: GreenElement) {
        NodeOrToken::Node(node)
    }
}

impl FromSpecImpl<GreenNode> for NodeOrToken<GreenNode, GreenToken> {
    open spec fn obeys_from_spec() -> bool {
        true
    }

    open spec fn from_spec(node: GreenNode) -> GreenElement {
        NodeOrToken::Node(node)
    }
}

impl From<GreenToken> for NodeOrToken<GreenNode, GreenToken> {
    fn from(token: GreenToken) -> (element: GreenElement) {
        NodeOrToken::Token(token)
    }
}

impl FromSpecImpl<GreenToken> for NodeOrToken<GreenNode, GreenToken> {
    open spec fn obeys_from_spec() -> bool {
        true
    }

    open spec fn from_spec(token: GreenToken) -> GreenElement {
        NodeOrToken::Token(token)
    }
}

/// The trees that `elements` stand for, in order.
pub open spec fn forest_of(elements: Seq<GreenElement>) -> Seq<Tree> {
    Seq::new(elements.len(), |i: int| elements[i].tree())
}

} // verus!
