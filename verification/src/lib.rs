//! An immutable, structurally shared syntax tree that keeps every byte of the
//! source text.
//!
//! Leaves are [`GreenToken`]s, inner nodes are [`GreenNode`]s. Both are
//! reference counted; equal small subtrees are shared through a
//! [`NodeCache`], and a [`GreenNodeBuilder`] assembles a tree bottom-up from
//! the calls of a parser. Every value has a mathematical counterpart, a
//! [`Tree`], over which the contracts of this crate are stated; a builder
//! has a [`Building`].
//!
//! What is verified is what each function returns or changes, as a tree or
//! a set of trees. Which allocation a handle points to, and how many
//! handles there are on it, is outside that model: the sweep of the cache
//! reads handle counts at run time, and its contract says what holds
//! whatever they are.

pub mod builder;
pub mod building;
pub mod cache;
pub mod element;
pub mod kind;
pub mod node;
mod shared;
pub mod table;
pub mod text;
pub mod token;
pub mod tree;

pub use builder::{Checkpoint, GreenNodeBuilder, MaybeOwned};
pub use building::{Building, Frame, Step};
pub use cache::NodeCache;
pub use element::{GreenElement, GreenElementRef, NodeOrToken};
pub use kind::SyntaxKind;
pub use node::{Children, GreenNode, GreenNodeData};
pub use text::{TextRange, TextSize};
pub use token::{GreenToken, GreenTokenData};
pub use tree::Tree;
