//! The tag that tells one grammar category from another.

use vstd::prelude::*;

verus! {

/// The grammar category of a node or a token.
///
/// The tree never interprets the number: it only stores and compares it.
#[derive(Clone, Copy, Debug, PartialEq, Eq, Structural, PartialOrd, Ord, Hash)]
pub struct SyntaxKind(pub u16);

} // verus!
