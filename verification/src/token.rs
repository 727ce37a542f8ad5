//! Leaf tokens: a kind and a text behind a shared handle.

use vstd::prelude::*;
use vstd::std_specs::cmp::PartialEqSpecImpl;
use std::sync::Arc;
use crate::kind::SyntaxKind;
use crate::cache::has_other_holder;
use crate::shared::{handles, share};
use crate::text::{utf8_len, TextSize};
use crate::tree::Tree;

verus! {

/// What a token holds: its kind and its text.
#[derive(Debug, Hash)]
pub struct GreenTokenData {
    kind: SyntaxKind,
    text: String,
}

/// A leaf of the tree: a shared handle on a [`GreenTokenData`].
#[derive(Debug, Hash)]
pub struct GreenToken {
    data: Arc<GreenTokenData>,
}

impl View for GreenTokenData {
    type V = Tree;

    open spec fn view(&self) -> Tree {
        Tree::Token { kind: self.spec_kind(), text: self.spec_text() }
    }
}

impl View for GreenToken {
    type V = Tree;

    open spec fn view(&self) -> Tree {
        self.spec_data()@
    }
}

impl GreenTokenData {
    /// The text is no longer than a `TextSize` can count.
    #[verifier::type_invariant]
    spec fn fits(self) -> bool {
        utf8_len(self.text@) <= u32::MAX
    }

    /// The kind, as contracts speak of it.
    pub closed spec fn spec_kind(&self) -> SyntaxKind {
        self.kind
    }

    /// The text, as contracts speak of it.
    pub closed spec fn spec_text(self) -> Seq<char> {
        self.text@
    }

    /// The kind of this token.
    #[verifier::when_used_as_spec(spec_kind)]
    pub fn kind(&self) -> (kind: SyntaxKind)
        ensures
            kind == self.spec_kind(),
    {
        self.kind
    }

    /// The text of this token.
    pub fn text(&self) -> (text: &str)
        ensures
            text@ == self.spec_text(),
    {
        self.text.as_str()
    }

    /// The length of this token's text.
    pub fn text_len(&self) -> (len: TextSize)
        ensures
            len.raw == self@.text_len(),
    {
        proof {
            use_type_invariant(self);
        }
        TextSize::of(self.text.as_str())
    }
}

impl GreenToken {
    /// A new token of kind `kind` that holds `text`.
    pub fn new(kind: SyntaxKind, text: &str) -> (token: GreenToken)
        requires
            utf8_len(text@) <= u32::MAX,
        ensures
            token@ == (Tree::Token { kind, text: text@ }),
    {
        GreenToken { data: Arc::new(GreenTokenData { kind, text: text.to_owned() }) }
    }

    /// What the handle points to.
    pub closed spec fn spec_data(self) -> GreenTokenData {
        *self.data
    }

    /// The number of handles on this token that are alive, the cache's
    /// own among them.
    pub fn strong_count(&self) -> usize {
        handles(&self.data)
    }

    /// Whether a handle besides the one asked keeps this token alive.
    pub(crate) fn held_elsewhere(&self) -> bool {
        has_other_holder(self.strong_count())
    }
}

impl std::ops::Deref for GreenToken {
    type Target = GreenTokenData;

    fn deref(&self) -> (data: &GreenTokenData)
        ensures
            *data == self.spec_data(),
    {
        &*self.data
    }
}

impl PartialEq for GreenToken {
    fn eq(&self, other: &GreenToken) -> (equal: bool) {
        self.data.kind == other.data.kind && self.data.text == other.data.text
    }
}

impl PartialEqSpecImpl for GreenToken {
    open spec fn obeys_eq_spec() -> bool {
        true
    }

    open spec fn eq_spec(&self, other: &GreenToken) -> bool {
        self@ == other@
    }
}

impl Eq for GreenToken {}

impl Clone for GreenToken {
    /// A second handle on the same token.
    fn clone(&self) -> (token: GreenToken)
        ensures
            token == *self,
    {
        GreenToken { data: share(&self.data) }
    }
}

} // verus!
