//! The builder: a tree assembled bottom-up from the calls of a parser,
//! with checkpoints to wrap what was already emitted in a node.

use vstd::prelude::*;
use crate::building::{Building, Frame};
use crate::cache::{NodeCache, MAX_INTERNED_CHILDREN};
use crate::element::{forest_of, GreenElement, NodeOrToken};
use crate::kind::SyntaxKind;
use crate::node::GreenNode;
use crate::text::utf8_len;
use crate::tree::{
    lemma_forest_len_concat, lemma_forest_len_prefix, lemma_forest_len_push,
    lemma_forest_len_step, Tree,
};

verus! {

/// A cache that a builder owns, or one that it was lent.
#[derive(Debug)]
pub enum MaybeOwned<'a, T> {
    Owned(T),
    Borrowed(&'a mut T),
}

impl<'a, T> MaybeOwned<'a, T> {
    /// The value as it is now, owned or lent.
    pub open spec fn get(self) -> T {
        match self {
            MaybeOwned::Owned(value) => value,
            MaybeOwned::Borrowed(value) => *value,
        }
    }
}

impl<T> std::ops::Deref for MaybeOwned<'_, T> {
    type Target = T;

    /// The value, for reading.
    fn deref(&self) -> (value: &T)
        ensures
            *value == self.get(),
    {
        match self {
            MaybeOwned::Owned(value) => value,
            MaybeOwned::Borrowed(value) => &**value,
        }
    }
}

impl<T> std::ops::DerefMut for MaybeOwned<'_, T> {
    /// The value, for changing. What is written through the result is the
    /// new value here; a lender still gets back what the last holder
    /// leaves.
    fn deref_mut(&mut self) -> (value: &mut T)
        ensures
            *value == old(self).get(),
            final(self).get() == *final(value),
            match *old(self) {
                MaybeOwned::Owned(_) => *final(self) is Owned,
                MaybeOwned::Borrowed(lent) => *final(self) matches MaybeOwned::Borrowed(still)
                    && *final(still) == *final(lent),
            },
    {
        match self {
            MaybeOwned::Owned(value) => value,
            MaybeOwned::Borrowed(value) => &mut **value,
        }
    }
}

impl<T: Default> Default for MaybeOwned<'_, T> {
    fn default() -> (slot: Self)
        ensures
            slot matches MaybeOwned::Owned(value) && T::default.ensures((), value),
    {
        MaybeOwned::Owned(T::default())
    }
}

/// A checkpoint for maybe wrapping a node. See `GreenNodeBuilder::checkpoint` for details.
#[derive(Clone, Copy, Debug)]
pub struct Checkpoint(usize);

impl Checkpoint {
    /// The number of elements that were pending when the mark was taken.
    pub closed spec fn position(self) -> nat {
        self.0 as nat
    }
}

/// The open nodes that `parents` stand for.
pub open spec fn frames_of(parents: Seq<(SyntaxKind, usize)>) -> Seq<Frame> {
    Seq::new(
        parents.len(),
        |i: int| Frame { kind: parents[i].0, first_child: parents[i].1 as nat },
    )
}

/// A builder for a green tree.
#[derive(Debug)]
pub struct GreenNodeBuilder<'cache> {
    cache: MaybeOwned<'cache, NodeCache>,
    parents: Vec<(SyntaxKind, usize)>,
    children: Vec<GreenElement>,
}

impl<'cache> View for GreenNodeBuilder<'cache> {
    type V = Building;

    closed spec fn view(&self) -> Building {
        Building { pending: forest_of(self.children@), open: frames_of(self.parents@) }
    }
}

impl<'cache> GreenNodeBuilder<'cache> {
    /// The cache through which the builder interns, owned or lent.
    pub closed spec fn cache_slot(self) -> MaybeOwned<'cache, NodeCache> {
        self.cache
    }

    /// The cache as it is now.
    pub open spec fn cache(self) -> NodeCache {
        self.cache_slot().get()
    }

    /// Creates new builder.
    pub fn new() -> (builder: GreenNodeBuilder<'static>)
        ensures
            builder@ == Building::empty(),
            builder@.well_formed(),
            builder.cache_slot() is Owned,
            builder.cache().nodes() == Set::<Tree>::empty(),
            builder.cache().tokens() == Set::<Tree>::empty(),
    {
        GreenNodeBuilder::default()
    }

    /// Reusing `NodeCache` between different `GreenNodeBuilder`s saves memory.
    /// It allows to structurally share underlying trees.
    ///
    /// The builder works on the cache that it was lent; when the builder
    /// is done, `cache` is what the builder made of it.
    pub fn with_cache(cache: &'cache mut NodeCache) -> (builder: GreenNodeBuilder<'cache>)
        ensures
            builder@ == Building::empty(),
            builder@.well_formed(),
            builder.cache() == *old(cache),
            builder.cache_slot() matches MaybeOwned::Borrowed(lent) && *final(lent) == *final(cache),
    {
        let builder = GreenNodeBuilder {
            cache: MaybeOwned::Borrowed(cache),
            parents: Vec::new(),
            children: Vec::new(),
        };
        proof {
            assert(builder@.pending =~= Seq::<Tree>::empty());
            assert(builder@.open =~= Seq::<Frame>::empty());
        }
        builder
    }

    /// Whether a token with `text` can still be added: whether the text of
    /// the whole tree stays within what a [`TextSize`](crate::TextSize)
    /// can count.
    pub fn can_take(&self, text: &str) -> (fits: bool)
        requires
            self@.well_formed(),
        ensures
            fits == (self@.text_len() + utf8_len(text@) <= u32::MAX),
    {
        let mut total: u64 = 0;
        let mut i: usize = 0;
        while i < self.children.len()
            invariant
                i <= self.children.len(),
                total == Tree::forest_len(forest_of(self.children@).take(i as int)),
                Tree::forest_len(forest_of(self.children@)) <= u32::MAX,
            decreases self.children.len() - i,
        {
            proof {
                lemma_forest_len_step(forest_of(self.children@), i as int);
                lemma_forest_len_prefix(forest_of(self.children@), i + 1);
            }
            total = total + self.children[i].text_len().raw as u64;
            i = i + 1;
        }
        proof {
            assert(forest_of(self.children@).take(i as int) =~= forest_of(self.children@));
        }
        let len: usize = text.as_bytes().len();
        len <= u32::MAX as usize && total + len as u64 <= u32::MAX as u64
    }

    /// Adds new token to the current branch.
    pub fn token(&mut self, kind: SyntaxKind, text: &str)
        requires
            old(self)@.well_formed(),
            old(self)@.text_len() + utf8_len(text@) <= u32::MAX,
        ensures
            final(self)@ == old(self)@.token(kind, text@),
            final(self)@.well_formed(),
            final(self).cache().tokens() == old(self).cache().tokens().insert(
                Tree::Token { kind, text: text@ },
            ),
            final(self).cache().nodes() == old(self).cache().nodes(),
            match old(self).cache_slot() {
                MaybeOwned::Owned(_) => final(self).cache_slot() is Owned,
                MaybeOwned::Borrowed(lent) => final(self).cache_slot() matches MaybeOwned::Borrowed(
                    still,
                ) && *final(still) == *final(lent),
            },
    {
        let token = self.cache.token(kind, text);
        proof {
            old(self)@.lemma_token(kind, text@);
            assert(forest_of(self.children@.push(NodeOrToken::Token(token))) =~= forest_of(
                self.children@,
            ).push(token@));
        }
        self.children.push(NodeOrToken::Token(token));
    }

    /// Start new node and make it current.
    pub fn start_node(&mut self, kind: SyntaxKind)
        requires
            old(self)@.well_formed(),
        ensures
            final(self)@ == old(self)@.start_node(kind),
            final(self)@.well_formed(),
            final(self).cache_slot() == old(self).cache_slot(),
    {
        let len = self.children.len();
        proof {
            self@.lemma_start_node_at(len as nat, kind);
            assert(frames_of(self.parents@.push((kind, len))) =~= frames_of(self.parents@).push(
                Frame { kind, first_child: len as nat },
            ));
        }
        self.parents.push((kind, len));
    }

    /// Whether a node is open, so that `finish_node` may be called.
    pub fn can_finish_node(&self) -> (open: bool)
        ensures
            open == self@.can_finish_node(),
    {
        self.parents.len() > 0
    }

    /// Finish current branch and restore previous
    /// branch as current.
    pub fn finish_node(&mut self)
        requires
            old(self)@.well_formed(),
            old(self)@.can_finish_node(),
        ensures
            final(self)@ == old(self)@.finish_node(),
            final(self)@.well_formed(),
            final(self).cache().nodes() == if old(self)@.closing().children().len()
                <= MAX_INTERNED_CHILDREN {
                old(self).cache().nodes().insert(old(self)@.closing())
            } else {
                old(self).cache().nodes()
            },
            final(self).cache().tokens() == old(self).cache().tokens(),
            match old(self).cache_slot() {
                MaybeOwned::Owned(_) => final(self).cache_slot() is Owned,
                MaybeOwned::Borrowed(lent) => final(self).cache_slot() matches MaybeOwned::Borrowed(
                    still,
                ) && *final(still) == *final(lent),
            },
    {
        let ghost before = self@;
        let ghost first = before.open.last().first_child as int;
        proof {
            before.lemma_finish_node();
            assert(frames_of(self.parents@.drop_last()) =~= before.open.drop_last());
            assert(before.pending =~= before.pending.take(first) + before.pending.skip(first));
            lemma_forest_len_concat(before.pending.take(first), before.pending.skip(first));
            assert(forest_of(self.children@.subrange(0, first)) =~= before.pending.take(first));
            assert(forest_of(self.children@.subrange(first, self.children@.len() as int))
                =~= before.pending.skip(first));
        }
        let (kind, first_child) = self.parents.pop().unwrap();
        let children = self.children.split_off(first_child);
        let node = self.cache.node(kind, children);
        proof {
            lemma_forest_len_push(before.pending.take(first), node@);
            assert(forest_of(self.children@.push(NodeOrToken::Node(node))) =~= forest_of(
                self.children@,
            ).push(node@));
        }
        self.children.push(NodeOrToken::Node(node));
    }

    /// Prepare for maybe wrapping the next node.
    /// The way wrapping works is that you first of all get a checkpoint,
    /// then you place all tokens you want to wrap, and then *maybe* call
    /// `start_node_at`.
    pub fn checkpoint(&self) -> (checkpoint: Checkpoint)
        ensures
            checkpoint.position() == self@.checkpoint(),
    {
        Checkpoint(self.children.len())
    }

    /// Whether a node may still be opened at `checkpoint`, so that
    /// `start_node_at` may be called with it.
    pub fn accepts(&self, checkpoint: Checkpoint) -> (valid: bool)
        ensures
            valid == self@.accepts(checkpoint.position()),
    {
        let Checkpoint(position) = checkpoint;
        if position > self.children.len() {
            return false;
        }
        let open = self.parents.len();
        if open > 0 {
            self.parents[open - 1].1 <= position
        } else {
            true
        }
    }

    /// Wrap the previous branch marked by `checkpoint` in a new branch and
    /// make it current.
    pub fn start_node_at(&mut self, checkpoint: Checkpoint, kind: SyntaxKind)
        requires
            old(self)@.well_formed(),
            old(self)@.accepts(checkpoint.position()),
        ensures
            final(self)@ == old(self)@.start_node_at(checkpoint.position(), kind),
            final(self)@.well_formed(),
            final(self).cache_slot() == old(self).cache_slot(),
    {
        let Checkpoint(position) = checkpoint;
        proof {
            self@.lemma_start_node_at(position as nat, kind);
            assert(frames_of(self.parents@.push((kind, position))) =~= frames_of(
                self.parents@,
            ).push(Frame { kind, first_child: position as nat }));
        }
        self.parents.push((kind, position));
    }

    /// Whether the tree is complete, so that `finish` may be called:
    /// whether one element is pending, and that one a node.
    pub fn can_finish(&self) -> (complete: bool)
        ensures
            complete == self@.can_finish(),
    {
        if self.children.len() != 1 {
            return false;
        }
        match &self.children[0] {
            NodeOrToken::Node(_) => true,
            NodeOrToken::Token(_) => false,
        }
    }

    /// Complete tree building. Make sure that
    /// `start_node_at` and `finish_node` calls
    /// are paired!
    ///
    /// A cache that was lent to the builder is from here on what the
    /// builder made of it.
    pub fn finish(self) -> (root: GreenNode)
        requires
            self@.can_finish(),
        ensures
            root@ == self@.finish(),
            self.cache_slot() matches MaybeOwned::Borrowed(lent) ==> *final(lent) == self.cache(),
    {
        let mut builder = self;
        match builder.children.pop().unwrap() {
            NodeOrToken::Node(node) => node,
            NodeOrToken::Token(_) => unreached(),
        }
    }
}

impl Default for GreenNodeBuilder<'_> {
    /// A builder with a cache of its own, which holds nothing yet.
    fn default() -> (builder: Self)
        ensures
            builder@ == Building::empty(),
            builder@.well_formed(),
            builder.cache_slot() is Owned,
            builder.cache().nodes() == Set::<Tree>::empty(),
            builder.cache().tokens() == Set::<Tree>::empty(),
    {
        let builder = GreenNodeBuilder {
            cache: MaybeOwned::default(),
            parents: Vec::new(),
            children: Vec::new(),
        };
        proof {
            assert(builder@.pending =~= Seq::<Tree>::empty());
            assert(builder@.open =~= Seq::<Frame>::empty());
        }
        builder
    }
}

} // verus!
