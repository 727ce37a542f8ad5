//! The intern cache: one shared instance for each small node and each
//! token that was built through it, and the sweep that lets go of what
//! nobody else holds.

use vstd::prelude::*;
use hashbrown::HashMap;
use crate::element::{forest_of, GreenElement};
use crate::kind::SyntaxKind;
use crate::node::GreenNode;
use crate::table::{
    drain_unheld_nodes, empty_node_table, empty_token_table, intern_node, intern_token,
    interned_nodes, interned_tokens, node_trees, remove_node, retain_held_tokens,
};
use crate::text::utf8_len;
use crate::token::GreenToken;
use crate::tree::{lemma_forest_size_concat, lemma_nodes_among_size, Tree};

verus! {

/// A node with more children than this is not interned.
pub const MAX_INTERNED_CHILDREN: usize = 3;

/// Whether `count` handles on an allocation are more than the one through
/// which the count was taken.
pub fn has_other_holder(count: usize) -> (other: bool)
    ensures
        other == (count > 1),
{
    count > 1
}

/// Whether `count` handles on a node are no more than the table's and the
/// one that the sweep holds while it looks at the node.
pub fn held_by_sweep_alone(count: usize) -> (alone: bool)
    ensures
        alone == (count <= 2),
{
    count <= 2
}

/// A table of the nodes and tokens that were built through it, which hands
/// out one shared instance for each tree.
#[derive(Debug)]
pub struct NodeCache {
    nodes: HashMap<GreenNode, ()>,
    tokens: HashMap<GreenToken, ()>,
}

impl NodeCache {
    /// The trees of the nodes that the cache holds.
    pub closed spec fn nodes(self) -> Set<Tree> {
        interned_nodes(self.nodes)
    }

    /// The trees of the tokens that the cache holds.
    pub closed spec fn tokens(self) -> Set<Tree> {
        interned_tokens(self.tokens)
    }

    /// A cache that holds nothing.
    pub fn new() -> (cache: NodeCache)
        ensures
            cache.nodes() == Set::<Tree>::empty(),
            cache.tokens() == Set::<Tree>::empty(),
    {
        NodeCache { nodes: empty_node_table(), tokens: empty_token_table() }
    }

    /// A node of kind `kind` over `children`. A node with at most
    /// [`MAX_INTERNED_CHILDREN`] children is the cache's shared instance of
    /// that tree, which the cache holds from now on; a larger one is new
    /// and the cache does not hold it.
    pub fn node(&mut self, kind: SyntaxKind, children: Vec<GreenElement>) -> (node: GreenNode)
        requires
            Tree::forest_len(forest_of(children@)) <= u32::MAX,
        ensures
            node@ == (Tree::Node { kind, children: forest_of(children@) }),
            final(self).nodes() == if children.len() <= MAX_INTERNED_CHILDREN {
                old(self).nodes().insert(node@)
            } else {
                old(self).nodes()
            },
            final(self).tokens() == old(self).tokens(),
    {
        let node = GreenNode::new(kind, children);
        // Small nodes repeat and are cheap to hash and to compare; large
        // ones rarely repeat, so interning them would gain little.
        if node.children().len() <= MAX_INTERNED_CHILDREN {
            intern_node(&mut self.nodes, node).clone()
        } else {
            node
        }
    }

    /// The cache's shared instance of the token of kind `kind` with text
    /// `text`, which the cache holds from now on.
    pub fn token(&mut self, kind: SyntaxKind, text: &str) -> (token: GreenToken)
        requires
            utf8_len(text@) <= u32::MAX,
        ensures
            token@ == (Tree::Token { kind, text: text@ }),
            final(self).tokens() == old(self).tokens().insert(token@),
            final(self).nodes() == old(self).nodes(),
    {
        let token = GreenToken::new(kind, text);
        intern_token(&mut self.tokens, token).clone()
    }

    /// Puts a handle on each child of `node` that is a node at the end of
    /// `queue`, in the order of the children. A child that the cache does
    /// not hold is queued like the others: the sweep finds nothing to give
    /// up for it, and goes on to those of its children that the cache does
    /// hold.
    pub fn queue_child_nodes(node: &GreenNode, queue: &mut Vec<GreenNode>)
        ensures
            node_trees(final(queue)@) == node_trees(old(queue)@) + Tree::nodes_among(
                node@.children(),
            ),
    {
        let ghost all = node@.children();
        let ghost queued = node_trees(queue@);
        let mut children = node.children();
        let ghost mut met: int = 0;
        proof {
            assert(all.skip(0) =~= all);
            assert(all.take(0) =~= Seq::<Tree>::empty());
            assert(queued + Tree::nodes_among(all.take(0)) =~= queued);
        }
        while children.len() > 0
            invariant
                0 <= met <= all.len(),
                children@ == all.skip(met),
                node_trees(queue@) == queued + Tree::nodes_among(all.take(met)),
            decreases children@.len(),
        {
            let ghost so_far = node_trees(queue@);
            let child = children.next().unwrap();
            proof {
                assert(all.take(met + 1).drop_last() =~= all.take(met));
                assert(all.skip(met).drop_first() =~= all.skip(met + 1));
            }
            if let Some(inner) = child.into_node() {
                queue.push(inner.clone());
                proof {
                    assert(node_trees(queue@) =~= so_far.push(inner@));
                    assert(so_far.push(inner@) =~= queued + Tree::nodes_among(all.take(met + 1)));
                }
            }
            proof {
                met = met + 1;
            }
        }
        proof {
            assert(all.take(met) =~= all);
        }
    }

    /// One step of the sweep, on a node that was found with `count` handles
    /// on it. Where the cache and the sweep alone hold the node, the cache
    /// gives it up, and the children of the node that are nodes are put
    /// in `queue` to be looked at in their turn; where another holder is
    /// left, nothing changes.
    pub fn sweep_node(&mut self, node: GreenNode, count: usize, queue: &mut Vec<GreenNode>)
        ensures
            final(self).tokens() == old(self).tokens(),
            count <= 2 ==> final(self).nodes() == old(self).nodes().remove(node@) && node_trees(
                final(queue)@,
            ) == node_trees(old(queue)@) + Tree::nodes_among(node@.children()),
            count > 2 ==> final(self).nodes() == old(self).nodes() && final(queue)@ == old(
                queue,
            )@,
    {
        if held_by_sweep_alone(count) {
            remove_node(&mut self.nodes, &node);
            // queue children for (potential) removal from the cache
            NodeCache::queue_child_nodes(&node, queue);
        }
    }

    /// Garbage collect any elements in this cache that are only held by this cache.
    ///
    /// Which elements those are depends on the handles that are alive when
    /// the sweep runs. Whatever they are, the sweep ends, and what the
    /// cache holds afterwards it held before.
    pub fn gc(&mut self)
        ensures
            final(self).nodes().subset_of(old(self).nodes()),
            final(self).tokens().subset_of(old(self).tokens()),
    {
        let mut to_drop: Vec<GreenNode> = drain_unheld_nodes(&mut self.nodes);
        while to_drop.len() > 0
            invariant
                self.nodes().subset_of(old(self).nodes()),
                self.tokens() == old(self).tokens(),
            decreases Tree::forest_size(node_trees(to_drop@)),
        {
            let ghost before = node_trees(to_drop@);
            let node = to_drop.pop().unwrap();
            proof {
                assert(node_trees(to_drop@) =~= before.drop_last());
                assert(before.last() == node@);
                assert(node@.size() == 1 + Tree::forest_size(node@.children()));
                lemma_nodes_among_size(node@.children());
                lemma_forest_size_concat(before.drop_last(), Tree::nodes_among(node@.children()));
            }
            let count = node.strong_count();
            self.sweep_node(node, count, &mut to_drop);
        }
        retain_held_tokens(&mut self.tokens);
    }
}

/// A tree is interned once: a cache that holds a tree holds the same
/// trees after that tree is interned again.
pub proof fn lemma_intern_again(held: Set<Tree>, tree: Tree)
    requires
        held.contains(tree),
    ensures
        held.insert(tree) == held,
{
    assert(held.insert(tree) =~= held);
}

impl Default for NodeCache {
    fn default() -> (cache: NodeCache)
        ensures
            cache.nodes() == Set::<Tree>::empty(),
            cache.tokens() == Set::<Tree>::empty(),
    {
        NodeCache::new()
    }
}

} // verus!
