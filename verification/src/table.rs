//! The hash tables of the intern cache, which are `hashbrown`'s. Their
//! code is not verified: each function here makes one call into a table
//! and states what is taken on trust of it, over the set of trees that the
//! table holds.

use vstd::prelude::*;
use hashbrown::HashMap;
use crate::node::GreenNode;
use crate::token::GreenToken;
use crate::tree::Tree;

verus! {

/// `hashbrown::HashMap`, as an opaque type: nothing is known of a table
/// but what the functions below state of it.
#[verifier::external_type_specification]
#[verifier::external_body]
#[verifier::reject_recursive_types(K)]
#[verifier::reject_recursive_types(V)]
#[verifier::reject_recursive_types(S)]
pub struct ExHashMap<K, V, S>(hashbrown::HashMap<K, V, S>);

/// `hashbrown::hash_map::DefaultHashBuilder`, the state of the hasher that
/// a table has by default, as an opaque type. Nothing is stated of it.
#[verifier::external_type_specification]
#[verifier::external_body]
pub struct ExDefaultHashBuilder(hashbrown::hash_map::DefaultHashBuilder);

/// The trees of the nodes that are keys of `table`. No two keys of a table
/// are equal, so each tree stands for one key.
pub uninterp spec fn interned_nodes(table: HashMap<GreenNode, ()>) -> Set<Tree>;

/// The trees of the tokens that are keys of `table`.
pub uninterp spec fn interned_tokens(table: HashMap<GreenToken, ()>) -> Set<Tree>;

/// The trees of `nodes`, in order.
pub open spec fn node_trees(nodes: Seq<GreenNode>) -> Seq<Tree> {
    Seq::new(nodes.len(), |i: int| nodes[i]@)
}

/// The trees of `nodes`, as a set.
pub open spec fn trees_of(nodes: Seq<GreenNode>) -> Set<Tree> {
    node_trees(nodes).to_set()
}

/// `HashMap::default`: a table without keys.
#[verifier::external_body]
pub(crate) fn empty_node_table() -> (table: HashMap<GreenNode, ()>)
    ensures
        interned_nodes(table) == Set::<Tree>::empty(),
{
    HashMap::default()
}

/// `HashMap::default`: a table without keys.
#[verifier::external_body]
pub(crate) fn empty_token_table() -> (table: HashMap<GreenToken, ()>)
    ensures
        interned_tokens(table) == Set::<Tree>::empty(),
{
    HashMap::default()
}

/// `raw_entry_mut().from_key(..).or_insert(..)`: the table looks for a key
/// that `==` finds equal to `node`, and takes `node` as a new key where it
/// has none. What comes back is the key that the table holds then: a node
/// with the tree of `node`. The table holds that tree and what it held
/// before.
///
/// The table finds an equal key through the `Hash` that was derived for
/// nodes, which hashes the kind, the cached lengths and the children; equal
/// trees give equal hashes.
#[verifier::external_body]
pub(crate) fn intern_node<'a>(table: &'a mut HashMap<GreenNode, ()>, node: GreenNode) -> (held:
    &'a GreenNode)
    ensures
        held@ == node@,
        interned_nodes(*final(table)) == interned_nodes(*old(table)).insert(node@),
{
    table.raw_entry_mut().from_key(&node).or_insert(node, ()).0
}

/// `raw_entry_mut().from_key(..).or_insert(..)` on the table of tokens: as
/// for nodes, the key equal to `token` that the table holds after the
/// call.
#[verifier::external_body]
pub(crate) fn intern_token<'a>(table: &'a mut HashMap<GreenToken, ()>, token: GreenToken) -> (held:
    &'a GreenToken)
    ensures
        held@ == token@,
        interned_tokens(*final(table)) == interned_tokens(*old(table)).insert(token@),
{
    table.raw_entry_mut().from_key(&token).or_insert(token, ()).0
}

/// `HashMap::drain_filter`, run to its end: every key for which the
/// closure says `false` leaves the table and is handed out, the others
/// stay. Which keys leave depends on the handles alive at that moment, so
/// the contract says only that the keys are split in two: those handed out
/// and those still in the table.
#[verifier::external_body]
pub(crate) fn drain_unheld_nodes(table: &mut HashMap<GreenNode, ()>) -> (drained: Vec<GreenNode>)
    ensures
        interned_nodes(*old(table)) == interned_nodes(*final(table)).union(trees_of(drained@)),
        interned_nodes(*final(table)).disjoint(trees_of(drained@)),
{
    table.drain_filter(|node, _| node.held_elsewhere()).map(|(node, _)| node).collect()
}

/// `HashMap::remove`: the key equal to `node` leaves the table, if there
/// is one.
#[verifier::external_body]
pub(crate) fn remove_node(table: &mut HashMap<GreenNode, ()>, node: &GreenNode)
    ensures
        interned_nodes(*final(table)) == interned_nodes(*old(table)).remove(node@),
{
    table.remove(node);
}

/// `HashMap::retain`: every key for which the closure says `false` leaves
/// the table. Which keys leave depends on the handles alive at that
/// moment; none is added.
#[verifier::external_body]
pub(crate) fn retain_held_tokens(table: &mut HashMap<GreenToken, ()>)
    ensures
        interned_tokens(*final(table)).subset_of(interned_tokens(*old(table))),
{
    table.retain(|token, _| token.held_elsewhere())
}

} // verus!
