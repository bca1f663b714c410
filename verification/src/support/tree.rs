//! The tree of `id_tree` that holds an actor's nodes, as far as the
//! library speaks of it. What is marked trusted here is stated of
//! `id_tree` and not proved.

use crate::support::model::ActorNode;
use id_tree::{InsertBehavior, Node, NodeId, NodeIdError, Tree, TreeBuilder};
use vstd::prelude::*;

verus! {

/// A tree of `id_tree`. Opaque here: what it holds is `tree_nodes` and
/// `tree_root`.
#[verifier::external_type_specification]
#[verifier::external_body]
#[verifier::reject_recursive_types(T)]
pub struct ExTree<T>(Tree<T>);

/// The handle of a node in a tree of `id_tree`. Opaque here.
#[verifier::external_type_specification]
#[verifier::external_body]
pub struct ExNodeId(NodeId);

/// Why `id_tree` refuses a handle.
#[verifier::external_type_specification]
pub struct ExNodeIdError(NodeIdError);

/// The nodes of a tree: for each handle that the tree accepts, what the
/// node holds, the handle of its parent and the handles of its children
/// in order.
pub uninterp spec fn tree_nodes(tree: Tree<ActorNode>) -> Map<
    NodeId,
    (ActorNode, Option<NodeId>, Seq<NodeId>),
>;

/// The handle of the node at the top of a tree, if it has one.
pub uninterp spec fn tree_root(tree: Tree<ActorNode>) -> Option<NodeId>;

/// The nodes of a tree that has none.
pub open spec fn no_nodes() -> Map<NodeId, (ActorNode, Option<NodeId>, Seq<NodeId>)> {
    Map::empty()
}

/// `Clone::clone` of `id_tree::NodeId`, which is derived. Trusted: the
/// copy is the same handle.
pub assume_specification[ <NodeId as Clone>::clone ](id: &NodeId) -> (r: NodeId)
    ensures
        r == *id,
;

/// Calls `id_tree::TreeBuilder::new`, `with_node_capacity` and `build`.
/// Trusted: the tree has no node and no root. The capacity is kept to
/// what any machine can allocate, since `build` reserves it at once.
#[verifier::external_body]
pub(crate) fn new_tree(node_capacity: usize) -> (tree: Tree<ActorNode>)
    requires
        node_capacity <= 0xffff,
    ensures
        tree_nodes(tree) == no_nodes(),
        tree_root(tree) is None,
{
    TreeBuilder::new().with_node_capacity(node_capacity).build()
}

/// The nodes of a tree after a node that holds `data` came in at the top
/// under the handle `id`: the node that was at the top before, if there
/// was one, is its only child.
pub open spec fn nodes_with_root(
    nodes: Map<NodeId, (ActorNode, Option<NodeId>, Seq<NodeId>)>,
    root: Option<NodeId>,
    id: NodeId,
    data: ActorNode,
) -> Map<NodeId, (ActorNode, Option<NodeId>, Seq<NodeId>)> {
    match root {
        Some(top) => nodes.insert(top, (nodes[top].0, Some(id), nodes[top].2)).insert(
            id,
            (data, None, seq![top]),
        ),
        None => nodes.insert(id, (data, None, Seq::empty())),
    }
}

/// The nodes of a tree after a node that holds `data` came in under the
/// handle `id` as the last child of `parent`.
pub open spec fn nodes_with_child(
    nodes: Map<NodeId, (ActorNode, Option<NodeId>, Seq<NodeId>)>,
    parent: NodeId,
    id: NodeId,
    data: ActorNode,
) -> Map<NodeId, (ActorNode, Option<NodeId>, Seq<NodeId>)> {
    nodes.insert(parent, (nodes[parent].0, nodes[parent].1, nodes[parent].2.push(id))).insert(
        id,
        (data, Some(parent), Seq::empty()),
    )
}

/// Calls `id_tree::Tree::insert` with `InsertBehavior::AsRoot` on a node
/// made by `Node::new`. Trusted: it does not fail; the node comes in
/// under a handle that the tree did not accept before, at the top, with
/// the node that was at the top before as its only child.
#[verifier::external_body]
pub(crate) fn insert_as_root(tree: &mut Tree<ActorNode>, data: ActorNode) -> (r: Result<
    NodeId,
    NodeIdError,
>)
    ensures
        r is Ok,
        !tree_nodes(*old(tree)).dom().contains(r.unwrap()),
        tree_root(*final(tree)) == Some(r.unwrap()),
        tree_nodes(*final(tree)) == nodes_with_root(
            tree_nodes(*old(tree)),
            tree_root(*old(tree)),
            r.unwrap(),
            data,
        ),
{
    tree.insert(Node::new(data), InsertBehavior::AsRoot)
}

/// Calls `id_tree::Tree::insert` with `InsertBehavior::UnderNode` on a
/// node made by `Node::new`. Trusted: under a handle that the tree
/// accepts it does not fail; the node comes in under a handle that the
/// tree did not accept before, as the last child of `parent`, and the
/// top of the tree stays.
#[verifier::external_body]
pub(crate) fn insert_under(tree: &mut Tree<ActorNode>, parent: &NodeId, data: ActorNode) -> (r:
    Result<NodeId, NodeIdError>)
    requires
        tree_nodes(*old(tree)).dom().contains(*parent),
    ensures
        r is Ok,
        !tree_nodes(*old(tree)).dom().contains(r.unwrap()),
        tree_root(*final(tree)) == tree_root(*old(tree)),
        tree_nodes(*final(tree)) == nodes_with_child(
            tree_nodes(*old(tree)),
            *parent,
            r.unwrap(),
            data,
        ),
{
    tree.insert(Node::new(data), InsertBehavior::UnderNode(parent))
}

/// Calls `id_tree::Tree::get` and `Node::parent`. Trusted: under a handle
/// that the tree accepts it does not fail and gives the handle of the
/// node's parent.
#[verifier::external_body]
pub(crate) fn parent_of(tree: &Tree<ActorNode>, id: &NodeId) -> (r: Result<
    Option<NodeId>,
    NodeIdError,
>)
    requires
        tree_nodes(*tree).dom().contains(*id),
    ensures
        r is Ok,
        r.unwrap() == tree_nodes(*tree)[*id].1,
{
    match tree.get(id) {
        Ok(node) => Ok(node.parent().cloned()),
        Err(e) => Err(e),
    }
}

} // verus!
