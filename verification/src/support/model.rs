//! Actors: the scene hierarchy, a tree of named objects with their
//! transforms, meshes and materials.

use crate::support::bytes::be_u32;
use crate::support::reader::ByteReader;
use crate::support::resource::{
    chunk_at, is_decoded_tag, lemma_chunk_at_size, lemma_undecoded_tag_refused, Chunk, ChunkView,
};
use crate::support::tree::{
    insert_as_root, insert_under, new_tree, nodes_with_child, nodes_with_root, parent_of,
    tree_nodes, tree_root,
};
use crate::support::{Error, ACTOR_FILE_TYPE};
use id_tree::{NodeId, Tree};
use vstd::pervasive::unreached;
use vstd::prelude::*;

verus! {

/// What a node of the actor tree holds.
#[derive(Debug, Clone, PartialEq, Eq)]
pub enum ActorNode {
    /// The one node at the top of every tree.
    Root,
    Actor { name: String, visible: bool },
    /// Twelve numbers, each kept as the 32 bits of an IEEE 754
    /// single-precision number: a 3x3 block, then an offset.
    Transform([u32; 12]),
    MeshfileRef(String),
    MaterialRef(String),
}

/// What an `ActorNode` holds, as mathematical values.
pub enum ActorNodeView {
    Root,
    Actor { name: Seq<char>, visible: bool },
    Transform(Seq<u32>),
    MeshfileRef(Seq<char>),
    MaterialRef(Seq<char>),
}

impl View for ActorNode {
    type V = ActorNodeView;

    open spec fn view(&self) -> ActorNodeView {
        match *self {
            ActorNode::Root => ActorNodeView::Root,
            ActorNode::Actor { name, visible } => ActorNodeView::Actor { name: name@, visible },
            ActorNode::Transform(m) => ActorNodeView::Transform(m@),
            ActorNode::MeshfileRef(s) => ActorNodeView::MeshfileRef(s@),
            ActorNode::MaterialRef(s) => ActorNodeView::MaterialRef(s@),
        }
    }
}

/// A node of an actor tree as the records describe it: what it holds,
/// and its parent and its children by their place in the order in which
/// the nodes came in. The root is node 0.
pub struct OutlineNode {
    pub data: ActorNodeView,
    pub parent: Option<int>,
    pub children: Seq<int>,
}

/// Whether `nodes` are a tree in the order in which its nodes came in:
/// node 0 is the root, every other node has a parent that came in before
/// it, and the children of a node are, in that order, the nodes that
/// have it as their parent.
pub open spec fn outline_wf(nodes: Seq<OutlineNode>) -> bool {
    &&& nodes.len() > 0
    &&& nodes[0].parent is None
    &&& forall|i: int|
        0 < i < nodes.len() ==> (#[trigger] nodes[i]).parent is Some && 0 <= nodes[i].parent.unwrap()
            < i
    &&& forall|i: int, j: int|
        0 <= i < nodes.len() && 0 <= j < nodes[i].children.len() ==> i < (
        #[trigger] nodes[i].children[j]) < nodes.len() && nodes[nodes[i].children[j]].parent
            == Some(i)
    &&& forall|i: int, j: int, k: int|
        0 <= i < nodes.len() && 0 <= j < k < nodes[i].children.len() ==> (
        #[trigger] nodes[i].children[j]) < (#[trigger] nodes[i].children[k])
    &&& forall|i: int|
        0 < i < nodes.len() ==> nodes[(#[trigger] nodes[i]).parent.unwrap()].children.contains(i)
}

/// The tree that holds a root and nothing else.
pub open spec fn outline_root() -> Seq<OutlineNode> {
    seq![OutlineNode { data: ActorNodeView::Root, parent: None, children: Seq::empty() }]
}

/// `nodes` with one more node, which holds `data` and is the last child
/// of node `parent`.
pub open spec fn attach(nodes: Seq<OutlineNode>, parent: int, data: ActorNodeView) -> Seq<
    OutlineNode,
> {
    nodes.update(
        parent,
        OutlineNode { children: nodes[parent].children.push(nodes.len() as int), ..nodes[parent] },
    ).push(OutlineNode { data, parent: Some(parent), children: Seq::empty() })
}

/// A tree that stays a tree when a node is attached to it.
pub proof fn lemma_attach_wf(nodes: Seq<OutlineNode>, parent: int, data: ActorNodeView)
    requires
        outline_wf(nodes),
        0 <= parent < nodes.len(),
    ensures
        outline_wf(attach(nodes, parent, data)),
{
    let n = nodes.len() as int;
    let grown = attach(nodes, parent, data);
    assert forall|i: int, j: int|
        0 <= i < grown.len() && 0 <= j < grown[i].children.len() implies i < (
    #[trigger] grown[i].children[j]) < grown.len() && grown[grown[i].children[j]].parent == Some(
        i,
    ) by {
        if i == parent && j == nodes[parent].children.len() {
        } else {
            assert(grown[i].children[j] == nodes[i].children[j]);
        }
    }
    assert forall|i: int, j: int, k: int|
        0 <= i < grown.len() && 0 <= j < k < grown[i].children.len() implies (
    #[trigger] grown[i].children[j]) < (#[trigger] grown[i].children[k]) by {
        assert(grown[i].children[j] == nodes[i].children[j]);
        if i == parent && k == nodes[parent].children.len() {
        } else {
            assert(grown[i].children[k] == nodes[i].children[k]);
        }
    }
    assert forall|i: int| 0 < i < grown.len() implies grown[(
    #[trigger] grown[i]).parent.unwrap()].children.contains(i) by {
        if i == n {
            assert(grown[parent].children[nodes[parent].children.len() as int] == n);
        } else {
            let p = nodes[i].parent.unwrap();
            let j = choose|j: int| 0 <= j < nodes[p].children.len() && nodes[p].children[j] == i;
            assert(grown[p].children[j] == i);
        }
    }
}

/// The handle that stands for node `at`, if there is one.
pub open spec fn handle_of(ids: Seq<NodeId>, at: Option<int>) -> Option<NodeId> {
    match at {
        Some(i) => Some(ids[i]),
        None => None,
    }
}

/// The handles that stand for the nodes `at`.
pub open spec fn handles_of(ids: Seq<NodeId>, at: Seq<int>) -> Seq<NodeId> {
    Seq::new(at.len(), |j: int| ids[at[j]])
}

/// Whether the nodes `held` of a tree are the nodes `nodes`, with
/// `ids[i]` the handle of node `i`.
pub open spec fn depicts(
    held: Map<NodeId, (ActorNode, Option<NodeId>, Seq<NodeId>)>,
    ids: Seq<NodeId>,
    nodes: Seq<OutlineNode>,
) -> bool {
    &&& ids.len() == nodes.len()
    &&& forall|i: int, j: int| 0 <= i < j < ids.len() ==> ids[i] != ids[j]
    &&& forall|id: NodeId| #[trigger]
        held.dom().contains(id) ==> exists|i: int| 0 <= i < ids.len() && ids[i] == id
    &&& forall|i: int|
        0 <= i < ids.len() ==> {
            &&& held.dom().contains(#[trigger] ids[i])
            &&& held[ids[i]].0@ == nodes[i].data
            &&& held[ids[i]].1 == handle_of(ids, nodes[i].parent)
            &&& held[ids[i]].2 == handles_of(ids, nodes[i].children)
        }
}

/// Attaching a node to a tree of `id_tree` attaches it to the nodes that
/// the tree depicts.
pub proof fn lemma_attach_depicts(
    held: Map<NodeId, (ActorNode, Option<NodeId>, Seq<NodeId>)>,
    ids: Seq<NodeId>,
    nodes: Seq<OutlineNode>,
    parent: int,
    id: NodeId,
    data: ActorNode,
)
    requires
        outline_wf(nodes),
        depicts(held, ids, nodes),
        0 <= parent < nodes.len(),
        !held.dom().contains(id),
    ensures
        depicts(
            nodes_with_child(held, ids[parent], id, data),
            ids.push(id),
            attach(nodes, parent, data@),
        ),
{
    let n = nodes.len() as int;
    let after = nodes_with_child(held, ids[parent], id, data);
    let ids2 = ids.push(id);
    let grown = attach(nodes, parent, data@);
    assert forall|i: int, j: int| 0 <= i < j < ids2.len() implies ids2[i] != ids2[j] by {
        assert(held.dom().contains(ids[i]));
    }
    assert forall|x: NodeId| #[trigger] after.dom().contains(x) implies exists|i: int|
        0 <= i < ids2.len() && ids2[i] == x by {
        if x == id {
            assert(ids2[n] == x);
        } else {
            assert(held.dom().contains(x));
            let i = choose|i: int| 0 <= i < ids.len() && ids[i] == x;
            assert(ids2[i] == x);
        }
    }
    assert forall|i: int| 0 <= i < ids2.len() implies {
        &&& after.dom().contains(#[trigger] ids2[i])
        &&& after[ids2[i]].0@ == grown[i].data
        &&& after[ids2[i]].1 == handle_of(ids2, grown[i].parent)
        &&& after[ids2[i]].2 == handles_of(ids2, grown[i].children)
    } by {
        if i == n {
            assert(after[id].2 =~= handles_of(ids2, grown[n].children));
        } else {
            assert(held.dom().contains(ids[i]));
            assert(ids[i] != id);
            assert(ids2[i] == ids[i]);
            if i == parent {
                assert(after[ids[i]].2 =~= handles_of(ids2, grown[i].children)) by {
                    assert forall|j: int| 0 <= j < nodes[i].children.len() implies ids2[nodes[i].children[j]]
                        == ids[nodes[i].children[j]] by {}
                }
            } else {
                if i < parent {
                    assert(ids[i] != ids[parent]);
                } else {
                    assert(ids[parent] != ids[i]);
                }
                assert(after[ids[i]] == held[ids[i]]);
                assert(grown[i] == nodes[i]);
                assert(handles_of(ids, nodes[i].children) =~= handles_of(ids2, nodes[i].children))
                    by {
                    assert forall|j: int| 0 <= j < nodes[i].children.len() implies ids2[nodes[i].children[j]]
                        == ids[nodes[i].children[j]] by {}
                }
            }
            if i > 0 {
                assert(nodes[i].parent is Some);
            }
        }
    }
}

/// An actor tree while its records are read: the nodes so far, the node
/// under which new nodes come in, and the actor that was named last.
pub struct Build {
    pub nodes: Seq<OutlineNode>,
    pub current: int,
    pub last: int,
}

impl Build {
    /// The tree before any record is read: a root, at which both marks
    /// stand.
    pub open spec fn start() -> Build {
        Build { nodes: outline_root(), current: 0, last: 0 }
    }

    /// Whether the nodes are a tree and both marks stand at nodes of it.
    pub open spec fn wf(self) -> bool {
        &&& outline_wf(self.nodes)
        &&& 0 <= self.current < self.nodes.len()
        &&& 0 <= self.last < self.nodes.len()
    }

    /// The tree after one more record, which is not the one that ends it.
    pub open spec fn with_chunk(self, chunk: ChunkView) -> Result<Build, Error> {
        match chunk {
            ChunkView::ActorName { name, visible } => Ok(
                Build {
                    nodes: attach(self.nodes, self.current, ActorNodeView::Actor { name, visible }),
                    last: self.nodes.len() as int,
                    ..self
                },
            ),
            ChunkView::ActorTransform(m) => Ok(
                Build { nodes: attach(self.nodes, self.last, ActorNodeView::Transform(m)), ..self },
            ),
            ChunkView::MaterialRef(name) => Ok(
                Build {
                    nodes: attach(self.nodes, self.current, ActorNodeView::MaterialRef(name)),
                    ..self
                },
            ),
            ChunkView::MeshFileRef(name) => Ok(
                Build {
                    nodes: attach(self.nodes, self.current, ActorNodeView::MeshfileRef(name)),
                    ..self
                },
            ),
            ChunkView::ActorNodeDown => Ok(Build { current: self.last, ..self }),
            ChunkView::ActorNodeUp => match self.nodes[self.current].parent {
                Some(parent) => Ok(Build { current: parent, ..self }),
                None => Ok(self),
            },
            ChunkView::FileHeader { file_type } => if file_type == ACTOR_FILE_TYPE {
                Ok(self)
            } else {
                Err(Error::InvalidFileType { file_type })
            },
            _ => Err(Error::UnexpectedChunk { tag: chunk.tag() }),
        }
    }

    /// Going down into the actor that was named last and up again leads
    /// back to where that actor was named: the tree itself keeps the way
    /// up.
    pub proof fn lemma_down_then_up(self, name: Seq<char>, visible: bool)
        requires
            self.wf(),
        ensures
            ({
                let named = self.with_chunk(ChunkView::ActorName { name, visible })->Ok_0;
                let down = named.with_chunk(ChunkView::ActorNodeDown)->Ok_0;
                let up = down.with_chunk(ChunkView::ActorNodeUp)->Ok_0;
                &&& down.current == self.nodes.len()
                &&& up.current == self.current
                &&& up.nodes == named.nodes
                &&& up.last == named.last
            }),
    {
    }

    /// Going up at the root changes nothing.
    pub proof fn lemma_up_at_root(self)
        requires
            self.wf(),
            self.current == 0,
        ensures
            self.with_chunk(ChunkView::ActorNodeUp) == Ok::<Build, Error>(self),
    {
    }

    /// Every record leaves a tree a tree, with both marks at nodes of it.
    pub proof fn lemma_with_chunk_wf(self, chunk: ChunkView)
        requires
            self.wf(),
            self.with_chunk(chunk) is Ok,
        ensures
            self.with_chunk(chunk).unwrap().wf(),
    {
        match chunk {
            ChunkView::ActorName { name, visible } => {
                lemma_attach_wf(self.nodes, self.current, ActorNodeView::Actor { name, visible });
            },
            ChunkView::ActorTransform(m) => {
                lemma_attach_wf(self.nodes, self.last, ActorNodeView::Transform(m));
            },
            ChunkView::MaterialRef(name) => {
                lemma_attach_wf(self.nodes, self.current, ActorNodeView::MaterialRef(name));
            },
            ChunkView::MeshFileRef(name) => {
                lemma_attach_wf(self.nodes, self.current, ActorNodeView::MeshfileRef(name));
            },
            ChunkView::ActorNodeUp => {
                if self.current > 0 {
                    assert(self.nodes[self.current].parent is Some);
                }
            },
            _ => {},
        }
    }
}

/// The tree that the records at the start of `s` make of `build`, up to
/// the record that ends it, with the number of bytes they take up; or
/// the first error among them.
pub open spec fn build_at(s: Seq<u8>, build: Build) -> Result<(Build, nat), Error>
    decreases s.len(),
    via build_at_decreases
{
    match chunk_at(s) {
        Err(e) => Err(e),
        Ok((chunk, k)) => if chunk is Null {
            Ok((build, k))
        } else {
            match build.with_chunk(chunk) {
                Err(e) => Err(e),
                Ok(next) => match build_at(s.skip(k as int), next) {
                    Err(e) => Err(e),
                    Ok((last, rest)) => Ok((last, k + rest)),
                },
            }
        },
    }
}

#[via_fn]
proof fn build_at_decreases(s: Seq<u8>, build: Build) {
    lemma_chunk_at_size(s);
}

/// The nodes of the actor tree at the start of `s`, with the number of
/// bytes it takes up; or why there is none.
pub open spec fn actor_at(s: Seq<u8>) -> Result<(Seq<OutlineNode>, nat), Error> {
    match build_at(s, Build::start()) {
        Err(e) => Err(e),
        Ok((build, size)) => Ok((build.nodes, size)),
    }
}

/// An actor tree takes up the record that ends it at least, and no more
/// than there is; and it is a tree.
pub proof fn lemma_build_at(s: Seq<u8>, build: Build)
    requires
        build.wf(),
    ensures
        build_at(s, build) is Ok ==> 8 <= build_at(s, build).unwrap().1 <= s.len(),
        build_at(s, build) is Ok ==> build_at(s, build).unwrap().0.wf(),
    decreases s.len(),
{
    lemma_chunk_at_size(s);
    if let Ok((chunk, k)) = chunk_at(s) {
        if !(chunk is Null) {
            if let Ok(next) = build.with_chunk(chunk) {
                build.lemma_with_chunk_wf(chunk);
                lemma_build_at(s.skip(k as int), next);
            }
        }
    }
}

/// An error in the first record is the error of the whole tree: nothing
/// is passed over.
pub proof fn lemma_build_stops_at_bad_record(s: Seq<u8>, build: Build)
    requires
        chunk_at(s) is Err,
    ensures
        build_at(s, build) == Err::<(Build, nat), Error>(chunk_at(s)->Err_0),
{
}

/// A record whose tag has no decoder ends the reading of a tree with an
/// error that names the tag: it is not passed over.
pub proof fn lemma_build_refuses_undecoded_tag(s: Seq<u8>, build: Build)
    requires
        s.len() >= 8,
        !is_decoded_tag(be_u32(s)),
    ensures
        build_at(s, build) == Err::<(Build, nat), Error>(
            Error::UnsupportedChunk { tag: be_u32(s), size: be_u32(s.skip(4)) },
        ),
{
    lemma_undecoded_tag_refused(s);
}

/// An error after a record that was taken in is the error of the whole
/// tree, however many records were taken in before it.
pub proof fn lemma_build_stops_later(s: Seq<u8>, build: Build)
    requires
        chunk_at(s) is Ok,
        !(chunk_at(s)->Ok_0.0 is Null),
        build.with_chunk(chunk_at(s)->Ok_0.0) is Ok,
        build_at(
            s.skip(chunk_at(s)->Ok_0.1 as int),
            build.with_chunk(chunk_at(s)->Ok_0.0)->Ok_0,
        ) is Err,
    ensures
        build_at(s, build) == Err::<(Build, nat), Error>(
            build_at(
                s.skip(chunk_at(s)->Ok_0.1 as int),
                build.with_chunk(chunk_at(s)->Ok_0.0)->Ok_0,
            )->Err_0,
        ),
{
}

/// An actor tree that was read is a tree, and takes up the record that
/// ends it at least and no more than there is.
pub proof fn lemma_actor_at(s: Seq<u8>)
    requires
        actor_at(s) is Ok,
    ensures
        outline_wf(actor_at(s)->Ok_0.0),
        actor_at(s)->Ok_0.0[0].data == ActorNodeView::Root,
        8 <= actor_at(s)->Ok_0.1 <= s.len(),
{
    lemma_build_at(s, Build::start());
    lemma_build_keeps_root(s, Build::start());
}

/// The node at the top stays what it was while records are read.
pub proof fn lemma_build_keeps_root(s: Seq<u8>, build: Build)
    requires
        build.wf(),
    ensures
        build_at(s, build) is Ok ==> build_at(s, build)->Ok_0.0.nodes[0].data
            == build.nodes[0].data,
    decreases s.len(),
{
    lemma_chunk_at_size(s);
    if let Ok((chunk, k)) = chunk_at(s) {
        if !(chunk is Null) {
            if let Ok(next) = build.with_chunk(chunk) {
                build.lemma_with_chunk_wf(chunk);
                lemma_build_keeps_root(s.skip(k as int), next);
            }
        }
    }
}

/// The actor trees that stand one after another in `s`, up to the end of
/// `s` or to the first that cannot be read; the error that stopped the
/// reading, if one did; and the number of bytes that the trees take up.
pub open spec fn actors_at(s: Seq<u8>) -> (Seq<Seq<OutlineNode>>, Option<Error>, nat)
    decreases s.len(),
    via actors_at_decreases
{
    if s.len() == 0 {
        (Seq::empty(), None, 0)
    } else {
        match actor_at(s) {
            Err(e) => (Seq::empty(), Some(e), 0),
            Ok((nodes, k)) => {
                let rest = actors_at(s.skip(k as int));
                (seq![nodes] + rest.0, rest.1, k + rest.2)
            },
        }
    }
}

#[via_fn]
proof fn actors_at_decreases(s: Seq<u8>) {
    lemma_build_at(s, Build::start());
}

/// How many times the indent is written in front of a node when a tree
/// is printed: not at all for a node without a parent, and otherwise
/// once, and once more for each ancestor of the parent.
pub fn indent_count(parent_ancestors: Option<usize>) -> (r: usize)
    requires
        parent_ancestors matches Some(n) ==> n < usize::MAX,
    ensures
        r == match parent_ancestors {
            Some(n) => n + 1,
            None => 0,
        },
{
    match parent_ancestors {
        Some(n) => n + 1,
        None => 0,
    }
}

/// A scene hierarchy: a tree of nodes, and the handle of its root.
pub struct Actor {
    pub tree: Tree<ActorNode>,
    pub root_id: NodeId,
}

impl Actor {
    /// Whether the tree is the tree `nodes`, each node under some handle
    /// of its own, with `root_id` the handle of node 0.
    pub open spec fn depicts(&self, nodes: Seq<OutlineNode>) -> bool {
        exists|ids: Seq<NodeId>| self.depicts_by(ids, nodes)
    }

    /// Whether the tree is the tree `nodes`, with `ids[i]` the handle of
    /// node `i` and `root_id` the handle of node 0.
    pub open spec fn depicts_by(&self, ids: Seq<NodeId>, nodes: Seq<OutlineNode>) -> bool {
        &&& nodes.len() > 0
        &&& depicts(tree_nodes(self.tree), ids, nodes)
        &&& tree_root(self.tree) == Some(ids[0])
        &&& self.root_id == ids[0]
    }

    /// Puts a root on top of `tree`: what was at the top of it before, if
    /// anything, hangs under the new root.
    pub fn new(tree: Tree<ActorNode>) -> (actor: Actor)
        ensures
            !tree_nodes(tree).dom().contains(actor.root_id),
            tree_root(actor.tree) == Some(actor.root_id),
            tree_nodes(actor.tree) == nodes_with_root(
                tree_nodes(tree),
                tree_root(tree),
                actor.root_id,
                ActorNode::Root,
            ),
    {
        let mut tree = tree;
        match insert_as_root(&mut tree, ActorNode::Root) {
            Ok(root_id) => Actor { tree, root_id },
            Err(_) => unreached(),
        }
    }

    /// An actor tree that holds a root and nothing else.
    fn seed() -> (r: (Actor, Ghost<Seq<NodeId>>))
        ensures
            r.0.depicts_by(r.1@, outline_root()),
    {
        let actor = Actor::new(new_tree(5));
        let ghost ids = seq![actor.root_id];
        proof {
            let held = tree_nodes(actor.tree);
            assert(held.dom().contains(ids[0]));
            assert(held[ids[0]].2 =~= handles_of(ids, outline_root()[0].children));
            assert forall|id: NodeId| #[trigger] held.dom().contains(id) implies exists|i: int|
                0 <= i < ids.len() && ids[i] == id by {
                assert(ids[0] == id);
            }
        }
        (actor, Ghost(ids))
    }

    /// Hangs a node that holds `data` under the node with the handle
    /// `parent`, as its last child, and returns the new node's handle.
    fn attach(
        &mut self,
        parent: &NodeId,
        data: ActorNode,
        Ghost(ids): Ghost<Seq<NodeId>>,
        Ghost(nodes): Ghost<Seq<OutlineNode>>,
        Ghost(at): Ghost<int>,
    ) -> (id: NodeId)
        requires
            outline_wf(nodes),
            old(self).depicts_by(ids, nodes),
            0 <= at < nodes.len(),
            *parent == ids[at],
        ensures
            final(self).depicts_by(ids.push(id), attach(nodes, at, data@)),
    {
        match insert_under(&mut self.tree, parent, data) {
            Ok(id) => {
                proof {
                    lemma_attach_depicts(tree_nodes(old(self).tree), ids, nodes, at, id, data);
                }
                id
            },
            Err(_) => unreached(),
        }
    }

    /// Takes one record into the tree and says whether it was the record
    /// that ends the tree.
    fn grow(
        &mut self,
        current: &mut NodeId,
        last: &mut NodeId,
        c: Chunk,
        Ghost(ids): Ghost<Seq<NodeId>>,
        Ghost(build): Ghost<Build>,
    ) -> (r: (Result<bool, Error>, Ghost<Seq<NodeId>>))
        requires
            build.wf(),
            old(self).depicts_by(ids, build.nodes),
            *old(current) == ids[build.current],
            *old(last) == ids[build.last],
        ensures
            c@ is Null ==> r.0 == Ok::<bool, Error>(true) && r.1@ == ids && *final(self) == *old(
                self,
            ) && *final(current) == *old(current) && *final(last) == *old(last),
            !(c@ is Null) ==> match build.with_chunk(c@) {
                Ok(next) => r.0 == Ok::<bool, Error>(false) && final(self).depicts_by(
                    r.1@,
                    next.nodes,
                ) && *final(current) == r.1@[next.current] && *final(last) == r.1@[next.last],
                Err(e) => r.0 == Err::<bool, Error>(e),
            },
    {
        match c {
            Chunk::ActorName { name, visible } => {
                let id: NodeId = self.attach(
                    current,
                    ActorNode::Actor { name, visible },
                    Ghost(ids),
                    Ghost(build.nodes),
                    Ghost(build.current),
                );
                *last = id;
                (Ok(false), Ghost(ids.push(*last)))
            },
            Chunk::ActorTransform(transform) => {
                let id: NodeId = self.attach(
                    last,
                    ActorNode::Transform(transform),
                    Ghost(ids),
                    Ghost(build.nodes),
                    Ghost(build.last),
                );
                (Ok(false), Ghost(ids.push(id)))
            },
            Chunk::MaterialRef(name) => {
                let id: NodeId = self.attach(
                    current,
                    ActorNode::MaterialRef(name),
                    Ghost(ids),
                    Ghost(build.nodes),
                    Ghost(build.current),
                );
                (Ok(false), Ghost(ids.push(id)))
            },
            Chunk::MeshFileRef(name) => {
                let id: NodeId = self.attach(
                    current,
                    ActorNode::MeshfileRef(name),
                    Ghost(ids),
                    Ghost(build.nodes),
                    Ghost(build.current),
                );
                (Ok(false), Ghost(ids.push(id)))
            },
            Chunk::ActorNodeDown() => {
                *current = last.clone();
                (Ok(false), Ghost(ids))
            },
            Chunk::ActorNodeUp() => {
                match parent_of(&self.tree, current) {
                    Ok(Some(parent)) => {
                        *current = parent;
                    },
                    Ok(None) => {},
                    Err(_) => unreached(),
                }
                (Ok(false), Ghost(ids))
            },
            Chunk::Null() => (Ok(true), Ghost(ids)),
            Chunk::FileHeader { file_type } => {
                if file_type != ACTOR_FILE_TYPE {
                    (Err(Error::InvalidFileType { file_type }), Ghost(ids))
                } else {
                    (Ok(false), Ghost(ids))
                }
            },
            other => (Err(Error::UnexpectedChunk { tag: other.tag() }), Ghost(ids)),
        }
    }

    /// Reads an actor tree: records up to the one that ends it. An actor
    /// comes in under the node that was entered last; its transform hangs
    /// under the actor itself. On an error, a text that is not UTF-8
    /// included, the reader is put back to where the tree starts.
    pub fn load(rdr: &mut ByteReader) -> (r: Result<Actor, Error>)
        ensures
            match actor_at(old(rdr)@) {
                Ok((nodes, size)) => r is Ok && r.unwrap().depicts(nodes) && final(rdr).follows(
                    *old(rdr),
                    size,
                ),
                Err(e) => r == Err::<Actor, Error>(e) && final(rdr).follows(*old(rdr), 0),
            },
    {
        let start: usize = rdr.position();
        let (mut actor, Ghost(seed)) = Actor::seed();
        let ghost mut ids = seed;
        let ghost mut build = Build::start();
        let ghost mut size: nat = 0;
        let mut current_actor: NodeId = actor.root_id.clone();
        let mut last_actor: NodeId = current_actor.clone();
        assert(rdr@.skip(0) =~= rdr@);
        loop
            invariant_except_break
                match build_at(rdr@, build) {
                    Ok((last, k)) => build_at(old(rdr)@, Build::start()) == Ok::<(Build, nat), Error>(
                        (last, size + k),
                    ),
                    Err(e) => build_at(old(rdr)@, Build::start()) == Err::<(Build, nat), Error>(e),
                },
            invariant
                start == old(rdr).offset(),
                start <= rdr.source().len(),
                rdr.follows(*old(rdr), size),
                build.wf(),
                actor.depicts_by(ids, build.nodes),
                current_actor == ids[build.current],
                last_actor == ids[build.last],
            ensures
                build_at(old(rdr)@, Build::start()) == Ok::<(Build, nat), Error>((build, size)),
            decreases rdr@.len(),
        {
            let ghost here = *rdr;
            let c: Chunk = match Chunk::load(rdr) {
                Ok(c) => c,
                Err(e) => {
                    rdr.seek(start);
                    proof {
                        rdr.lemma_follows_none(*old(rdr));
                    }
                    return Err(e);
                },
            };
            proof {
                lemma_chunk_at_size(here@);
                let k = chunk_at(here@).unwrap().1;
                rdr.lemma_follows_twice(*old(rdr), here, size, k);
                size = size + k;
                if !(c@ is Null) && build.with_chunk(c@) is Ok {
                    build.lemma_with_chunk_wf(c@);
                }
            }
            let ghost step = build.with_chunk(c@);
            let (grown, Ghost(next_ids)) = actor.grow(
                &mut current_actor,
                &mut last_actor,
                c,
                Ghost(ids),
                Ghost(build),
            );
            match grown {
                Ok(true) => {
                    break ;
                },
                Ok(false) => {
                    proof {
                        ids = next_ids;
                        build = step.unwrap();
                    }
                },
                Err(e) => {
                    rdr.seek(start);
                    proof {
                        rdr.lemma_follows_none(*old(rdr));
                    }
                    return Err(e);
                },
            }
        }
        Ok(actor)
    }

    /// Reads actor trees one after another, up to the end of the bytes
    /// or to the first tree that cannot be read. Returns the trees that
    /// were read, and the error that stopped the reading if it was not
    /// the end of the bytes. The reader is left behind the last tree that
    /// was read: at the start of the tree that could not be read, if
    /// there is one.
    pub fn load_all(rdr: &mut ByteReader) -> (r: (Vec<Actor>, Option<Error>))
        ensures
            r.0@.len() == actors_at(old(rdr)@).0.len(),
            forall|i: int|
                0 <= i < r.0@.len() ==> (#[trigger] r.0@[i]).depicts(actors_at(old(rdr)@).0[i]),
            r.1 == actors_at(old(rdr)@).1,
            final(rdr).follows(*old(rdr), actors_at(old(rdr)@).2),
    {
        let mut models: Vec<Actor> = Vec::new();
        let ghost mut done: Seq<Seq<OutlineNode>> = Seq::empty();
        let ghost mut size: nat = 0;
        proof {
            rdr.lemma_follows_none(*old(rdr));
            assert(done + actors_at(rdr@).0 =~= actors_at(rdr@).0);
        }
        loop
            invariant
                rdr.follows(*old(rdr), size),
                models@.len() == done.len(),
                forall|i: int| 0 <= i < models@.len() ==> (#[trigger] models@[i]).depicts(done[i]),
                actors_at(old(rdr)@) == (
                    done + actors_at(rdr@).0,
                    actors_at(rdr@).1,
                    size + actors_at(rdr@).2,
                ),
            decreases rdr@.len(),
        {
            if rdr.is_at_end() {
                assert(done + actors_at(rdr@).0 =~= done);
                return (models, None);
            }
            let ghost here = *rdr;
            match Actor::load(rdr) {
                Err(e) => {
                    assert(done + actors_at(here@).0 =~= done);
                    proof {
                        rdr.lemma_follows_twice(*old(rdr), here, size, 0);
                    }
                    return (models, Some(e));
                },
                Ok(m) => {
                    proof {
                        lemma_build_at(here@, Build::start());
                        let nodes = actor_at(here@).unwrap().0;
                        let k = actor_at(here@).unwrap().1;
                        rdr.lemma_follows_twice(*old(rdr), here, size, k);
                        assert(done + (seq![nodes] + actors_at(rdr@).0) =~= done.push(nodes)
                            + actors_at(rdr@).0);
                        done = done.push(nodes);
                        size = size + k;
                    }
                    models.push(m);
                },
            }
        }
    }
}

} // verus!
