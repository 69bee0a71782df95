//! The scene graph as the engine hands it over, and its traversal.

use crate::transform::Transform;
use vstd::prelude::*;

verus! {

/// One node as the engine stores it: the parent, if any, is named by its index.
#[derive(Clone, Debug, PartialEq, Eq)]
pub struct SourceNode {
    pub name: String,
    pub transform: Transform,
    pub parent: Option<usize>,
}

/// A flat read of one node during traversal: the node's identifier, its name,
/// its local transform and the identifier of its parent.
#[derive(Clone, Debug, PartialEq, Eq)]
pub struct NodeView {
    pub index: usize,
    pub name: String,
    pub transform: Transform,
    pub parent: Option<usize>,
}

/// An in-memory scene graph: nodes addressed by index, and the identifiers of
/// the resources that the scene refers to, in the order of their discovery.
#[derive(Clone, Debug, PartialEq, Eq)]
pub struct SceneGraph {
    pub nodes: Vec<SourceNode>,
    pub resources: Vec<String>,
}

/// The views of the nodes of `graph`, in index order: each node under its
/// index as identifier.
pub open spec fn traversal_of(graph: SceneGraph) -> Seq<NodeView> {
    Seq::new(
        graph.nodes@.len(),
        |i: int|
            NodeView {
                index: i as usize,
                name: graph.nodes@[i].name,
                transform: graph.nodes@[i].transform,
                parent: graph.nodes@[i].parent,
            },
    )
}

impl SceneGraph {
    pub fn new() -> (g: SceneGraph)
        ensures
            g.nodes@.len() == 0,
            g.resources@.len() == 0,
    {
        SceneGraph { nodes: Vec::new(), resources: Vec::new() }
    }

    /// Adds a node and returns its index.
    pub fn add_node(&mut self, name: String, transform: Transform, parent: Option<usize>) -> (index:
        usize)
        ensures
            index == old(self).nodes@.len(),
            final(self).nodes@ == old(self).nodes@.push(SourceNode { name, transform, parent }),
            final(self).resources == old(self).resources,
    {
        let index = self.nodes.len();
        self.nodes.push(SourceNode { name, transform, parent });
        index
    }

    /// Records a reference to an outside resource.
    pub fn add_resource(&mut self, identifier: String)
        ensures
            final(self).resources@ == old(self).resources@.push(identifier),
            final(self).nodes == old(self).nodes,
    {
        self.resources.push(identifier);
    }

    pub fn node_count(&self) -> (n: usize)
        ensures
            n == self.nodes@.len(),
    {
        self.nodes.len()
    }

    /// The view of the node at `index`, or `None` where the graph has no such node.
    pub fn node(&self, index: usize) -> (r: Option<NodeView>)
        ensures
            match r {
                Some(view) => index < self.nodes@.len() && view == traversal_of(*self)[index as int],
                None => index >= self.nodes@.len(),
            },
    {
        if index < self.nodes.len() {
            let node = &self.nodes[index];
            Some(
                NodeView {
                    index,
                    name: node.name.clone(),
                    transform: node.transform,
                    parent: node.parent,
                },
            )
        } else {
            None
        }
    }
}

/// Reads every node of the graph, in index order.
pub fn traverse(graph: &SceneGraph) -> (views: Vec<NodeView>)
    ensures
        views@ == traversal_of(*graph),
{
    let mut views: Vec<NodeView> = Vec::new();
    let n = graph.nodes.len();
    let mut i: usize = 0;
    while i < n
        invariant
            i <= n,
            n == graph.nodes@.len(),
            views@.len() == i,
            forall|j: int| 0 <= j < i ==> #[trigger] views@[j] == traversal_of(*graph)[j],
        decreases n - i,
    {
        let node = &graph.nodes[i];
        views.push(
            NodeView {
                index: i,
                name: node.name.clone(),
                transform: node.transform,
                parent: node.parent,
            },
        );
        i = i + 1;
    }
    assert(views@ =~= traversal_of(*graph));
    views
}

} // verus!
