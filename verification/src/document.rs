//! The scene document: the unit of conversion output.

use crate::assets::{collect_assets, same_members, strictly_ascending, texts};
use crate::hierarchy::{build_hierarchy, dangling, forest_of, lemma_position_is_identifier, link_of,
    rejected, well_structured, StructureError};
use crate::record::{forest_size, forest_view, NodeRecord, RecordView};
use crate::scene::{traversal_of, traverse, NodeView, SceneGraph};
use vstd::prelude::*;

verus! {

/// A forest of node records with the list of assets that the scene refers to.
/// The asset list is ascending and holds no identifier twice.
#[derive(Debug)]
pub struct SceneDocument {
    nodes: Vec<NodeRecord>,
    assets: Vec<String>,
}

/// What a document is: its trees and the texts of its asset identifiers.
pub struct DocumentView {
    pub nodes: Seq<RecordView>,
    pub assets: Seq<Seq<char>>,
}

impl View for SceneDocument {
    type V = DocumentView;

    closed spec fn view(&self) -> DocumentView {
        DocumentView { nodes: forest_view(self.nodes@), assets: texts(self.assets@) }
    }
}

/// The positions below `m` of the views whose scale is zero along some axis,
/// ascending.
pub open spec fn degenerate_upto(views: Seq<NodeView>, m: nat) -> Seq<usize>
    decreases m,
{
    if m == 0 {
        Seq::<usize>::empty()
    } else {
        let rest = degenerate_upto(views, (m - 1) as nat);
        if views[m - 1].transform.degenerate() {
            rest.push((m - 1) as usize)
        } else {
            rest
        }
    }
}

/// A document together with what was noticed while it was made.
#[derive(Debug)]
pub struct Conversion {
    pub document: SceneDocument,
    /// The indices of the nodes with a scale of zero along some axis.
    pub degenerate: Vec<usize>,
}

impl SceneDocument {
    #[verifier::type_invariant]
    spec fn ordered(self) -> bool {
        strictly_ascending(texts(self.assets@))
    }

    /// A document of the given trees, with the asset list made from the
    /// identifiers in `discovered`.
    pub fn new(nodes: Vec<NodeRecord>, discovered: &Vec<String>) -> (doc: SceneDocument)
        ensures
            doc@.nodes == forest_view(nodes@),
            strictly_ascending(doc@.assets),
            same_members(doc@.assets, texts(discovered@)),
    {
        let assets = collect_assets(discovered);
        SceneDocument { nodes, assets }
    }

    /// The root records, in order.
    pub fn nodes(&self) -> (r: &Vec<NodeRecord>)
        ensures
            forest_view(r@) == self@.nodes,
    {
        &self.nodes
    }

    /// The asset list: ascending, no identifier twice.
    pub fn assets(&self) -> (r: &Vec<String>)
        ensures
            texts(r@) == self@.assets,
            strictly_ascending(self@.assets),
    {
        proof {
            use_type_invariant(self);
        }
        &self.assets
    }
}

/// In the traversal of a graph a parent index stands for the node at that
/// index: it dangles exactly where the graph has no such node.
pub proof fn lemma_traversal_links(graph: SceneGraph, c: int)
    requires
        0 <= c < graph.nodes@.len(),
    ensures
        link_of(traversal_of(graph), c) == (match graph.nodes@[c].parent {
            Some(p) if p < graph.nodes@.len() => Some(p),
            _ => None,
        }),
        dangling(traversal_of(graph), c) <==> (graph.nodes@[c].parent matches Some(p) && p
            >= graph.nodes@.len()),
{
    let views = traversal_of(graph);
    assert(graph.nodes@.len() == graph.nodes.len());
    if let Some(p) = graph.nodes@[c].parent {
        lemma_position_is_identifier(views, p);
    }
}

/// Lists the views whose scale is zero along some axis.
pub fn flag_degenerate(views: &Vec<NodeView>) -> (flagged: Vec<usize>)
    ensures
        flagged@ == degenerate_upto(views@, views@.len()),
{
    let mut flagged: Vec<usize> = Vec::new();
    let mut c: usize = 0;
    while c < views.len()
        invariant
            c <= views@.len(),
            flagged@ == degenerate_upto(views@, c as nat),
        decreases views@.len() - c,
    {
        if views[c].transform.has_degenerate_scale() {
            flagged.push(c);
        }
        c = c + 1;
    }
    flagged
}

/// Converts a scene graph into a document: reads the nodes in index order,
/// rebuilds their tree, and gathers the asset list from the graph's resource
/// references. Succeeds exactly on a graph whose nodes are well structured.
pub fn convert(graph: &SceneGraph) -> (r: Result<Conversion, StructureError>)
    ensures
        r is Ok <==> well_structured(traversal_of(*graph)),
        match r {
            Ok(done) => {
                &&& done.document@.nodes == forest_of(traversal_of(*graph))
                &&& forest_size(done.document@.nodes) == graph.nodes@.len()
                &&& strictly_ascending(done.document@.assets)
                &&& same_members(done.document@.assets, texts(graph.resources@))
                &&& done.degenerate@ == degenerate_upto(
                    traversal_of(*graph),
                    graph.nodes@.len(),
                )
            },
            Err(e) => rejected(traversal_of(*graph), e),
        },
{
    let views = traverse(graph);
    match build_hierarchy(&views) {
        Ok(roots) => {
            let degenerate = flag_degenerate(&views);
            let document = SceneDocument::new(roots, &graph.resources);
            Ok(Conversion { document, degenerate })
        },
        Err(e) => Err(e),
    }
}

} // verus!
