//! The nodes of a portable scene document.

use crate::transform::Transform;
use vstd::prelude::*;

verus! {

/// One node of a document: its name, its local transform, and its children in
/// sibling order. The hierarchy is the nesting; a record does not name its parent.
#[derive(Debug)]
pub struct NodeRecord {
    pub name: String,
    pub transform: Transform,
    pub children: Vec<NodeRecord>,
}

/// What a record is, as a mathematical tree.
pub struct RecordView {
    pub name: Seq<char>,
    pub transform: Transform,
    pub children: Seq<RecordView>,
}

/// The tree of a record.
pub open spec fn record_view(r: NodeRecord) -> RecordView
    decreases r,
{
    RecordView {
        name: r.name@,
        transform: r.transform,
        children: Seq::new(
            r.children@.len(),
            |i: int|
                if 0 <= i < r.children@.len() {
                    record_view(r.children@[i])
                } else {
                    arbitrary()
                },
        ),
    }
}

impl View for NodeRecord {
    type V = RecordView;

    open spec fn view(&self) -> RecordView {
        record_view(*self)
    }
}

/// The trees of a sequence of records, in order.
pub open spec fn forest_view(records: Seq<NodeRecord>) -> Seq<RecordView> {
    Seq::new(records.len(), |i: int| records[i]@)
}

/// The number of nodes of a tree, the root included.
pub open spec fn tree_size(t: RecordView) -> nat
    decreases t,
{
    1 + forest_size(t.children)
}

/// The number of nodes of all the trees of a forest.
pub open spec fn forest_size(f: Seq<RecordView>) -> nat
    decreases f,
{
    if f.len() == 0 {
        0
    } else {
        forest_size(f.drop_last()) + tree_size(f.last())
    }
}

/// The view of a record's children is the forest of its child records.
pub proof fn lemma_children_view(r: NodeRecord)
    ensures
        r@.children == forest_view(r.children@),
{
    let kids = r@.children;
    assert(kids.len() == r.children@.len());
    assert forall|i: int| 0 <= i < kids.len() implies kids[i] == forest_view(r.children@)[i] by {
        assert(kids[i] == r.children@[i]@);
    }
    assert(kids =~= forest_view(r.children@));
}

impl NodeRecord {
    pub fn new(name: String, transform: Transform, children: Vec<NodeRecord>) -> (r: NodeRecord)
        ensures
            r.name == name,
            r.transform == transform,
            r.children == children,
            r@.name == name@,
            r@.transform == transform,
            r@.children == forest_view(children@),
    {
        let r = NodeRecord { name, transform, children };
        proof {
            lemma_children_view(r);
        }
        r
    }
}

} // verus!
