//! Rebuilding the tree of a scene from the flat sequence of its node views.
//!
//! The order of the views carries no structure. Each view names its parent by
//! identifier; an identifier resolves to the last view that carries it. A view
//! without a parent is a root. Children keep the order in which their views
//! come, and so do the roots.

use crate::forest::lemma_one_record_per_view;
use crate::record::{forest_size, forest_view, NodeRecord, RecordView};
use crate::scene::NodeView;
use std::collections::HashMap;
use vstd::prelude::*;

verus! {

broadcast use vstd::std_specs::hash::group_hash_axioms;

/// Why a sequence of views is not a forest.
#[derive(Clone, Copy, Debug, PartialEq, Eq, Structural)]
pub enum StructureError {
    /// The view at position `node` names the parent `parent`, and no view
    /// carries that identifier.
    DanglingParent { node: usize, parent: usize },
    /// Following the parent links from the view at position `node` never
    /// reaches a root.
    Cycle { node: usize },
}

/// The position of the view that the identifier `id` stands for: the last view
/// that carries it.
pub open spec fn position_of(views: Seq<NodeView>, id: usize) -> Option<usize>
    decreases views.len(),
{
    if views.len() == 0 {
        None
    } else if views.last().index == id {
        Some((views.len() - 1) as usize)
    } else {
        position_of(views.drop_last(), id)
    }
}

/// The position of the parent of the view at position `c`, where it has one.
pub open spec fn link_of(views: Seq<NodeView>, c: int) -> Option<usize> {
    match views[c].parent {
        None => None,
        Some(id) => position_of(views, id),
    }
}

/// The view at position `c` names a parent that no view stands for.
pub open spec fn dangling(views: Seq<NodeView>, c: int) -> bool {
    views[c].parent matches Some(id) && position_of(views, id) is None
}

/// For each position, the position of its parent.
pub open spec fn links_of(views: Seq<NodeView>) -> Seq<Option<usize>> {
    Seq::new(views.len(), |c: int| link_of(views, c))
}

/// Every link leads to a position of the sequence.
pub open spec fn links_valid(links: Seq<Option<usize>>) -> bool {
    forall|c: int|
        0 <= c < links.len() ==> (#[trigger] links[c] matches Some(p) ==> p < links.len())
}

/// The number of links from position `c` up to its root, where a root is
/// reached over at most `fuel` links.
pub open spec fn depth_within(links: Seq<Option<usize>>, c: int, fuel: nat) -> Option<nat>
    decreases fuel,
{
    match links[c] {
        None => Some(0),
        Some(p) => if fuel == 0 {
            None
        } else {
            match depth_within(links, p as int, (fuel - 1) as nat) {
                Some(d) => Some(d + 1),
                None => None,
            }
        },
    }
}

/// From position `c` a root is reached over no more links than there are
/// positions. A walk that long and still not at a root has come by some
/// position twice.
pub open spec fn rooted(links: Seq<Option<usize>>, c: int) -> bool {
    depth_within(links, c, links.len()) is Some
}

/// No view names a missing parent, and every view hangs below a root.
pub open spec fn well_structured(views: Seq<NodeView>) -> bool {
    &&& forall|c: int| 0 <= c < views.len() ==> !dangling(views, c)
    &&& forall|c: int| 0 <= c < views.len() ==> rooted(links_of(views), c)
}

/// `e` is what is wrong with `views`: the first view with a missing parent or,
/// where every parent is there, the first view that hangs below no root.
pub open spec fn rejected(views: Seq<NodeView>, e: StructureError) -> bool {
    match e {
        StructureError::DanglingParent { node, parent } => {
            &&& node < views.len()
            &&& views[node as int].parent == Some(parent)
            &&& dangling(views, node as int)
            &&& forall|c: int| 0 <= c < node ==> !dangling(views, c)
        },
        StructureError::Cycle { node } => {
            &&& forall|c: int| 0 <= c < views.len() ==> !dangling(views, c)
            &&& node < views.len()
            &&& !rooted(links_of(views), node as int)
            &&& forall|c: int| 0 <= c < node ==> rooted(links_of(views), c)
        },
    }
}

/// The positions below `m` whose link is `target`, ascending.
pub open spec fn linked_to(links: Seq<Option<usize>>, target: Option<usize>, m: nat) -> Seq<usize>
    decreases m,
{
    if m == 0 {
        Seq::<usize>::empty()
    } else {
        let rest = linked_to(links, target, (m - 1) as nat);
        if links[m - 1] == target {
            rest.push((m - 1) as usize)
        } else {
            rest
        }
    }
}

/// The positions below `m` whose parent is at position `p`, ascending.
pub open spec fn children_upto(links: Seq<Option<usize>>, p: usize, m: nat) -> Seq<usize> {
    linked_to(links, Some(p), m)
}

/// The positions below `m` that have no parent, ascending.
pub open spec fn roots_upto(links: Seq<Option<usize>>, m: nat) -> Seq<usize> {
    linked_to(links, None, m)
}

/// The tree below position `c`, cut off `fuel` levels down.
pub open spec fn subtree(
    views: Seq<NodeView>,
    links: Seq<Option<usize>>,
    c: int,
    fuel: nat,
) -> RecordView
    decreases fuel, 0nat,
{
    RecordView {
        name: views[c].name@,
        transform: views[c].transform,
        children: if fuel == 0 {
            Seq::<RecordView>::empty()
        } else {
            subtrees(
                views,
                links,
                children_upto(links, c as usize, links.len()),
                (fuel - 1) as nat,
            )
        },
    }
}

/// The trees below the positions `nodes`, in that order.
pub open spec fn subtrees(
    views: Seq<NodeView>,
    links: Seq<Option<usize>>,
    nodes: Seq<usize>,
    fuel: nat,
) -> Seq<RecordView>
    decreases fuel, 1nat,
{
    Seq::new(nodes.len(), |i: int| subtree(views, links, nodes[i] as int, fuel))
}

/// The forest that the views describe: one tree for each root. With as much
/// fuel as there are views no tree of a well-structured sequence is cut.
pub open spec fn forest_of(views: Seq<NodeView>) -> Seq<RecordView> {
    let links = links_of(views);
    subtrees(views, links, roots_upto(links, views.len()), views.len())
}

/// What `position_of` finds carries the identifier.
pub proof fn lemma_position_found(views: Seq<NodeView>, id: usize)
    requires
        views.len() <= usize::MAX,
    ensures
        position_of(views, id) matches Some(p) ==> p < views.len() && views[p as int].index == id,
    decreases views.len(),
{
    if views.len() > 0 && views.last().index != id {
        lemma_position_found(views.drop_last(), id);
    }
}

/// An identifier stands for no position exactly where no view carries it.
pub proof fn lemma_position_missing(views: Seq<NodeView>, id: usize)
    ensures
        position_of(views, id) is None <==> forall|j: int|
            0 <= j < views.len() ==> (#[trigger] views[j]).index != id,
    decreases views.len(),
{
    if views.len() > 0 {
        let init = views.drop_last();
        lemma_position_missing(init, id);
        if views.last().index == id {
            assert(views[views.len() - 1].index == id);
        } else {
            if position_of(init, id) is None {
                assert forall|j: int| 0 <= j < views.len() implies (#[trigger] views[j]).index
                    != id by {
                    if j < init.len() {
                        assert(init[j] == views[j]);
                    }
                }
            } else {
                let j = choose|j: int| 0 <= j < init.len() && (#[trigger] init[j]).index == id;
                assert(views[j].index == id);
            }
        }
    }
}

/// Where every view carries its own position as identifier, an identifier
/// stands for the position it names.
pub proof fn lemma_position_is_identifier(views: Seq<NodeView>, id: usize)
    requires
        views.len() <= usize::MAX,
        forall|j: int| 0 <= j < views.len() ==> (#[trigger] views[j]).index == j,
    ensures
        position_of(views, id) == (if id < views.len() {
            Some(id)
        } else {
            None
        }),
{
    lemma_position_found(views, id);
    lemma_position_missing(views, id);
    if id < views.len() {
        assert(views[id as int].index == id);
    }
}

/// The links of a sequence of views lead to positions of that sequence.
pub proof fn lemma_links_valid(views: Seq<NodeView>)
    requires
        views.len() <= usize::MAX,
    ensures
        links_valid(links_of(views)),
{
    let links = links_of(views);
    assert forall|c: int| 0 <= c < links.len() implies (#[trigger] links[c] matches Some(p) ==> p
        < links.len()) by {
        if let Some(id) = views[c].parent {
            lemma_position_found(views, id);
        }
    }
}

/// What `linked_to` lists below `m`: each position below `m` with that link,
/// once.
pub proof fn lemma_linked_to(links: Seq<Option<usize>>, target: Option<usize>, m: nat)
    requires
        m <= usize::MAX,
    ensures
        linked_to(links, target, m).no_duplicates(),
        forall|i: int|
            0 <= i < linked_to(links, target, m).len() ==> (#[trigger] linked_to(
                links,
                target,
                m,
            )[i]) < m,
        forall|k: usize| #[trigger]
            linked_to(links, target, m).contains(k) <==> (k < m && links[k as int] == target),
    decreases m,
{
    if m > 0 {
        lemma_linked_to(links, target, (m - 1) as nat);
        let rest = linked_to(links, target, (m - 1) as nat);
        let all = linked_to(links, target, m);
        let last = (m - 1) as usize;
        assert forall|i: int| 0 <= i < all.len() implies (#[trigger] all[i]) < m by {
            if i < rest.len() {
                assert(all[i] == rest[i]);
            }
        }
        assert forall|k: usize| #[trigger]
            all.contains(k) <==> (k < m && links[k as int] == target) by {
            if all.contains(k) {
                let i = choose|i: int| 0 <= i < all.len() && all[i] == k;
                if i < rest.len() {
                    assert(rest[i] == k);
                    assert(rest.contains(k));
                }
            }
            if k < m && links[k as int] == target {
                if k == last {
                    assert(all[all.len() - 1] == k);
                } else {
                    assert(rest.contains(k));
                    let i = choose|i: int| 0 <= i < rest.len() && rest[i] == k;
                    assert(all[i] == k);
                }
            }
        }
        if links[m - 1] == target {
            assert forall|i: int, j: int| 0 <= i < all.len() && 0 <= j < all.len() && i != j
                implies all[i] != all[j] by {
                if i < rest.len() {
                    assert(all[i] == rest[i]);
                }
                if j < rest.len() {
                    assert(all[j] == rest[j]);
                }
            }
        }
    }
}

/// Children listed below `m` are positions below `m`.
pub proof fn lemma_children_below(links: Seq<Option<usize>>, p: usize, m: nat)
    requires
        m <= usize::MAX,
    ensures
        forall|i: int|
            0 <= i < children_upto(links, p, m).len() ==> (#[trigger] children_upto(links, p, m)[i])
                < m,
{
    lemma_linked_to(links, Some(p), m);
}

/// `table` holds, for each identifier that some view carries, the position that
/// the identifier stands for.
pub open spec fn table_of(table: Map<usize, usize>, views: Seq<NodeView>) -> bool {
    forall|id: usize| #[trigger]
        position_of(views, id) == (if table.contains_key(id) {
            Some(table[id])
        } else {
            None
        })
}

/// Maps each identifier to the position of the last view that carries it.
fn index_positions(views: &Vec<NodeView>) -> (table: HashMap<usize, usize>)
    ensures
        table_of(table@, views@),
{
    let mut table: HashMap<usize, usize> = HashMap::new();
    let n = views.len();
    let mut i: usize = 0;
    while i < n
        invariant
            i <= n,
            n == views@.len(),
            table_of(table@, views@.take(i as int)),
        decreases n - i,
    {
        let ghost before = table@;
        table.insert(views[i].index, i);
        proof {
            let shorter = views@.take(i as int);
            let longer = views@.take(i + 1);
            assert(longer.drop_last() =~= shorter);
            assert forall|id: usize| #[trigger]
                position_of(longer, id) == (if table@.contains_key(id) {
                    Some(table@[id])
                } else {
                    None
                }) by {
                assert(position_of(shorter, id) == (if before.contains_key(id) {
                    Some(before[id])
                } else {
                    None
                }));
            }
        }
        i = i + 1;
    }
    proof {
        assert(views@.take(n as int) =~= views@);
    }
    table
}

/// Resolves every parent identifier to a position, or reports the first view
/// whose parent is missing.
fn resolve_parents(views: &Vec<NodeView>) -> (r: Result<Vec<Option<usize>>, StructureError>)
    ensures
        match r {
            Ok(links) => links@ == links_of(views@) && forall|c: int|
                0 <= c < views@.len() ==> !dangling(views@, c),
            Err(StructureError::DanglingParent { node, parent }) => {
                &&& node < views@.len()
                &&& views@[node as int].parent == Some(parent)
                &&& dangling(views@, node as int)
                &&& forall|c: int| 0 <= c < node ==> !dangling(views@, c)
            },
            Err(StructureError::Cycle { .. }) => false,
        },
{
    let table = index_positions(views);
    let n = views.len();
    let mut links: Vec<Option<usize>> = Vec::new();
    let mut c: usize = 0;
    while c < n
        invariant
            c <= n,
            n == views@.len(),
            links@.len() == c,
            forall|j: int| 0 <= j < c ==> #[trigger] links@[j] == link_of(views@, j),
            forall|j: int| 0 <= j < c ==> !dangling(views@, j),
            table_of(table@, views@),
        decreases n - c,
    {
        match views[c].parent {
            None => {
                links.push(None);
            },
            Some(id) => {
                match table.get(&id) {
                    Some(p) => {
                        assert(position_of(views@, id) == Some(*p));
                        links.push(Some(*p));
                    },
                    None => {
                        assert(position_of(views@, id) is None);
                        return Err(StructureError::DanglingParent { node: c, parent: id });
                    },
                }
            },
        }
        c = c + 1;
    }
    assert(links@ =~= links_of(views@));
    Ok(links)
}

/// The first position from which no root is reached, if there is one.
fn find_unrooted(links: &Vec<Option<usize>>) -> (r: Option<usize>)
    requires
        links_valid(links@),
    ensures
        match r {
            Some(c) => {
                &&& c < links@.len()
                &&& !rooted(links@, c as int)
                &&& forall|j: int| 0 <= j < c ==> rooted(links@, j)
            },
            None => forall|j: int| 0 <= j < links@.len() ==> rooted(links@, j),
        },
{
    let n = links.len();
    let mut c: usize = 0;
    while c < n
        invariant
            c <= n,
            n == links@.len(),
            links_valid(links@),
            forall|j: int| 0 <= j < c ==> rooted(links@, j),
        decreases n - c,
    {
        let mut at: usize = c;
        let mut steps: usize = 0;
        let mut reached: bool = false;
        let mut lost: bool = false;
        while !reached && !lost
            invariant
                at < n,
                c < n,
                steps <= n,
                n == links@.len(),
                links_valid(links@),
                !reached && !lost ==> (rooted(links@, c as int) <==> depth_within(
                    links@,
                    at as int,
                    (n - steps) as nat,
                ) is Some),
                lost ==> !rooted(links@, c as int),
                reached ==> rooted(links@, c as int),
            decreases
                    (if reached || lost {
                        0int
                    } else {
                        n + 1 - steps
                    }),
        {
            match links[at] {
                None => {
                    reached = true;
                },
                Some(p) => {
                    if steps == n {
                        lost = true;
                    } else {
                        at = p;
                        steps = steps + 1;
                    }
                },
            }
        }
        if !reached {
            return Some(c);
        }
        c = c + 1;
    }
    None
}

/// For each position, the positions of its children, ascending.
fn group_children(links: &Vec<Option<usize>>) -> (kids: Vec<Vec<usize>>)
    requires
        links_valid(links@),
    ensures
        kids@.len() == links@.len(),
        forall|p: int|
            0 <= p < links@.len() ==> (#[trigger] kids@[p])@ == children_upto(
                links@,
                p as usize,
                links@.len(),
            ),
{
    let n = links.len();
    let mut kids: Vec<Vec<usize>> = Vec::new();
    let mut i: usize = 0;
    while i < n
        invariant
            i <= n,
            kids@.len() == i,
            forall|p: int| 0 <= p < i ==> (#[trigger] kids@[p])@ == Seq::<usize>::empty(),
        decreases n - i,
    {
        kids.push(Vec::new());
        i = i + 1;
    }
    let mut c: usize = 0;
    while c < n
        invariant
            c <= n,
            n == links@.len(),
            kids@.len() == n,
            links_valid(links@),
            forall|p: int|
                0 <= p < n ==> (#[trigger] kids@[p])@ == children_upto(links@, p as usize, c as nat),
        decreases n - c,
    {
        match links[c] {
            None => {},
            Some(p) => {
                kids[p].push(c);
            },
        }
        c = c + 1;
    }
    kids
}

/// Builds the record of the view at position `c` with the records of all that
/// hangs below it, down to `fuel` levels.
fn assemble(
    views: &Vec<NodeView>,
    links: &Vec<Option<usize>>,
    kids: &Vec<Vec<usize>>,
    c: usize,
    fuel: usize,
) -> (r: NodeRecord)
    requires
        c < views@.len(),
        links@.len() == views@.len(),
        kids@.len() == views@.len(),
        forall|p: int|
            0 <= p < links@.len() ==> (#[trigger] kids@[p])@ == children_upto(
                links@,
                p as usize,
                links@.len(),
            ),
    ensures
        r@ == subtree(views@, links@, c as int, fuel as nat),
    decreases fuel,
{
    let mut children: Vec<NodeRecord> = Vec::new();
    let n = links.len();
    if fuel > 0 {
        let row = &kids[c];
        let mut i: usize = 0;
        proof {
            lemma_children_below(links@, c, links@.len());
        }
        while i < row.len()
            invariant
                i <= row@.len(),
                fuel > 0,
                c < views@.len(),
                links@.len() == views@.len(),
                kids@.len() == views@.len(),
                row@ == children_upto(links@, c, links@.len()),
                forall|j: int| 0 <= j < row@.len() ==> (#[trigger] row@[j]) < links@.len(),
                forall|p: int|
                    0 <= p < links@.len() ==> (#[trigger] kids@[p])@ == children_upto(
                        links@,
                        p as usize,
                        links@.len(),
                    ),
                children@.len() == i,
                forall|j: int|
                    0 <= j < i ==> (#[trigger] children@[j])@ == subtree(
                        views@,
                        links@,
                        row@[j] as int,
                        (fuel - 1) as nat,
                    ),
            decreases row@.len() - i,
        {
            let child = assemble(views, links, kids, row[i], fuel - 1);
            children.push(child);
            i = i + 1;
        }
    }
    let record = NodeRecord::new(views[c].name.clone(), views[c].transform, children);
    proof {
        assert(record@.children =~= subtree(views@, links@, c as int, fuel as nat).children);
    }
    record
}

/// Rebuilds the forest that the views describe.
///
/// Fails with `DanglingParent` for the first view that names a parent which no
/// view stands for; where there is none, with `Cycle` for the first view from
/// which the parent links lead to no root. Otherwise every view becomes one
/// record: the roots in the order of their views, and below each record its
/// children in the order of theirs.
pub fn build_hierarchy(views: &Vec<NodeView>) -> (r: Result<Vec<NodeRecord>, StructureError>)
    ensures
        r is Ok <==> well_structured(views@),
        match r {
            Ok(roots) => {
                &&& forest_view(roots@) == forest_of(views@)
                &&& forest_size(forest_view(roots@)) == views@.len()
            },
            Err(e) => rejected(views@, e),
        },
{
    let links = match resolve_parents(views) {
        Ok(links) => links,
        Err(e) => {
            return Err(e);
        },
    };
    let n = views.len();
    proof {
        lemma_links_valid(views@);
    }
    match find_unrooted(&links) {
        Some(node) => {
            return Err(StructureError::Cycle { node });
        },
        None => {},
    }
    let kids = group_children(&links);
    let mut roots: Vec<NodeRecord> = Vec::new();
    let mut c: usize = 0;
    while c < n
        invariant
            c <= n,
            n == views@.len(),
            links@ == links_of(views@),
            kids@.len() == n,
            forall|p: int|
                0 <= p < links@.len() ==> (#[trigger] kids@[p])@ == children_upto(
                    links@,
                    p as usize,
                    links@.len(),
                ),
            forest_view(roots@) == subtrees(views@, links@, roots_upto(links@, c as nat), n as nat),
        decreases n - c,
    {
        if links[c].is_none() {
            let record = assemble(views, &links, &kids, c, n);
            let ghost earlier = roots@;
            roots.push(record);
            proof {
                let before = roots_upto(links@, c as nat);
                let after = roots_upto(links@, (c + 1) as nat);
                assert(after == before.push(c));
                let built = forest_view(roots@);
                let wanted = subtrees(views@, links@, after, n as nat);
                assert(forest_view(earlier).len() == before.len());
                assert forall|i: int| 0 <= i < built.len() implies built[i] == wanted[i] by {
                    if i < earlier.len() {
                        assert(built[i] == forest_view(earlier)[i]);
                        assert(after[i] == before[i]);
                    }
                }
                assert(built =~= wanted);
            }
        }
        c = c + 1;
    }
    proof {
        lemma_one_record_per_view(views@);
    }
    Ok(roots)
}

} // verus!
