//! Why a well-structured sequence of views yields one record for each view.
//!
//! The records of a forest are counted through the positions of the views they
//! were made from: listed tree by tree, every position occurs, and none twice.

use crate::hierarchy::{children_upto, dangling, depth_within, forest_of, lemma_linked_to,
    lemma_position_missing,
    lemma_links_valid, links_of, links_valid, rooted, roots_upto, subtree, subtrees,
    well_structured};
use crate::record::{forest_size, tree_size};
use crate::scene::NodeView;
use vstd::prelude::*;
use vstd::seq_lib::{lemma_no_dup_in_concat, lemma_seq_concat_contains_all_elements};

verus! {

/// Links that lead to positions of the sequence, with a root above every position.
pub open spec fn forest_links(links: Seq<Option<usize>>) -> bool {
    &&& links.len() <= usize::MAX
    &&& links_valid(links)
    &&& forall|c: int| 0 <= c < links.len() ==> rooted(links, c)
}

/// The number of links from position `c` up to its root.
pub open spec fn depth(links: Seq<Option<usize>>, c: int) -> nat {
    depth_within(links, c, links.len()).unwrap()
}

/// The position `j` links above `x`; a root is its own ancestor.
pub open spec fn ancestor(links: Seq<Option<usize>>, x: usize, j: nat) -> usize
    decreases j,
{
    if j == 0 {
        x
    } else {
        match links[x as int] {
            Some(p) => ancestor(links, p, (j - 1) as nat),
            None => x,
        }
    }
}

/// The ancestor of `x` at depth `j`.
pub open spec fn level_ancestor(links: Seq<Option<usize>>, x: usize, j: nat) -> usize {
    ancestor(links, x, (depth(links, x as int) - j) as nat)
}

/// `x` is a position whose depth lies between `j` and `j + fuel`.
pub open spec fn within(links: Seq<Option<usize>>, x: usize, j: nat, fuel: nat) -> bool {
    x < links.len() && j <= depth(links, x as int) <= j + fuel
}

/// Distinct positions, all at depth `j`.
pub open spec fn on_level(links: Seq<Option<usize>>, nodes: Seq<usize>, j: nat) -> bool {
    &&& nodes.no_duplicates()
    &&& forall|i: int|
        0 <= i < nodes.len() ==> (#[trigger] nodes[i]) < links.len() && depth(
            links,
            nodes[i] as int,
        ) == j
}

/// The positions of the tree below `c`, the root first, cut off `fuel` levels down.
pub open spec fn preorder(links: Seq<Option<usize>>, c: usize, fuel: nat) -> Seq<usize>
    decreases fuel, 0nat, 0nat,
{
    seq![c] + (if fuel == 0 {
        Seq::<usize>::empty()
    } else {
        preorder_all(links, children_upto(links, c, links.len()), (fuel - 1) as nat)
    })
}

/// The positions of the trees below `nodes`, tree by tree.
pub open spec fn preorder_all(links: Seq<Option<usize>>, nodes: Seq<usize>, fuel: nat) -> Seq<
    usize,
>
    decreases fuel, 1nat, nodes.len(),
{
    if nodes.len() == 0 {
        Seq::<usize>::empty()
    } else {
        preorder_all(links, nodes.drop_last(), fuel) + preorder(links, nodes.last(), fuel)
    }
}

/// More fuel does not change a depth that was found, and a depth found is no
/// more than the fuel it was found with.
proof fn lemma_depth_more_fuel(links: Seq<Option<usize>>, c: int, fuel: nat, more: nat)
    requires
        links_valid(links),
        0 <= c < links.len(),
        depth_within(links, c, fuel) is Some,
        fuel <= more,
    ensures
        depth_within(links, c, more) == depth_within(links, c, fuel),
        depth_within(links, c, fuel).unwrap() <= fuel,
    decreases fuel,
{
    match links[c] {
        None => {},
        Some(p) => {
            if fuel > 0 {
                lemma_depth_more_fuel(links, p as int, (fuel - 1) as nat, (more - 1) as nat);
            }
        },
    }
}

/// A position lies one level below its parent, and no deeper than there are
/// positions.
proof fn lemma_depth_step(links: Seq<Option<usize>>, c: int)
    requires
        forest_links(links),
        0 <= c < links.len(),
    ensures
        depth(links, c) <= links.len(),
        links[c] is None ==> depth(links, c) == 0,
        links[c] matches Some(p) ==> depth(links, c) == depth(links, p as int) + 1,
{
    let n = links.len();
    assert(rooted(links, c));
    lemma_depth_more_fuel(links, c, n, n);
    if let Some(p) = links[c] {
        assert(rooted(links, p as int));
        assert(depth_within(links, p as int, (n - 1) as nat) is Some);
        lemma_depth_more_fuel(links, p as int, (n - 1) as nat, n);
    }
}

/// The ancestor `j` links up, for `j` up to the depth, is a position `j` levels
/// higher.
proof fn lemma_ancestor(links: Seq<Option<usize>>, x: usize, j: nat)
    requires
        forest_links(links),
        x < links.len(),
        j <= depth(links, x as int),
    ensures
        ancestor(links, x, j) < links.len(),
        depth(links, ancestor(links, x, j) as int) == depth(links, x as int) - j,
    decreases j,
{
    if j > 0 {
        lemma_depth_step(links, x as int);
        let p = links[x as int].unwrap();
        lemma_ancestor(links, p, (j - 1) as nat);
    }
}

/// One more link up from the ancestor `j` links up is the ancestor `j + 1` links up.
proof fn lemma_ancestor_step(links: Seq<Option<usize>>, x: usize, j: nat)
    requires
        forest_links(links),
        x < links.len(),
        j < depth(links, x as int),
    ensures
        links[ancestor(links, x, j) as int] == Some(ancestor(links, x, j + 1)),
    decreases j,
{
    lemma_depth_step(links, x as int);
    let p = links[x as int].unwrap();
    if j > 0 {
        lemma_ancestor_step(links, p, (j - 1) as nat);
    } else {
        assert(ancestor(links, p, 0) == p);
        assert(ancestor(links, x, 1) == ancestor(links, p, 0));
    }
}

/// The position reached from `c` over exactly `k` links, if the walk does not
/// end at a root before.
pub open spec fn walk(links: Seq<Option<usize>>, c: usize, k: nat) -> Option<usize>
    decreases k,
{
    if k == 0 {
        Some(c)
    } else {
        match links[c as int] {
            Some(p) => walk(links, p, (k - 1) as nat),
            None => None,
        }
    }
}

/// A walk of `k` links from a position of known depth ends `k` levels higher.
proof fn lemma_walk_rises(links: Seq<Option<usize>>, c: usize, k: nat, fuel: nat)
    requires
        links_valid(links),
        c < links.len(),
        depth_within(links, c as int, fuel) is Some,
        walk(links, c, k) is Some,
    ensures
        walk(links, c, k).unwrap() < links.len(),
        k <= depth_within(links, c as int, fuel).unwrap(),
        depth_within(links, walk(links, c, k).unwrap() as int, fuel) == Some(
            (depth_within(links, c as int, fuel).unwrap() - k) as nat,
        ),
    decreases k,
{
    if k > 0 {
        let p = links[c as int].unwrap();
        lemma_depth_more_fuel(links, p as int, (fuel - 1) as nat, fuel);
        lemma_walk_rises(links, p, (k - 1) as nat, fuel);
    }
}

/// A walk that has come to a root goes no further.
proof fn lemma_walk_ends_at_root(links: Seq<Option<usize>>, c: usize, k: nat, more: nat)
    requires
        walk(links, c, k) matches Some(r) && links[r as int] is None,
        more > k,
    ensures
        walk(links, c, more) is None,
    decreases k,
{
    if k > 0 {
        let p = links[c as int].unwrap();
        lemma_walk_ends_at_root(links, p, (k - 1) as nat, (more - 1) as nat);
    }
}

/// A walk of `i + j` links is a walk of `i` links and then one of `j` links.
proof fn lemma_walk_split(links: Seq<Option<usize>>, c: usize, i: nat, j: nat)
    requires
        walk(links, c, i) is Some,
    ensures
        walk(links, c, i + j) == walk(links, walk(links, c, i).unwrap(), j),
    decreases i,
{
    if i > 0 {
        let p = links[c as int].unwrap();
        lemma_walk_split(links, p, (i - 1) as nat, j);
    }
}

/// A walk stays among the positions, and all of a walk that ends somewhere
/// is there.
proof fn lemma_walk_prefix(links: Seq<Option<usize>>, c: usize, k: nat, i: nat)
    requires
        links_valid(links),
        c < links.len(),
        walk(links, c, k) is Some,
        i <= k,
    ensures
        walk(links, c, i) matches Some(p) && p < links.len(),
    decreases i,
{
    if i > 0 {
        let p = links[c as int].unwrap();
        lemma_walk_prefix(links, p, (k - 1) as nat, (i - 1) as nat);
    }
}

/// A root reached over `k` links is found with any fuel of at least `k`.
proof fn lemma_depth_of_walk(links: Seq<Option<usize>>, c: usize, k: nat, fuel: nat)
    requires
        walk(links, c, k) matches Some(r) && links[r as int] is None,
        k <= fuel,
    ensures
        depth_within(links, c as int, fuel) == Some(k),
    decreases k,
{
    if k > 0 {
        let p = links[c as int].unwrap();
        lemma_depth_of_walk(links, p, (k - 1) as nat, (fuel - 1) as nat);
    }
}

/// A position from which the parent links lead to a root, over however many
/// links, hangs below that root: the walk comes by no position twice, so it is
/// shorter than there are positions.
pub proof fn lemma_reaching_a_root_is_rooted(links: Seq<Option<usize>>, c: usize, k: nat)
    requires
        links.len() <= usize::MAX,
        links_valid(links),
        c < links.len(),
        walk(links, c, k) matches Some(r) && links[r as int] is None,
    ensures
        k < links.len(),
        rooted(links, c as int),
        depth_within(links, c as int, links.len()) == Some(k),
{
    let n = links.len();
    let path = Seq::new(k + 1, |i: int| walk(links, c, i as nat).unwrap());
    assert forall|i: int| 0 <= i < path.len() implies (#[trigger] path[i]) < n by {
        lemma_walk_prefix(links, c, k, i as nat);
    }
    assert forall|i: int, j: int| 0 <= i < path.len() && 0 <= j < path.len() && i
        != j implies path[i] != path[j] by {
        let (a, b) = if i < j {
            (i as nat, j as nat)
        } else {
            (j as nat, i as nat)
        };
        lemma_walk_prefix(links, c, k, a);
        lemma_walk_prefix(links, c, k, b);
        if path[i] == path[j] {
            let at = walk(links, c, a).unwrap();
            lemma_walk_split(links, c, a, (k - a) as nat);
            lemma_walk_split(links, c, b, (k - b) as nat);
            lemma_walk_ends_at_root(links, at, (k - b) as nat, (k - a) as nat);
        }
    }
    assert(path.no_duplicates());
    path.unique_seq_to_set();
    lemma_count_below(n);
    let below = Set::new(|x: usize| x < n);
    assert(path.to_set().subset_of(below)) by {
        assert forall|x: usize| path.to_set().contains(x) implies below.contains(x) by {
            let i = choose|i: int| 0 <= i < path.len() && path[i] == x;
            assert(path[i] < n);
        }
    }
    vstd::set_lib::lemma_len_subset(path.to_set(), below);
    lemma_depth_of_walk(links, c, k, n);
}

/// From a position that hangs below a root, the parent links lead to that
/// root, over as many links as the position is deep.
pub proof fn lemma_rooted_reaches_a_root(links: Seq<Option<usize>>, c: usize, fuel: nat)
    requires
        links_valid(links),
        c < links.len(),
        depth_within(links, c as int, fuel) is Some,
    ensures
        walk(links, c, depth_within(links, c as int, fuel).unwrap()) matches Some(r) && r
            < links.len() && links[r as int] is None,
    decreases fuel,
{
    if let Some(p) = links[c as int] {
        lemma_rooted_reaches_a_root(links, p, (fuel - 1) as nat);
    }
}

/// A position that the parent links lead back to hangs below no root.
pub proof fn lemma_cycle_unrooted(links: Seq<Option<usize>>, c: usize, k: nat)
    requires
        links_valid(links),
        c < links.len(),
        k >= 1,
        walk(links, c, k) == Some(c),
    ensures
        !rooted(links, c as int),
{
    if rooted(links, c as int) {
        lemma_walk_rises(links, c, k, links.len());
    }
}

/// Views among which the parent links lead from some view back to itself are
/// not well structured.
pub proof fn lemma_cycle_rejected(views: Seq<NodeView>, c: usize, k: nat)
    requires
        views.len() <= usize::MAX,
        c < views.len(),
        k >= 1,
        walk(links_of(views), c, k) == Some(c),
    ensures
        !well_structured(views),
{
    lemma_links_valid(views);
    lemma_cycle_unrooted(links_of(views), c, k);
}

/// Views of which one names a parent identifier that no view carries are not
/// well structured.
pub proof fn lemma_dangling_rejected(views: Seq<NodeView>, c: int, id: usize)
    requires
        0 <= c < views.len(),
        views[c].parent == Some(id),
        forall|j: int| 0 <= j < views.len() ==> (#[trigger] views[j]).index != id,
    ensures
        !well_structured(views),
{
    lemma_position_missing(views, id);
    assert(dangling(views, c));
}

/// A tree has as many nodes as its list of positions is long.
proof fn lemma_tree_size(views: Seq<NodeView>, links: Seq<Option<usize>>, c: usize, fuel: nat)
    ensures
        tree_size(subtree(views, links, c as int, fuel)) == preorder(links, c, fuel).len(),
    decreases fuel, 0nat, 0nat,
{
    if fuel > 0 {
        lemma_forest_size(
            views,
            links,
            children_upto(links, c, links.len()),
            (fuel - 1) as nat,
        );
    } else {
        assert(forest_size(Seq::empty()) == 0);
    }
}

/// A forest has as many nodes as its list of positions is long.
proof fn lemma_forest_size(
    views: Seq<NodeView>,
    links: Seq<Option<usize>>,
    nodes: Seq<usize>,
    fuel: nat,
)
    ensures
        forest_size(subtrees(views, links, nodes, fuel)) == preorder_all(links, nodes, fuel).len(),
    decreases fuel, 1nat, nodes.len(),
{
    let trees = subtrees(views, links, nodes, fuel);
    if nodes.len() > 0 {
        lemma_forest_size(views, links, nodes.drop_last(), fuel);
        lemma_tree_size(views, links, nodes.last(), fuel);
        assert(trees.drop_last() =~= subtrees(views, links, nodes.drop_last(), fuel));
        assert(trees.last() == subtree(views, links, nodes.last() as int, fuel));
    }
}

/// The children of a position are distinct positions one level below it.
proof fn lemma_children_level(links: Seq<Option<usize>>, c: usize)
    requires
        forest_links(links),
        c < links.len(),
    ensures
        on_level(
            links,
            children_upto(links, c, links.len()),
            depth(links, c as int) + 1,
        ),
{
    let kids = children_upto(links, c, links.len());
    lemma_linked_to(links, Some(c), links.len());
    assert forall|i: int| 0 <= i < kids.len() implies (#[trigger] kids[i]) < links.len() && depth(
        links,
        kids[i] as int,
    ) == depth(links, c as int) + 1 by {
        assert(kids.contains(kids[i]));
        lemma_depth_step(links, kids[i] as int);
    }
}

/// The list of a tree holds no position twice, and holds exactly the positions
/// no more than `fuel` levels below `c` whose ancestor at the level of `c` is `c`.
proof fn lemma_preorder(links: Seq<Option<usize>>, c: usize, fuel: nat)
    requires
        forest_links(links),
        c < links.len(),
    ensures
        preorder(links, c, fuel).no_duplicates(),
        forall|x: usize| #[trigger]
            preorder(links, c, fuel).contains(x) <==> (within(
                links,
                x,
                depth(links, c as int),
                fuel,
            ) && level_ancestor(links, x, depth(links, c as int)) == c),
    decreases fuel, 0nat, 0nat,
{
    let level = depth(links, c as int);
    let list = preorder(links, c, fuel);
    let kids = children_upto(links, c, links.len());
    let rest = if fuel == 0 {
        Seq::<usize>::empty()
    } else {
        preorder_all(links, kids, (fuel - 1) as nat)
    };
    lemma_linked_to(links, Some(c), links.len());
    if fuel > 0 {
        lemma_children_level(links, c);
        lemma_preorder_all(links, kids, level + 1, (fuel - 1) as nat);
    }
    assert forall|x: usize| #[trigger]
        list.contains(x) <==> (within(links, x, level, fuel) && level_ancestor(links, x, level)
            == c) by {
        lemma_seq_concat_contains_all_elements(seq![c], rest, x);
        assert(seq![c].contains(x) <==> x == c) by {
            if x == c {
                assert(seq![c][0] == x);
            }
        }
        if x < links.len() {
            let deep = depth(links, x as int);
            if deep > level {
                let up = (deep - level - 1) as nat;
                lemma_ancestor(links, x, up);
                lemma_ancestor_step(links, x, up);
                assert(level_ancestor(links, x, level + 1) == ancestor(links, x, up));
                assert(level_ancestor(links, x, level) == ancestor(links, x, up + 1));
            }
        }
    }
    assert forall|i: int, j: int| 0 <= i < seq![c].len() && 0 <= j < rest.len() implies seq![c][i]
        != rest[j] by {
        if rest[j] == c {
            assert(rest.contains(c));
        }
    }
    lemma_no_dup_in_concat(seq![c], rest);
}

/// The list of a forest whose roots are distinct positions at depth `j` holds
/// no position twice, and holds exactly the positions no more than `fuel`
/// levels below depth `j` whose ancestor at depth `j` is one of the roots.
proof fn lemma_preorder_all(links: Seq<Option<usize>>, nodes: Seq<usize>, j: nat, fuel: nat)
    requires
        forest_links(links),
        on_level(links, nodes, j),
    ensures
        preorder_all(links, nodes, fuel).no_duplicates(),
        forall|x: usize| #[trigger]
            preorder_all(links, nodes, fuel).contains(x) <==> (within(links, x, j, fuel)
                && nodes.contains(level_ancestor(links, x, j))),
    decreases fuel, 1nat, nodes.len(),
{
    let list = preorder_all(links, nodes, fuel);
    if nodes.len() > 0 {
        let init = nodes.drop_last();
        let last = nodes.last();
        let front = preorder_all(links, init, fuel);
        let back = preorder(links, last, fuel);
        assert(on_level(links, init, j)) by {
            assert forall|i: int| 0 <= i < init.len() implies (#[trigger] init[i]) < links.len()
                && depth(links, init[i] as int) == j by {
                assert(init[i] == nodes[i]);
            }
            assert forall|a: int, b: int| 0 <= a < init.len() && 0 <= b < init.len() && a
                != b implies init[a] != init[b] by {
                assert(init[a] == nodes[a] && init[b] == nodes[b]);
            }
        }
        assert(nodes[nodes.len() - 1] == last);
        lemma_preorder_all(links, init, j, fuel);
        lemma_preorder(links, last, fuel);
        assert(!init.contains(last)) by {
            if init.contains(last) {
                let i = choose|i: int| 0 <= i < init.len() && init[i] == last;
                assert(nodes[i] == nodes[nodes.len() - 1]);
            }
        }
        assert forall|y: usize| nodes.contains(y) <==> (init.contains(y) || y == last) by {
            if nodes.contains(y) {
                let i = choose|i: int| 0 <= i < nodes.len() && nodes[i] == y;
                if i < init.len() {
                    assert(init[i] == y);
                }
            }
            if init.contains(y) {
                let i = choose|i: int| 0 <= i < init.len() && init[i] == y;
                assert(nodes[i] == y);
            }
        }
        assert forall|x: usize| #[trigger]
            list.contains(x) <==> (within(links, x, j, fuel) && nodes.contains(
                level_ancestor(links, x, j),
            )) by {
            lemma_seq_concat_contains_all_elements(front, back, x);
        }
        assert forall|a: int, b: int| 0 <= a < front.len() && 0 <= b < back.len() implies front[a]
            != back[b] by {
            if front[a] == back[b] {
                assert(front.contains(back[b]));
                assert(back.contains(back[b]));
            }
        }
        lemma_no_dup_in_concat(front, back);
    } else {
        assert forall|x: usize| #[trigger]
            list.contains(x) <==> (within(links, x, j, fuel) && nodes.contains(
                level_ancestor(links, x, j),
            )) by {}
    }
}

/// There are `n` machine integers below `n`.
proof fn lemma_count_below(n: nat)
    requires
        n <= usize::MAX,
    ensures
        Set::new(|x: usize| x < n).finite(),
        Set::new(|x: usize| x < n).len() == n,
    decreases n,
{
    let all = Set::new(|x: usize| x < n);
    if n == 0 {
        assert(all =~= Set::<usize>::empty());
    } else {
        lemma_count_below((n - 1) as nat);
        let fewer = Set::new(|x: usize| x < n - 1);
        assert(all =~= fewer.insert((n - 1) as usize));
    }
}

/// The forest of a well-structured sequence of views has exactly one node for
/// each view: none is lost and none occurs twice.
pub proof fn lemma_one_record_per_view(views: Seq<NodeView>)
    requires
        views.len() <= usize::MAX,
        well_structured(views),
    ensures
        forest_size(forest_of(views)) == views.len(),
{
    let n = views.len();
    let links = links_of(views);
    lemma_links_valid(views);
    assert(forest_links(links));
    let roots = roots_upto(links, n);
    lemma_linked_to(links, None, n);
    assert(on_level(links, roots, 0)) by {
        assert forall|i: int| 0 <= i < roots.len() implies (#[trigger] roots[i]) < links.len()
            && depth(links, roots[i] as int) == 0 by {
            assert(roots.contains(roots[i]));
            lemma_depth_step(links, roots[i] as int);
        }
    }
    lemma_preorder_all(links, roots, 0, n);
    let list = preorder_all(links, roots, n);
    assert forall|x: usize| list.contains(x) <==> x < n by {
        if x < n {
            lemma_depth_step(links, x as int);
            lemma_ancestor(links, x, depth(links, x as int));
            let top = level_ancestor(links, x, 0);
            lemma_depth_step(links, top as int);
            assert(roots.contains(top));
        }
    }
    assert(list.to_set() =~= Set::new(|x: usize| x < n));
    list.unique_seq_to_set();
    lemma_count_below(n);
    lemma_forest_size(views, links, roots, n);
}

} // verus!
