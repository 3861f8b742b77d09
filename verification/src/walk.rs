use crate::components::{Pointer, PosNode, Route, Towards};
use crate::tree::{
    degree, edge_ok, edge_route, is_path, linked, planar_dir, pointer_count, points_to, reach,
    spanning, tree_adj, tree_wf, walk_from,
};
use vstd::prelude::*;

verus! {

/// Labels that root a tree at its first node: for every node the direction of its pointer
/// towards the first node (none for the first node itself, and for a node not labelled yet),
/// and the number of pointers from the first node to it.
pub struct Labels {
    pub up: Seq<Option<Towards>>,
    pub depth: Seq<int>,
}

/// Node `i` has its labels.
pub open spec fn labelled(l: Labels, i: int) -> bool {
    i == 0 || l.up[i] is Some
}

/// The labels of node `i` fit: the first node has depth zero and no direction; any other
/// labelled node points, in its direction, at a labelled node one less deep.
pub open spec fn label_ok(nodes: Seq<PosNode>, l: Labels, i: int) -> bool {
    &&& 0 <= l.depth[i]
    &&& i == 0 ==> l.up[i] is None && l.depth[i] == 0
    &&& l.up[i] matches Some(t) ==> {
        &&& i != 0
        &&& t.planar()
        &&& nodes[i].slot(t) is Some
        &&& 0 <= nodes[i].slot(t)->0.index < nodes.len()
        &&& labelled(l, nodes[i].slot(t)->0.index as int)
        &&& l.depth[nodes[i].slot(t)->0.index as int] == l.depth[i] - 1
    }
}

/// The labels of all nodes fit.
pub open spec fn labels_ok(nodes: Seq<PosNode>, l: Labels) -> bool {
    &&& l.up.len() == nodes.len()
    &&& l.depth.len() == nodes.len()
    &&& forall|i: int| 0 <= i < nodes.len() ==> #[trigger] label_ok(nodes, l, i)
}

/// The pointer of node `i` in direction `t` is there and belongs to the rooted tree: it leads
/// towards the first node, or the node it names leads back through it.
pub open spec fn tree_slot(nodes: Seq<PosNode>, l: Labels, i: int, t: Towards) -> bool {
    &&& nodes[i].slot(t) is Some
    &&& nodes[i].slot(t)->0.index < nodes.len()
    &&& (l.up[i] == Some(t) || l.up[nodes[i].slot(t)->0.index as int] == Some(t.opposite()))
}

/// One for a truth.
pub open spec fn one_if(b: bool) -> nat {
    if b {
        1
    } else {
        0
    }
}

/// The number of pointers of node `i` that belong to the rooted tree.
pub open spec fn tree_degree(nodes: Seq<PosNode>, l: Labels, i: int) -> nat {
    one_if(tree_slot(nodes, l, i, Towards::Up)) + one_if(tree_slot(nodes, l, i, Towards::Down))
        + one_if(tree_slot(nodes, l, i, Towards::Left)) + one_if(
        tree_slot(nodes, l, i, Towards::Right),
    )
}

/// The number of pointers of the first `k` nodes that belong to the rooted tree.
pub open spec fn tree_slots(nodes: Seq<PosNode>, l: Labels, k: int) -> nat
    decreases k,
{
    if k <= 0 {
        0
    } else {
        tree_slots(nodes, l, k - 1) + tree_degree(nodes, l, k - 1)
    }
}

/// The number of labelled nodes among the first `k`.
pub open spec fn labelled_count(l: Labels, k: int) -> nat
    decreases k,
{
    if k <= 0 {
        0
    } else {
        labelled_count(l, k - 1) + one_if(labelled(l, k - 1))
    }
}

/// A pointer leads from the labelled node `i` in direction `t` to a node without labels.
pub open spec fn leaving(nodes: Seq<PosNode>, l: Labels, i: int, t: Towards) -> bool {
    &&& 0 <= i < nodes.len()
    &&& labelled(l, i)
    &&& t.planar()
    &&& nodes[i].slot(t) is Some
    &&& !labelled(l, nodes[i].slot(t)->0.index as int)
}

/// What holds while the labels grow: they fit, every labelled node is less deep than there
/// are labelled nodes, and the rooted tree holds two pointers for every labelled node but
/// the first.
pub open spec fn growing(nodes: Seq<PosNode>, l: Labels) -> bool {
    &&& labels_ok(nodes, l)
    &&& forall|i: int|
        0 <= i < nodes.len() && labelled(l, i) ==> #[trigger] l.depth[i] < labelled_count(
            l,
            nodes.len() as int,
        )
    &&& tree_slots(nodes, l, nodes.len() as int) + 2 == 2 * labelled_count(l, nodes.len() as int)
}

/// No more than `k` of the first `k` nodes are labelled.
pub proof fn lemma_labelled_count_bound(l: Labels, k: int)
    requires
        0 <= k,
    ensures
        labelled_count(l, k) <= k,
    decreases k,
{
    if k > 0 {
        lemma_labelled_count_bound(l, k - 1);
    }
}

/// Where all of the first `k` nodes are labelled, `k` are.
pub proof fn lemma_labelled_count_full(l: Labels, k: int)
    requires
        0 <= k,
        forall|i: int| 0 <= i < k ==> labelled(l, i),
    ensures
        labelled_count(l, k) == k,
    decreases k,
{
    if k > 0 {
        lemma_labelled_count_full(l, k - 1);
    }
}

/// Labelling one more node raises the count of labelled nodes by one.
pub proof fn lemma_labelled_count_grows(a: Labels, b: Labels, k: int, j: int)
    requires
        0 <= k,
        0 <= j,
        !labelled(a, j),
        labelled(b, j),
        forall|i: int| 0 <= i < k && i != j ==> labelled(a, i) == labelled(b, i),
    ensures
        labelled_count(b, k) == labelled_count(a, k) + one_if(j < k),
    decreases k,
{
    if k > 0 {
        lemma_labelled_count_grows(a, b, k - 1, j);
    }
}

/// Labels under which two nodes gain one tree pointer each, and no other node gains or loses
/// any, hold two tree pointers more.
pub proof fn lemma_tree_slots_grow(nodes: Seq<PosNode>, a: Labels, b: Labels, k: int, i: int, j: int)
    requires
        0 <= k <= nodes.len(),
        0 <= i < nodes.len(),
        0 <= j < nodes.len(),
        i != j,
        tree_degree(nodes, b, i) == tree_degree(nodes, a, i) + 1,
        tree_degree(nodes, b, j) == tree_degree(nodes, a, j) + 1,
        forall|x: int|
            0 <= x < nodes.len() && x != i && x != j ==> tree_degree(nodes, b, x) == tree_degree(
                nodes,
                a,
                x,
            ),
    ensures
        tree_slots(nodes, b, k) == tree_slots(nodes, a, k) + one_if(i < k) + one_if(j < k),
    decreases k,
{
    if k > 0 {
        lemma_tree_slots_grow(nodes, a, b, k - 1, i, j);
    }
}

/// Where no node has more tree pointers than pointers and the sums agree, every node has as
/// many of the one as of the other.
pub proof fn lemma_all_pointers_in_tree(nodes: Seq<PosNode>, l: Labels, k: int, i: int)
    requires
        0 <= i < k <= nodes.len(),
        tree_slots(nodes, l, k) >= pointer_count(nodes, k),
    ensures
        tree_degree(nodes, l, i) == degree(nodes[i]),
    decreases k,
{
    lemma_tree_slots_bound(nodes, l, k - 1);
    assert(tree_degree(nodes, l, k - 1) <= degree(nodes[k - 1]));
    if i < k - 1 {
        lemma_all_pointers_in_tree(nodes, l, k - 1, i);
    }
}

/// The rooted tree holds no more pointers than there are.
pub proof fn lemma_tree_slots_bound(nodes: Seq<PosNode>, l: Labels, k: int)
    requires
        0 <= k <= nodes.len(),
    ensures
        tree_slots(nodes, l, k) <= pointer_count(nodes, k),
    decreases k,
{
    if k > 0 {
        lemma_tree_slots_bound(nodes, l, k - 1);
        assert(tree_degree(nodes, l, k - 1) <= degree(nodes[k - 1]));
    }
}

/// The labels after the node at the end of a leaving pointer has been labelled.
pub open spec fn grown(nodes: Seq<PosNode>, l: Labels, i: int, t: Towards) -> Labels {
    let j = nodes[i].slot(t)->0.index as int;
    Labels { up: l.up.update(j, Some(t.opposite())), depth: l.depth.update(j, l.depth[i] + 1) }
}

/// Labelling the node at the end of a leaving pointer keeps what holds while the labels grow.
pub proof fn lemma_grow_step(nodes: Seq<PosNode>, l: Labels, i: int, t: Towards)
    requires
        tree_wf(nodes),
        nodes.len() <= usize::MAX,
        growing(nodes, l),
        leaving(nodes, l, i, t),
    ensures
        growing(nodes, grown(nodes, l, i, t)),
        labelled_count(grown(nodes, l, i, t), nodes.len() as int) == labelled_count(
            l,
            nodes.len() as int,
        ) + 1,
{
    let n = nodes.len() as int;
    let j = nodes[i].slot(t)->0.index as int;
    let h = nodes[i].slot(t)->0.height;
    let g = grown(nodes, l, i, t);
    t.lemma_opposite();
    assert(edge_ok(nodes, i, t));
    assert(nodes[j].slot(t.opposite()) == Some(Pointer { index: i as usize, height: h }));
    assert(i != j);
    assert(j != 0);
    assert(label_ok(nodes, l, i));
    assert(label_ok(nodes, l, j));
    // the labels still fit
    assert forall|k: int| 0 <= k < n implies #[trigger] label_ok(nodes, g, k) by {
        assert(label_ok(nodes, l, k));
        if k != j {
            assert(g.up[k] == l.up[k]);
            if l.up[k] is Some {
                let q = nodes[k].slot(l.up[k]->0)->0.index as int;
                assert(labelled(l, q));
                assert(q != j);
            }
        }
    }
    lemma_labelled_count_grows(l, g, n, j);
    assert forall|k: int| 0 <= k < n && labelled(g, k) implies #[trigger] g.depth[k]
        < labelled_count(g, n) by {
        if k != j {
            assert(labelled(l, k));
            assert(l.depth[k] < labelled_count(l, n));
        } else {
            assert(l.depth[i] < labelled_count(l, n));
        }
    }
    // the tree pointers: one more at either end, none elsewhere
    assert(l.up[i] != Some(t)) by {
        if l.up[i] == Some(t) {
            assert(labelled(l, j));
        }
    }
    assert forall|x: int, s: Towards|
        0 <= x < n && s.planar() && !(x == i && s == t) && !(x == j && s == t.opposite()) implies tree_slot(
        nodes,
        g,
        x,
        s,
    ) == tree_slot(nodes, l, x, s) by {
        s.lemma_opposite();
        if nodes[x].slot(s) is Some {
            assert(edge_ok(nodes, x, s));
            assert(label_ok(nodes, l, x));
            let q = nodes[x].slot(s)->0.index as int;
            assert(label_ok(nodes, l, q));
            assert(edge_ok(nodes, q, s.opposite()));
            if q == j {
                // the pointer back from `j` leads to `x`; so `x` is `i` when `s` is `t`
                if s == t {
                    assert(nodes[j].slot(t.opposite())->0.index == x);
                } else {
                    assert(l.up[j] is None);
                }
            }
            if x == j {
                assert(g.up[j] == Some(t.opposite()));
                assert(s != t.opposite());
                // a node whose pointer towards the first node names `j` would make `j` labelled
                if l.up[q] == Some(s.opposite()) {
                    assert(nodes[q].slot(s.opposite())->0.index == j);
                    assert(labelled(l, j));
                }
            }
        }
    }
    assert(tree_slot(nodes, g, i, t));
    assert(!tree_slot(nodes, l, i, t));
    assert(tree_slot(nodes, g, j, t.opposite()));
    assert(!tree_slot(nodes, l, j, t.opposite())) by {
        if l.up[i] == Some(t.opposite().opposite()) {
            assert(false);
        }
    }
    assert forall|x: int| 0 <= x < n && x != i && x != j implies tree_degree(nodes, g, x)
        == tree_degree(nodes, l, x) by {
        assert(tree_slot(nodes, g, x, Towards::Up) == tree_slot(nodes, l, x, Towards::Up));
        assert(tree_slot(nodes, g, x, Towards::Down) == tree_slot(nodes, l, x, Towards::Down));
        assert(tree_slot(nodes, g, x, Towards::Left) == tree_slot(nodes, l, x, Towards::Left));
        assert(tree_slot(nodes, g, x, Towards::Right) == tree_slot(nodes, l, x, Towards::Right));
    }
    assert(tree_degree(nodes, g, i) == tree_degree(nodes, l, i) + 1) by {
        assert(t != Towards::Up ==> tree_slot(nodes, g, i, Towards::Up) == tree_slot(
            nodes,
            l,
            i,
            Towards::Up,
        ));
        assert(t != Towards::Down ==> tree_slot(nodes, g, i, Towards::Down) == tree_slot(
            nodes,
            l,
            i,
            Towards::Down,
        ));
        assert(t != Towards::Left ==> tree_slot(nodes, g, i, Towards::Left) == tree_slot(
            nodes,
            l,
            i,
            Towards::Left,
        ));
        assert(t != Towards::Right ==> tree_slot(nodes, g, i, Towards::Right) == tree_slot(
            nodes,
            l,
            i,
            Towards::Right,
        ));
    }
    assert(tree_degree(nodes, g, j) == tree_degree(nodes, l, j) + 1) by {
        let b = t.opposite();
        assert(b != Towards::Up ==> tree_slot(nodes, g, j, Towards::Up) == tree_slot(
            nodes,
            l,
            j,
            Towards::Up,
        ));
        assert(b != Towards::Down ==> tree_slot(nodes, g, j, Towards::Down) == tree_slot(
            nodes,
            l,
            j,
            Towards::Down,
        ));
        assert(b != Towards::Left ==> tree_slot(nodes, g, j, Towards::Left) == tree_slot(
            nodes,
            l,
            j,
            Towards::Left,
        ));
        assert(b != Towards::Right ==> tree_slot(nodes, g, j, Towards::Right) == tree_slot(
            nodes,
            l,
            j,
            Towards::Right,
        ));
    }
    lemma_tree_slots_grow(nodes, l, g, n, i, j);
}

/// Where no pointer leaves the labelled nodes, every node on a path from a labelled node is
/// labelled.
pub proof fn lemma_closed(nodes: Seq<PosNode>, l: Labels, path: Seq<int>, k: int)
    requires
        forall|i: int, t: Towards| !#[trigger] leaving(nodes, l, i, t),
        path.len() > 0,
        path[0] == 0,
        forall|i: int| 0 <= i < path.len() - 1 ==> tree_adj(nodes)(#[trigger] path[i], path[i + 1]),
        0 <= k < path.len(),
    ensures
        labelled(l, path[k]),
    decreases k,
{
    if k > 0 {
        lemma_closed(nodes, l, path, k - 1);
        let c = path[k - 1];
        let b = path[k];
        assert(tree_adj(nodes)(path[k - 1], path[k - 1 + 1]));
        assert(linked(nodes, c, b));
        let t = if points_to(nodes[c].up, b) {
            Towards::Up
        } else if points_to(nodes[c].down, b) {
            Towards::Down
        } else if points_to(nodes[c].left, b) {
            Towards::Left
        } else {
            Towards::Right
        };
        assert(!leaving(nodes, l, c, t));
    }
}

/// Labels every node that pointers join to the labelled ones.
pub proof fn lemma_grow(nodes: Seq<PosNode>, l: Labels) -> (full: Labels)
    requires
        tree_wf(nodes),
        spanning(nodes),
        nodes.len() <= usize::MAX,
        growing(nodes, l),
    ensures
        growing(nodes, full),
        forall|i: int| 0 <= i < nodes.len() ==> labelled(full, i),
    decreases nodes.len() - labelled_count(l, nodes.len() as int),
{
    let n = nodes.len() as int;
    lemma_labelled_count_bound(l, n);
    if exists|i: int, t: Towards| #[trigger] leaving(nodes, l, i, t) {
        let (i, t) = choose|i: int, t: Towards| #[trigger] leaving(nodes, l, i, t);
        lemma_grow_step(nodes, l, i, t);
        lemma_labelled_count_bound(grown(nodes, l, i, t), n);
        lemma_grow(nodes, grown(nodes, l, i, t))
    } else {
        assert forall|i: int| 0 <= i < n implies labelled(l, i) by {
            assert(reach(tree_adj(nodes), 0, i));
            let path = choose|path: Seq<int>| is_path(tree_adj(nodes), path, 0, i);
            lemma_closed(nodes, l, path, path.len() - 1);
        }
        l
    }
}

/// What holds of labels that root a spanning tree: they fit, every node has them, no node is
/// as deep as there are nodes, and every pointer belongs to the rooted tree.
pub open spec fn rooted(nodes: Seq<PosNode>, l: Labels) -> bool {
    &&& labels_ok(nodes, l)
    &&& forall|i: int| 0 <= i < nodes.len() ==> labelled(l, i)
    &&& forall|i: int| 0 <= i < nodes.len() ==> #[trigger] l.depth[i] < nodes.len()
    &&& forall|i: int, t: Towards|
        0 <= i < nodes.len() && t.planar() && nodes[i].slot(t) is Some ==> #[trigger] tree_slot(
            nodes,
            l,
            i,
            t,
        )
}

/// A spanning tree can be rooted at its first node: there are labels under which every
/// pointer either leads towards the first node or is the partner of one that does. So the
/// pointers hold no cycle.
pub proof fn lemma_rooted(nodes: Seq<PosNode>) -> (l: Labels)
    requires
        tree_wf(nodes),
        spanning(nodes),
        nodes.len() <= usize::MAX,
    ensures
        rooted(nodes, l),
{
    let n = nodes.len() as int;
    let start = Labels { up: Seq::new(nodes.len(), |i: int| None), depth: Seq::new(nodes.len(), |i: int| 0int) };
    assert forall|i: int| 0 <= i < n implies #[trigger] label_ok(nodes, start, i) by {}
    assert forall|i: int| 0 <= i < n implies tree_degree(nodes, start, i) == 0 by {}
    lemma_start(nodes, start, n);
    assert(growing(nodes, start));
    let l = lemma_grow(nodes, start);
    lemma_labelled_count_full(l, n);
    assert forall|i: int, t: Towards|
        0 <= i < n && t.planar() && nodes[i].slot(t) is Some implies #[trigger] tree_slot(
        nodes,
        l,
        i,
        t,
    ) by {
        lemma_all_pointers_in_tree(nodes, l, n, i);
        assert(tree_slot(nodes, l, i, Towards::Up) ==> nodes[i].up is Some);
        assert(tree_slot(nodes, l, i, Towards::Down) ==> nodes[i].down is Some);
        assert(tree_slot(nodes, l, i, Towards::Left) ==> nodes[i].left is Some);
        assert(tree_slot(nodes, l, i, Towards::Right) ==> nodes[i].right is Some);
    }
    l
}

/// Under labels that label the first node only, one node is labelled and the rooted tree is
/// empty.
pub proof fn lemma_start(nodes: Seq<PosNode>, l: Labels, k: int)
    requires
        0 <= k <= nodes.len(),
        l.up.len() == nodes.len(),
        forall|i: int| 0 <= i < nodes.len() ==> l.up[i] is None,
    ensures
        tree_slots(nodes, l, k) == 0,
        labelled_count(l, k) == one_if(k > 0),
    decreases k,
{
    if k > 0 {
        lemma_start(nodes, l, k - 1);
        assert(tree_degree(nodes, l, k - 1) == 0);
    }
}

/// The direction in which the walk reaches node `i`: the opposite of the node's direction
/// towards the first node.
pub open spec fn arrival(l: Labels, i: int) -> Option<Towards> {
    match l.up[i] {
        Some(t) => Some(t.opposite()),
        None => None,
    }
}

/// The routes that the walk from the first node writes from node `i` on.
pub open spec fn walk_at(nodes: Seq<PosNode>, l: Labels, i: int) -> Seq<Route<usize>> {
    walk_from(nodes, i, arrival(l, i), (nodes.len() - l.depth[i]) as nat, 0)
}

/// The place of a planar direction in the order of the walk.
pub open spec fn dir_index(t: Towards) -> int {
    match t {
        Towards::Up => 0,
        Towards::Down => 1,
        Towards::Left => 2,
        _ => 3,
    }
}

/// What the walk writes for the later directions of a node, it writes for the node.
pub proof fn lemma_walk_later(
    nodes: Seq<PosNode>,
    at: int,
    from: Option<Towards>,
    depth: nat,
    d: int,
    r: Route<usize>,
)
    requires
        0 <= d < 4,
        walk_from(nodes, at, from, depth, d + 1).contains(r),
    ensures
        walk_from(nodes, at, from, depth, d).contains(r),
{
    let rest = walk_from(nodes, at, from, depth, d + 1);
    let whole = walk_from(nodes, at, from, depth, d);
    let k = choose|k: int| 0 <= k < rest.len() && rest[k] == r;
    if !(0 <= at < nodes.len()) {
        assert(rest.len() == 0);
    } else {
        let t = planar_dir(d);
        let slot = nodes[at].slot(t);
        if slot is Some && from != Some(t.opposite()) && slot->0.index < nodes.len() && depth > 0 {
            let below = walk_from(nodes, slot->0.index as int, Some(t), (depth - 1) as nat, 0);
            assert(whole == seq![edge_route(nodes, at, slot->0)] + below + rest);
            assert(whole[1 + below.len() + k] == r);
        } else {
            assert(whole == rest);
        }
    }
}

/// The walk from a node writes the route along each of its pointers that lead away from the
/// first node, and all that the walk writes from the node at the end of such a pointer.
pub proof fn lemma_walk_child(nodes: Seq<PosNode>, l: Labels, i: int, t: Towards, d: int)
    requires
        tree_wf(nodes),
        nodes.len() <= usize::MAX,
        rooted(nodes, l),
        0 <= i < nodes.len(),
        t.planar(),
        nodes[i].slot(t) is Some,
        l.up[i] != Some(t),
        0 <= d <= dir_index(t),
    ensures
        walk_from(nodes, i, arrival(l, i), (nodes.len() - l.depth[i]) as nat, d).contains(
            edge_route(nodes, i, nodes[i].slot(t)->0),
        ),
        forall|r: Route<usize>|
            walk_at(nodes, l, nodes[i].slot(t)->0.index as int).contains(r) ==> #[trigger] walk_from(
                nodes,
                i,
                arrival(l, i),
                (nodes.len() - l.depth[i]) as nat,
                d,
            ).contains(r),
    decreases dir_index(t) - d,
{
    let n = nodes.len() as int;
    let from = arrival(l, i);
    let budget = (n - l.depth[i]) as nat;
    let p = nodes[i].slot(t)->0;
    let c = p.index as int;
    let whole = walk_from(nodes, i, from, budget, d);
    t.lemma_opposite();
    assert(edge_ok(nodes, i, t));
    assert(tree_slot(nodes, l, i, t));
    assert(label_ok(nodes, l, i));
    assert(label_ok(nodes, l, c));
    assert(l.depth[i] < n);
    if d == dir_index(t) {
        assert(planar_dir(d) == t);
        assert(l.up[c] == Some(t.opposite()));
        assert(nodes[c].slot(t.opposite())->0.index == i);
        assert(l.depth[c] == l.depth[i] + 1);
        assert(from != Some(t.opposite())) by {
            if l.up[i] is Some {
                l.up[i]->0.lemma_opposite();
                if l.up[i]->0.opposite() == t.opposite() {
                    assert(l.up[i]->0.opposite().opposite() == t.opposite().opposite());
                }
            }
        }
        let below = walk_from(nodes, c, Some(t), (budget - 1) as nat, 0);
        let rest = walk_from(nodes, i, from, budget, d + 1);
        assert(arrival(l, c) == Some(t));
        assert(below == walk_at(nodes, l, c));
        assert(whole == seq![edge_route(nodes, i, p)] + below + rest);
        assert(whole[0] == edge_route(nodes, i, p));
        assert forall|r: Route<usize>| walk_at(nodes, l, c).contains(r) implies #[trigger] whole.contains(
            r,
        ) by {
            let k = choose|k: int| 0 <= k < below.len() && below[k] == r;
            assert(whole[1 + k] == r);
        }
    } else {
        lemma_walk_child(nodes, l, i, t, d + 1);
        let rest = walk_from(nodes, i, from, budget, d + 1);
        lemma_walk_later(nodes, i, from, budget, d, edge_route(nodes, i, p));
        assert forall|r: Route<usize>| walk_at(nodes, l, c).contains(r) implies #[trigger] whole.contains(
            r,
        ) by {
            assert(rest.contains(r));
            lemma_walk_later(nodes, i, from, budget, d, r);
        }
    }
}

/// The walk from the first node writes the route into every other node, along the partner of
/// the node's pointer towards the first node, and all that the walk writes from that node.
pub proof fn lemma_walk_reaches(nodes: Seq<PosNode>, l: Labels, c: int)
    requires
        tree_wf(nodes),
        nodes.len() <= usize::MAX,
        rooted(nodes, l),
        0 < c < nodes.len(),
    ensures
        l.up[c] is Some,
        nodes[c].slot(l.up[c]->0) is Some,
        ({
            let u = l.up[c]->0;
            let q = nodes[c].slot(u)->0.index as int;
            &&& 0 <= q < nodes.len()
            &&& nodes[q].slot(u.opposite()) is Some
            &&& nodes[q].slot(u.opposite())->0.index == c
            &&& walk_at(nodes, l, 0).contains(edge_route(nodes, q, nodes[q].slot(u.opposite())->0))
        }),
        forall|r: Route<usize>|
            walk_at(nodes, l, c).contains(r) ==> #[trigger] walk_at(nodes, l, 0).contains(r),
    decreases l.depth[c],
{
    assert(labelled(l, c));
    assert(label_ok(nodes, l, c));
    let u = l.up[c]->0;
    let q = nodes[c].slot(u)->0.index as int;
    u.lemma_opposite();
    assert(edge_ok(nodes, c, u));
    assert(label_ok(nodes, l, q));
    assert(l.up[q] != Some(u.opposite())) by {
        if l.up[q] == Some(u.opposite()) {
            assert(nodes[q].slot(u.opposite())->0.index == c);
            assert(l.depth[c] == l.depth[q] - 1);
        }
    }
    lemma_walk_child(nodes, l, q, u.opposite(), 0);
    if q != 0 {
        lemma_walk_reaches(nodes, l, q);
        let edge = edge_route(nodes, q, nodes[q].slot(u.opposite())->0);
        assert(walk_at(nodes, l, q).contains(edge));
        assert(walk_at(nodes, l, 0).contains(edge));
        assert forall|r: Route<usize>| walk_at(nodes, l, c).contains(r) implies #[trigger] walk_at(
            nodes,
            l,
            0,
        ).contains(r) by {
            assert(walk_at(nodes, l, q).contains(r));
        }
    }
}

/// The walk from the first node of a spanning tree writes every pointer pair: for every
/// pointer of the tree, the walk writes the route along it or the route along its partner.
/// With the pointers holding no cycle, a depth of as many pointers as there are nodes never
/// cuts the walk short.
pub proof fn lemma_every_pair_written(nodes: Seq<PosNode>, i: int, t: Towards)
    requires
        tree_wf(nodes),
        spanning(nodes),
        nodes.len() <= usize::MAX,
        0 <= i < nodes.len(),
        t.planar(),
        nodes[i].slot(t) is Some,
    ensures
        ({
            let p = nodes[i].slot(t)->0;
            let walk = walk_from(nodes, 0, None, nodes.len(), 0);
            &&& p.index < nodes.len()
            &&& nodes[p.index as int].slot(t.opposite()) is Some
            &&& (walk.contains(edge_route(nodes, i, p)) || walk.contains(
                edge_route(nodes, p.index as int, nodes[p.index as int].slot(t.opposite())->0),
            ))
        }),
{
    let l = lemma_rooted(nodes);
    let p = nodes[i].slot(t)->0;
    let c = p.index as int;
    t.lemma_opposite();
    assert(edge_ok(nodes, i, t));
    assert(tree_slot(nodes, l, i, t));
    assert(label_ok(nodes, l, 0));
    assert(walk_at(nodes, l, 0) == walk_from(nodes, 0, None, nodes.len(), 0));
    if l.up[i] == Some(t) {
        assert(label_ok(nodes, l, i));
        lemma_walk_reaches(nodes, l, i);
    } else {
        assert(l.up[c] == Some(t.opposite()));
        assert(label_ok(nodes, l, c));
        lemma_walk_reaches(nodes, l, c);
        assert(nodes[c].slot(t.opposite())->0.index == i);
    }
}

/// The node that node `c` points at on its way towards the first node.
pub open spec fn parent(nodes: Seq<PosNode>, l: Labels, c: int) -> int {
    nodes[c].slot(l.up[c]->0)->0.index as int
}

/// The node at depth `k` on the way from node `c` towards the first node; `c` itself where
/// `c` is no deeper than `k`.
pub open spec fn ancestor(nodes: Seq<PosNode>, l: Labels, c: int, k: int) -> int
    decreases l.depth[c],
    when rooted(nodes, l) && 0 <= c < nodes.len()
{
    if l.depth[c] <= k || l.up[c] is None {
        c
    } else {
        proof {
            assert(label_ok(nodes, l, c));
            assert(label_ok(nodes, l, parent(nodes, l, c)));
        }
        ancestor(nodes, l, parent(nodes, l, c), k)
    }
}

/// The nodes at the far ends of the routes of a walk, route by route.
pub open spec fn walk_kids(
    nodes: Seq<PosNode>,
    at: int,
    from: Option<Towards>,
    depth: nat,
    d: int,
) -> Seq<int>
    decreases depth, 4 - d,
{
    if d < 0 || d >= 4 || !(0 <= at < nodes.len()) {
        Seq::empty()
    } else {
        let t = planar_dir(d);
        let rest = walk_kids(nodes, at, from, depth, d + 1);
        match nodes[at].slot(t) {
            Some(p) => if from != Some(t.opposite()) && p.index < nodes.len() && depth > 0 {
                seq![p.index as int] + walk_kids(
                    nodes,
                    p.index as int,
                    Some(t),
                    (depth - 1) as nat,
                    0,
                ) + rest
            } else {
                rest
            },
            None => rest,
        }
    }
}

/// A walk writes one route for every node that it comes to.
pub proof fn lemma_kids_len(nodes: Seq<PosNode>, at: int, from: Option<Towards>, depth: nat, d: int)
    ensures
        walk_kids(nodes, at, from, depth, d).len() == walk_from(nodes, at, from, depth, d).len(),
    decreases depth, 4 - d,
{
    if d < 0 || d >= 4 || !(0 <= at < nodes.len()) {
    } else {
        let t = planar_dir(d);
        lemma_kids_len(nodes, at, from, depth, d + 1);
        if nodes[at].slot(t) is Some {
            let p = nodes[at].slot(t)->0;
            if from != Some(t.opposite()) && p.index < nodes.len() && depth > 0 {
                lemma_kids_len(nodes, p.index as int, Some(t), (depth - 1) as nat, 0);
            }
        }
    }
}

/// The ancestor of a node at a depth no greater than its own is a node of that depth, and
/// the first node where the depth is zero.
pub proof fn lemma_ancestor(nodes: Seq<PosNode>, l: Labels, c: int, k: int)
    requires
        rooted(nodes, l),
        0 <= c < nodes.len(),
        0 <= k <= l.depth[c],
    ensures
        0 <= ancestor(nodes, l, c, k) < nodes.len(),
        l.depth[ancestor(nodes, l, c, k)] == k,
        k == 0 ==> ancestor(nodes, l, c, k) == 0,
        k == l.depth[c] ==> ancestor(nodes, l, c, k) == c,
    decreases l.depth[c],
{
    assert(label_ok(nodes, l, c));
    assert(labelled(l, c));
    if l.up[c] is Some {
        assert(label_ok(nodes, l, parent(nodes, l, c)));
    }
    if l.depth[c] <= k || l.up[c] is None {
    } else {
        lemma_ancestor(nodes, l, parent(nodes, l, c), k);
    }
}

/// The ancestor one deeper than another ancestor of a node points at that one.
pub proof fn lemma_ancestor_parent(nodes: Seq<PosNode>, l: Labels, c: int, k: int)
    requires
        rooted(nodes, l),
        0 <= c < nodes.len(),
        0 <= k < l.depth[c],
    ensures
        l.up[ancestor(nodes, l, c, k + 1)] is Some,
        parent(nodes, l, ancestor(nodes, l, c, k + 1)) == ancestor(nodes, l, c, k),
    decreases l.depth[c],
{
    assert(label_ok(nodes, l, c));
    assert(labelled(l, c));
    let q = parent(nodes, l, c);
    if l.depth[c] == k + 1 {
        lemma_ancestor(nodes, l, q, k);
    } else {
        lemma_ancestor_parent(nodes, l, q, k);
    }
}

/// The ancestors of an ancestor of a node are ancestors of the node.
pub proof fn lemma_ancestor_twice(nodes: Seq<PosNode>, l: Labels, c: int, m: int, k: int)
    requires
        rooted(nodes, l),
        0 <= c < nodes.len(),
        0 <= k <= m <= l.depth[c],
    ensures
        ancestor(nodes, l, ancestor(nodes, l, c, m), k) == ancestor(nodes, l, c, k),
    decreases l.depth[c],
{
    assert(label_ok(nodes, l, c));
    assert(labelled(l, c));
    if l.depth[c] <= m || l.up[c] is None {
    } else {
        lemma_ancestor_twice(nodes, l, parent(nodes, l, c), m, k);
    }
}

/// Node `c` lies below node `i`, on a branch that leaves `i` in the `d`-th planar direction
/// or a later one.
pub open spec fn below(nodes: Seq<PosNode>, l: Labels, c: int, i: int, d: int) -> bool {
    &&& 0 <= c < nodes.len()
    &&& l.depth[c] > l.depth[i]
    &&& ancestor(nodes, l, c, l.depth[i]) == i
    &&& dir_index(l.up[ancestor(nodes, l, c, l.depth[i] + 1)]->0.opposite()) >= d
}

/// The nodes that the walk comes to from a node on, through the node's directions from the
/// `d`-th on, are the nodes below it on those branches, each once.
pub proof fn lemma_kids(nodes: Seq<PosNode>, l: Labels, i: int, d: int)
    requires
        tree_wf(nodes),
        nodes.len() <= usize::MAX,
        rooted(nodes, l),
        0 <= i < nodes.len(),
        0 <= d <= 4,
    ensures
        walk_kids(nodes, i, arrival(l, i), (nodes.len() - l.depth[i]) as nat, d).no_duplicates(),
        forall|c: int|
            #![trigger walk_kids(nodes, i, arrival(l, i), (nodes.len() - l.depth[i]) as nat, d).contains(c)]
            #![trigger below(nodes, l, c, i, d)]
            walk_kids(nodes, i, arrival(l, i), (nodes.len() - l.depth[i]) as nat, d).contains(c)
                <==> below(nodes, l, c, i, d),
    decreases nodes.len() - l.depth[i], 4 - d,
{
    let n = nodes.len() as int;
    let from = arrival(l, i);
    let budget = (n - l.depth[i]) as nat;
    let kids = walk_kids(nodes, i, from, budget, d);
    assert(label_ok(nodes, l, i));
    assert(l.depth[i] < n);
    if d == 4 {
        assert(kids.len() == 0);
        assert forall|c: int| !(#[trigger] below(nodes, l, c, i, d)) by {
            if 0 <= c < n && l.depth[c] > l.depth[i] {
                lemma_ancestor(nodes, l, c, l.depth[i] + 1);
            }
        }
    } else {
        let t = planar_dir(d);
        t.lemma_opposite();
        let rest = walk_kids(nodes, i, from, budget, d + 1);
        lemma_kids(nodes, l, i, d + 1);
        let slot = nodes[i].slot(t);
        let taken = slot is Some && from != Some(t.opposite()) && slot->0.index < n && budget > 0;
        // a branch in direction `t` leaves `i` through the pointer in that direction
        assert forall|c: int| #[trigger]
            below(nodes, l, c, i, d) && !below(nodes, l, c, i, d + 1) implies taken && ancestor(
            nodes,
            l,
            c,
            l.depth[i] + 1,
        ) == slot->0.index by {
            lemma_ancestor(nodes, l, c, l.depth[i] + 1);
            lemma_ancestor_parent(nodes, l, c, l.depth[i]);
            let b = ancestor(nodes, l, c, l.depth[i] + 1);
            assert(label_ok(nodes, l, b));
            let u = l.up[b]->0;
            u.lemma_opposite();
            assert(edge_ok(nodes, b, u));
            assert(dir_index(u.opposite()) == d);
            assert(u.opposite() == t);
            assert(nodes[i].slot(t)->0.index == b);
            if l.up[i] == Some(t) {
                assert(l.depth[b] == l.depth[i] - 1);
            }
            if from == Some(t.opposite()) {
                l.up[i]->0.lemma_opposite();
            }
        }
        if taken {
            let p = slot->0;
            let x = p.index as int;
            assert(edge_ok(nodes, i, t));
            assert(l.up[i] != Some(t)) by {
                if l.up[i] == Some(t) {
                    assert(from == Some(t.opposite()));
                }
            }
            assert(tree_slot(nodes, l, i, t));
            assert(l.up[x] == Some(t.opposite()));
            assert(label_ok(nodes, l, x));
            assert(parent(nodes, l, x) == i);
            assert(l.depth[x] == l.depth[i] + 1);
            assert(arrival(l, x) == Some(t));
            let under = walk_kids(nodes, x, Some(t), (budget - 1) as nat, 0);
            lemma_kids(nodes, l, x, 0);
            assert(kids == seq![x] + under + rest);
            lemma_ancestor(nodes, l, x, l.depth[i] + 1);
            lemma_ancestor(nodes, l, i, l.depth[i]);
            assert(ancestor(nodes, l, x, l.depth[i]) == i);
            assert(below(nodes, l, x, i, d));
            assert(!below(nodes, l, x, i, d + 1));
            assert(!below(nodes, l, x, x, 0));
            // what lies below `x` lies below `i` on the branch through `x`
            assert forall|c: int| #[trigger] below(nodes, l, c, x, 0) implies below(
                nodes,
                l,
                c,
                i,
                d,
            ) && !below(nodes, l, c, i, d + 1) by {
                lemma_ancestor_twice(nodes, l, c, l.depth[x], l.depth[i]);
            }
            // what lies below `i` on the branch through `x` is `x` or lies below `x`
            assert forall|c: int| #[trigger]
                below(nodes, l, c, i, d) && !below(nodes, l, c, i, d + 1) implies c == x || below(
                nodes,
                l,
                c,
                x,
                0,
            ) by {
                lemma_ancestor(nodes, l, c, l.depth[c]);
                if l.depth[c] > l.depth[x] {
                    lemma_ancestor(nodes, l, c, l.depth[x] + 1);
                    lemma_ancestor_parent(nodes, l, c, l.depth[x]);
                    let b = ancestor(nodes, l, c, l.depth[x] + 1);
                    assert(label_ok(nodes, l, b));
                    l.up[b]->0.lemma_opposite();
                }
            }
            let head = seq![x] + under;
            assert(head.no_duplicates()) by {
                assert forall|a: int, b: int|
                    0 <= a < head.len() && 0 <= b < head.len() && a != b implies head[a]
                    != head[b] by {
                    if a > 0 {
                        assert(under.contains(under[a - 1]));
                    }
                    if b > 0 {
                        assert(under.contains(under[b - 1]));
                    }
                }
            }
            assert forall|a: int, b: int| 0 <= a < head.len() && 0 <= b < rest.len() implies head[a]
                != rest[b] by {
                assert(rest.contains(rest[b]));
                if a > 0 {
                    assert(under.contains(under[a - 1]));
                }
            }
            vstd::seq_lib::lemma_no_dup_in_concat(head, rest);
            assert forall|c: int|
                #![trigger kids.contains(c)]
                #![trigger below(nodes, l, c, i, d)]
                kids.contains(c) <==> below(nodes, l, c, i, d) by {
                if kids.contains(c) {
                    let k = choose|k: int| 0 <= k < kids.len() && kids[k] == c;
                    if k == 0 {
                    } else if k < 1 + under.len() {
                        assert(under[k - 1] == c);
                        assert(under.contains(c));
                    } else {
                        assert(rest[k - 1 - under.len()] == c);
                        assert(rest.contains(c));
                        assert(below(nodes, l, c, i, d + 1));
                    }
                }
                if below(nodes, l, c, i, d) {
                    if below(nodes, l, c, i, d + 1) {
                        let k = choose|k: int| 0 <= k < rest.len() && rest[k] == c;
                        assert(kids[1 + under.len() + k] == c);
                    } else if c == x {
                        assert(kids[0] == c);
                    } else {
                        assert(below(nodes, l, c, x, 0));
                        let k = choose|k: int| 0 <= k < under.len() && under[k] == c;
                        assert(kids[1 + k] == c);
                    }
                }
            }
        } else {
            assert(kids == rest);
            assert forall|c: int|
                #![trigger kids.contains(c)]
                #![trigger below(nodes, l, c, i, d)]
                kids.contains(c) <==> below(nodes, l, c, i, d) by {
                if below(nodes, l, c, i, d) && !below(nodes, l, c, i, d + 1) {
                    assert(taken);
                }
            }
        }
    }
}

/// The walk from the first node of a spanning tree writes one route less than the tree has
/// nodes: one for every pointer pair, and none twice.
pub proof fn lemma_walk_len(nodes: Seq<PosNode>)
    requires
        tree_wf(nodes),
        spanning(nodes),
        nodes.len() <= usize::MAX,
    ensures
        walk_from(nodes, 0, None, nodes.len(), 0).len() == nodes.len() - 1,
{
    let n = nodes.len() as int;
    let l = lemma_rooted(nodes);
    assert(label_ok(nodes, l, 0));
    let kids = walk_kids(nodes, 0, None, nodes.len(), 0);
    lemma_kids(nodes, l, 0, 0);
    lemma_kids_len(nodes, 0, None, nodes.len(), 0);
    kids.unique_seq_to_set();
    assert(kids.to_set() =~= vstd::set_lib::set_int_range(1, n)) by {
        assert forall|c: int| kids.to_set().contains(c) <==> 1 <= c < n by {
            if kids.contains(c) {
                assert(below(nodes, l, c, 0, 0));
            }
            if 1 <= c < n {
                assert(label_ok(nodes, l, c));
                assert(labelled(l, c));
                lemma_ancestor(nodes, l, c, 0);
                lemma_ancestor(nodes, l, c, 1);
                assert(below(nodes, l, c, 0, 0));
            }
        }
    }
    vstd::set_lib::lemma_int_range(1, n);
}

} // verus!
