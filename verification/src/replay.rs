use crate::components::{Pair, PosNode, Route, Towards};
use crate::tree::{
    between, built_from, covers, degree, edge_ok, edge_route, extent, flat, fragment_of, is_path,
    is_site, lemma_distinct, lemma_extent, lemma_walk_routes, linked, node_positions, occurs,
    pin_at, pin_from, planar_dir, pointer_count, points_to, pos_lt, reach, span_route, spanning,
    spans_upto, strictly_sorted, tree_adj, tree_routes, tree_wf, vertical_at, vertical_ok,
    vertical_slots, walk_from,
};
use crate::walk::{label_ok, labelled, lemma_every_pair_written, lemma_rooted};
use vstd::prelude::*;

verus! {

/// Where a pin from the `k`-th on is found at `p`, some such pin lies at `p`.
pub proof fn lemma_pin_found(pins: Seq<(usize, Pair<usize>)>, p: Pair<usize>, k: int)
    requires
        0 <= k,
        pin_from(pins, p, k) is Some,
    ensures
        exists|j: int| k <= j < pins.len() && (#[trigger] pins[j]).1 == p,
    decreases pins.len() - k,
{
    if k < pins.len() {
        if pins[k].1 == p {
        } else {
            lemma_pin_found(pins, p, k + 1);
            let j = choose|j: int| k + 1 <= j < pins.len() && (#[trigger] pins[j]).1 == p;
            assert(pins[j].1 == p);
        }
    }
}

/// Every span route among those of the first `k` nodes is the span route of one of them,
/// whose span takes in more than one layer.
pub proof fn lemma_span_routes(nodes: Seq<PosNode>, k: int, j: int)
    requires
        0 <= k <= nodes.len(),
        0 <= j < spans_upto(nodes, k).len(),
    ensures
        exists|i: int|
            0 <= i < k && spans_upto(nodes, k)[j] == span_route(#[trigger] nodes[i])
                && nodes[i].spec_span().0 < nodes[i].spec_span().1,
    decreases k,
{
    let before = spans_upto(nodes, k - 1);
    if nodes[k - 1].spec_span().0 < nodes[k - 1].spec_span().1 && j == before.len() {
        assert(spans_upto(nodes, k)[j] == span_route(nodes[k - 1]));
    } else {
        lemma_span_routes(nodes, k - 1, j);
        let i = choose|i: int|
            0 <= i < k - 1 && before[j] == span_route(#[trigger] nodes[i]) && nodes[i].spec_span().0
                < nodes[i].spec_span().1;
        assert(spans_upto(nodes, k)[j] == span_route(nodes[i]));
    }
}

/// The span route of every node whose span takes in more than one layer is among the span
/// routes.
pub proof fn lemma_span_written(nodes: Seq<PosNode>, k: int, i: int)
    requires
        0 <= i < k <= nodes.len(),
        nodes[i].spec_span().0 < nodes[i].spec_span().1,
    ensures
        spans_upto(nodes, k).contains(span_route(nodes[i])),
    decreases k,
{
    let before = spans_upto(nodes, k - 1);
    let all = spans_upto(nodes, k);
    if i == k - 1 {
        assert(all[before.len() as int] == span_route(nodes[i]));
    } else {
        lemma_span_written(nodes, k - 1, i);
        let j = choose|j: int| 0 <= j < before.len() && before[j] == span_route(nodes[i]);
        assert(all[j] == span_route(nodes[i]));
    }
}

/// In a spanning tree of more than one node, every node holds a pointer.
pub proof fn lemma_has_pointer(nodes: Seq<PosNode>, i: int)
    requires
        tree_wf(nodes),
        spanning(nodes),
        nodes.len() <= usize::MAX,
        nodes.len() >= 2,
        0 <= i < nodes.len(),
    ensures
        exists|t: Towards| t.planar() && (#[trigger] nodes[i].slot(t)) is Some,
{
    if i != 0 {
        let l = lemma_rooted(nodes);
        assert(labelled(l, i));
        assert(label_ok(nodes, l, i));
        let t = l.up[i]->0;
        assert(t.planar() && nodes[i].slot(t) is Some);
    } else {
        assert(reach(tree_adj(nodes), 0, 1));
        let path = choose|path: Seq<int>| is_path(tree_adj(nodes), path, 0, 1);
        assert(path.len() >= 2);
        assert(tree_adj(nodes)(path[0int], path[0int + 1]));
        let b = path[1];
        assert(linked(nodes, 0, b));
        let t = if points_to(nodes[0].up, b) {
            Towards::Up
        } else if points_to(nodes[0].down, b) {
            Towards::Down
        } else if points_to(nodes[0].left, b) {
            Towards::Left
        } else {
            Towards::Right
        };
        assert(t.planar() && nodes[0].slot(t) is Some);
    }
}

/// The routes that a tree is written as have the sites that the tree has nodes: read with the
/// same pins, they give the same nodes again.
pub proof fn lemma_written_sites(
    nodes: Seq<PosNode>,
    pins: Seq<(usize, Pair<usize>)>,
    segments: Seq<Route<usize>>,
    p: Pair<usize>,
)
    requires
        built_from(nodes, pins, segments),
        nodes.len() <= usize::MAX,
        forall|m: int| 0 <= m < segments.len() ==> (#[trigger] segments[m]).axis_aligned(),
    ensures
        is_site(pins, tree_routes(nodes), p) <==> occurs(node_positions(nodes), p),
{
    let ps = node_positions(nodes);
    let n = nodes.len() as int;
    let spans = spans_upto(nodes, n);
    let walk = walk_from(nodes, 0, None, nodes.len(), 0);
    let written = tree_routes(nodes);
    if occurs(ps, p) {
        let i = choose|i: int| 0 <= i < ps.len() && #[trigger] ps[i] == p;
        assert(nodes[i].id == pin_at(pins, ps[i]));
        if nodes[i].id is Some {
            lemma_pin_found(pins, p, 0);
        } else if n >= 2 {
            lemma_has_pointer(nodes, i);
            let t = choose|t: Towards| t.planar() && (#[trigger] nodes[i].slot(t)) is Some;
            lemma_every_pair_written(nodes, i, t);
            let q = nodes[i].slot(t)->0;
            let back = nodes[q.index as int].slot(t.opposite())->0;
            assert(edge_ok(nodes, i, t));
            if walk.contains(edge_route(nodes, i, q)) {
                let k = choose|k: int| 0 <= k < walk.len() && walk[k] == edge_route(nodes, i, q);
                assert(written[spans.len() + k] == walk[k]);
                assert(flat(written[spans.len() + k].0) == p);
            } else {
                let k = choose|k: int|
                    0 <= k < walk.len() && walk[k] == edge_route(nodes, q.index as int, back);
                assert(written[spans.len() + k] == walk[k]);
                assert(flat(written[spans.len() + k].1) == p);
            }
        } else {
            // the one node of the tree is the end of a segment between layers
            assert(is_site(pins, segments, p));
            assert(i == 0);
            assert(!(exists|k: int| 0 <= k < pins.len() && (#[trigger] pins[k]).1 == p)) by {
                if exists|k: int| 0 <= k < pins.len() && (#[trigger] pins[k]).1 == p {
                    let k = choose|k: int| 0 <= k < pins.len() && (#[trigger] pins[k]).1 == p;
                    crate::tree::lemma_pin_from(pins, p, 0, k);
                }
            }
            let m = if exists|m: int| 0 <= m < segments.len() && flat((#[trigger] segments[m]).0) == p {
                choose|m: int| 0 <= m < segments.len() && flat((#[trigger] segments[m]).0) == p
            } else {
                choose|m: int| 0 <= m < segments.len() && flat((#[trigger] segments[m]).1) == p
            };
            let s = segments[m];
            assert(s.axis_aligned());
            assert(is_site(pins, segments, flat(s.0)));
            assert(is_site(pins, segments, flat(s.1)));
            assert(occurs(ps, flat(s.0)));
            assert(occurs(ps, flat(s.1)));
            let a = choose|a: int| 0 <= a < ps.len() && #[trigger] ps[a] == flat(s.0);
            let b = choose|b: int| 0 <= b < ps.len() && #[trigger] ps[b] == flat(s.1);
            assert(a == 0 && b == 0);
            assert(vertical_at(s, p));
            lemma_extent(segments, p, segments.len() as int);
            let e = extent(segments, p, segments.len() as int);
            assert(e.0 < e.1);
            assert((nodes[0].bottom, nodes[0].top) == vertical_slots(0, e));
            nodes[0].lemma_span(Towards::Bottom);
            nodes[0].lemma_span(Towards::Top);
            assert(nodes[0].spec_span().0 < nodes[0].spec_span().1);
            lemma_span_written(nodes, n, 0);
            let k = choose|k: int| 0 <= k < spans.len() && spans[k] == span_route(nodes[0]);
            assert(written[k] == spans[k]);
            assert(flat(written[k].0) == p);
        }
        assert(is_site(pins, written, p));
    }
    if is_site(pins, written, p) {
        if exists|k: int| 0 <= k < pins.len() && (#[trigger] pins[k]).1 == p {
            assert(is_site(pins, segments, p));
        } else {
            let k = if exists|k: int| 0 <= k < written.len() && flat((#[trigger] written[k]).0) == p {
                choose|k: int| 0 <= k < written.len() && flat((#[trigger] written[k]).0) == p
            } else {
                choose|k: int| 0 <= k < written.len() && flat((#[trigger] written[k]).1) == p
            };
            if k < spans.len() {
                assert(written[k] == spans[k]);
                lemma_span_routes(nodes, n, k);
                let i = choose|i: int|
                    0 <= i < n && spans[k] == span_route(#[trigger] nodes[i])
                        && nodes[i].spec_span().0 < nodes[i].spec_span().1;
                assert(ps[i] == p);
            } else {
                let j = k - spans.len();
                assert(written[k] == walk[j]);
                lemma_walk_routes(nodes, 0, None, nodes.len(), 0, j);
                let (i, t) = choose|i: int, t: Towards|
                    {
                        &&& 0 <= i < nodes.len()
                        &&& t.planar()
                        &&& (#[trigger] nodes[i].slot(t)) is Some
                        &&& walk[j] == edge_route(nodes, i, nodes[i].slot(t)->0)
                    };
                assert(edge_ok(nodes, i, t));
                let c = nodes[i].slot(t)->0.index as int;
                assert(ps[i] == flat(walk[j].0));
                assert(ps[c] == flat(walk[j].1));
            }
        }
        assert(occurs(ps, p));
    }
}

/// Two strictly sorted lists that hold the same positions are the same list.
pub proof fn lemma_sorted_same(a: Seq<Pair<usize>>, b: Seq<Pair<usize>>)
    requires
        strictly_sorted(a),
        strictly_sorted(b),
        forall|p: Pair<usize>| #[trigger] occurs(a, p) <==> occurs(b, p),
    ensures
        a == b,
    decreases a.len(),
{
    if a.len() == 0 {
        if b.len() > 0 {
            assert(occurs(b, b[0]));
            assert(occurs(a, b[0]));
        }
        assert(a =~= b);
    } else {
        assert(occurs(a, a[0]));
        assert(occurs(b, a[0]));
        let k = choose|k: int| 0 <= k < b.len() && #[trigger] b[k] == a[0];
        assert(occurs(b, b[0]));
        assert(occurs(a, b[0]));
        let m = choose|m: int| 0 <= m < a.len() && #[trigger] a[m] == b[0];
        if m > 0 {
            assert(pos_lt(a[0], a[m]));
        }
        if k > 0 {
            assert(pos_lt(b[0], b[k]));
        }
        assert(a[0] == b[0]);
        let ta = a.drop_first();
        let tb = b.drop_first();
        assert forall|i: int, j: int| 0 <= i < j < ta.len() implies pos_lt(
            #[trigger] ta[i],
            #[trigger] ta[j],
        ) by {
            assert(pos_lt(a[i + 1], a[j + 1]));
        }
        assert forall|i: int, j: int| 0 <= i < j < tb.len() implies pos_lt(
            #[trigger] tb[i],
            #[trigger] tb[j],
        ) by {
            assert(pos_lt(b[i + 1], b[j + 1]));
        }
        assert forall|p: Pair<usize>| #[trigger] occurs(ta, p) <==> occurs(tb, p) by {
            if occurs(ta, p) {
                let i = choose|i: int| 0 <= i < ta.len() && #[trigger] ta[i] == p;
                assert(a[i + 1] == p);
                assert(pos_lt(a[0], a[i + 1]));
                assert(occurs(a, p));
                assert(occurs(b, p));
                let j = choose|j: int| 0 <= j < b.len() && #[trigger] b[j] == p;
                assert(j > 0);
                assert(tb[j - 1] == p);
            }
            if occurs(tb, p) {
                let i = choose|i: int| 0 <= i < tb.len() && #[trigger] tb[i] == p;
                assert(b[i + 1] == p);
                assert(pos_lt(b[0], b[i + 1]));
                assert(occurs(b, p));
                assert(occurs(a, p));
                let j = choose|j: int| 0 <= j < a.len() && #[trigger] a[j] == p;
                assert(j > 0);
                assert(ta[j - 1] == p);
            }
        }
        lemma_sorted_same(ta, tb);
        assert(a =~= seq![a[0]] + ta);
        assert(b =~= seq![b[0]] + tb);
    }
}

/// Where no node of `a` has more pointers than the same node of `b` and `a` holds no fewer
/// in all, every node has as many in `a` as in `b`.
pub proof fn lemma_same_degrees(a: Seq<PosNode>, b: Seq<PosNode>, k: int, i: int)
    requires
        0 <= i < k <= a.len(),
        a.len() == b.len(),
        forall|x: int| 0 <= x < a.len() ==> degree(#[trigger] a[x]) <= degree(b[x]),
        pointer_count(a, k) >= pointer_count(b, k),
    ensures
        degree(a[i]) == degree(b[i]),
    decreases k,
{
    lemma_fewer_pointers(a, b, k - 1);
    assert(degree(a[k - 1]) <= degree(b[k - 1]));
    if i < k - 1 {
        lemma_same_degrees(a, b, k - 1, i);
    }
}

/// Where no node of `a` has more pointers than the same node of `b`, `a` holds no more in
/// all.
pub proof fn lemma_fewer_pointers(a: Seq<PosNode>, b: Seq<PosNode>, k: int)
    requires
        0 <= k <= a.len(),
        a.len() == b.len(),
        forall|x: int| 0 <= x < a.len() ==> degree(#[trigger] a[x]) <= degree(b[x]),
    ensures
        pointer_count(a, k) <= pointer_count(b, k),
    decreases k,
{
    if k > 0 {
        lemma_fewer_pointers(a, b, k - 1);
        assert(degree(a[k - 1]) <= degree(b[k - 1]));
    }
}

/// The planar pointers and the positions are the same in `a` as in `b`.
pub open spec fn same_planar(a: Seq<PosNode>, b: Seq<PosNode>) -> bool {
    &&& a.len() == b.len()
    &&& forall|i: int|
        0 <= i < a.len() ==> {
            &&& (#[trigger] a[i]).position == b[i].position
            &&& a[i].up == b[i].up
            &&& a[i].down == b[i].down
            &&& a[i].left == b[i].left
            &&& a[i].right == b[i].right
        }
}

/// The walk goes by the planar pointers and the positions alone.
pub proof fn lemma_walk_same(
    a: Seq<PosNode>,
    b: Seq<PosNode>,
    at: int,
    from: Option<Towards>,
    depth: nat,
    d: int,
)
    requires
        same_planar(a, b),
    ensures
        walk_from(a, at, from, depth, d) == walk_from(b, at, from, depth, d),
    decreases depth, 4 - d,
{
    if d < 0 || d >= 4 || !(0 <= at < a.len()) {
    } else {
        let t = planar_dir(d);
        lemma_walk_same(a, b, at, from, depth, d + 1);
        assert(a[at].position == b[at].position);
        assert(a[at].slot(t) == b[at].slot(t));
        if a[at].slot(t) is Some {
            let p = a[at].slot(t)->0;
            if from != Some(t.opposite()) && p.index < a.len() && depth > 0 {
                lemma_walk_same(a, b, p.index as int, Some(t), (depth - 1) as nat, 0);
                assert(a[p.index as int].position == b[p.index as int].position);
                assert(edge_route(a, at, p) == edge_route(b, at, p));
            }
        }
    }
}

/// The span routes go by the positions and the spans alone.
pub proof fn lemma_spans_same(a: Seq<PosNode>, b: Seq<PosNode>, k: int)
    requires
        a.len() == b.len(),
        0 <= k <= a.len(),
        forall|i: int|
            0 <= i < a.len() ==> (#[trigger] a[i]).position == b[i].position && a[i].spec_span()
                == b[i].spec_span(),
    ensures
        spans_upto(a, k) == spans_upto(b, k),
    decreases k,
{
    if k > 0 {
        lemma_spans_same(a, b, k - 1);
        assert(a[k - 1].position == b[k - 1].position);
        assert(span_route(a[k - 1]) == span_route(b[k - 1]));
    }
}

/// A planar pointer of the tree built again from what a tree was written as is a pointer of
/// that tree.
pub proof fn lemma_pointer_again(
    nodes: Seq<PosNode>,
    again: Seq<PosNode>,
    pins: Seq<(usize, Pair<usize>)>,
    i: int,
    t: Towards,
)
    requires
        tree_wf(nodes),
        nodes.len() <= usize::MAX,
        built_from(again, pins, tree_routes(nodes)),
        node_positions(again) == node_positions(nodes),
        0 <= i < nodes.len(),
        t.planar(),
        again[i].slot(t) is Some,
    ensures
        nodes[i].slot(t) == again[i].slot(t),
{
    let ps = node_positions(nodes);
    let n = nodes.len() as int;
    let written = tree_routes(nodes);
    let spans = spans_upto(nodes, n);
    let walk = walk_from(nodes, 0, None, nodes.len(), 0);
    let q = again[i].slot(t)->0;
    let j = q.index as int;
    assert(edge_ok(again, i, t));
    assert(node_positions(again)[i] == ps[i]);
    assert(node_positions(again)[j] == ps[j]);
    assert(fragment_of(written, ps[i], ps[j], q.height));
    let m = choose|m: int|
        0 <= m < written.len() && covers(#[trigger] written[m], ps[i]) && covers(written[m], ps[j])
            && written[m].0.2 == q.height;
    if m < spans.len() {
        assert(written[m] == spans[m]);
        lemma_span_routes(nodes, n, m);
        assert(false);
    }
    let k = m - spans.len();
    assert(written[m] == walk[k]);
    lemma_walk_routes(nodes, 0, None, nodes.len(), 0, k);
    let (a, s) = choose|a: int, s: Towards|
        {
            &&& 0 <= a < nodes.len()
            &&& s.planar()
            &&& (#[trigger] nodes[a].slot(s)) is Some
            &&& walk[k] == edge_route(nodes, a, nodes[a].slot(s)->0)
        };
    let pa = nodes[a].slot(s)->0;
    let b = pa.index as int;
    s.lemma_opposite();
    assert(edge_ok(nodes, a, s));
    assert(!between(ps[a], ps[b], ps[i]));
    assert(!between(ps[a], ps[b], ps[j]));
    assert(ps[i] == ps[a] || ps[i] == ps[b]);
    assert(ps[j] == ps[a] || ps[j] == ps[b]);
    assert(ps[i] != ps[j]);
    if ps[i] == ps[a] {
        lemma_distinct(ps, i, a);
        lemma_distinct(ps, j, b);
        assert(t == s);
    } else {
        lemma_distinct(ps, i, b);
        lemma_distinct(ps, j, a);
        assert(t == s.opposite());
    }
}

/// Building a tree again from what a tree was written as, with the same pins, gives the
/// positions, pins, planar pointers and spans of that tree; so the two are written as the
/// same routes.
pub proof fn lemma_built_again(
    nodes: Seq<PosNode>,
    again: Seq<PosNode>,
    pins: Seq<(usize, Pair<usize>)>,
    segments: Seq<Route<usize>>,
)
    requires
        built_from(nodes, pins, segments),
        forall|m: int| 0 <= m < segments.len() ==> (#[trigger] segments[m]).axis_aligned(),
        built_from(again, pins, tree_routes(nodes)),
        nodes.len() <= usize::MAX,
    ensures
        same_planar(again, nodes),
        forall|i: int|
            0 <= i < nodes.len() ==> (#[trigger] again[i]).id == nodes[i].id && again[i].spec_span()
                == nodes[i].spec_span(),
        tree_routes(again) == tree_routes(nodes),
{
    let ps = node_positions(nodes);
    let n = nodes.len() as int;
    let written = tree_routes(nodes);
    let spans = spans_upto(nodes, n);
    let walk = walk_from(nodes, 0, None, nodes.len(), 0);
    assert forall|p: Pair<usize>| #[trigger]
        occurs(node_positions(again), p) <==> occurs(ps, p) by {
        lemma_written_sites(nodes, pins, segments, p);
    }
    lemma_sorted_same(node_positions(again), ps);
    assert(again.len() == nodes.len());
    assert forall|i: int| 0 <= i < n implies (#[trigger] again[i]).position == nodes[i].position by {
        assert(node_positions(again)[i] == ps[i]);
    }
    // the planar pointers
    assert forall|x: int| 0 <= x < n implies degree(#[trigger] again[x]) <= degree(nodes[x]) by {
        if again[x].up is Some {
            lemma_pointer_again(nodes, again, pins, x, Towards::Up);
        }
        if again[x].down is Some {
            lemma_pointer_again(nodes, again, pins, x, Towards::Down);
        }
        if again[x].left is Some {
            lemma_pointer_again(nodes, again, pins, x, Towards::Left);
        }
        if again[x].right is Some {
            lemma_pointer_again(nodes, again, pins, x, Towards::Right);
        }
    }
    assert forall|i: int| 0 <= i < n implies {
        &&& (#[trigger] again[i]).up == nodes[i].up
        &&& again[i].down == nodes[i].down
        &&& again[i].left == nodes[i].left
        &&& again[i].right == nodes[i].right
    } by {
        lemma_same_degrees(again, nodes, n, i);
        if again[i].up is Some {
            lemma_pointer_again(nodes, again, pins, i, Towards::Up);
        }
        if again[i].down is Some {
            lemma_pointer_again(nodes, again, pins, i, Towards::Down);
        }
        if again[i].left is Some {
            lemma_pointer_again(nodes, again, pins, i, Towards::Left);
        }
        if again[i].right is Some {
            lemma_pointer_again(nodes, again, pins, i, Towards::Right);
        }
    }
    // the pins and the spans
    assert forall|i: int| 0 <= i < n implies (#[trigger] again[i]).id == nodes[i].id
        && again[i].spec_span() == nodes[i].spec_span() by {
        let p = ps[i];
        assert(node_positions(again)[i] == p);
        assert(again[i].id == pin_at(pins, p));
        assert(nodes[i].id == pin_at(pins, p));
        let e = extent(written, p, written.len() as int);
        assert((again[i].bottom, again[i].top) == vertical_slots(i, e));
        lemma_extent(written, p, written.len() as int);
        let span = nodes[i].spec_span();
        assert forall|m: int|
            0 <= m < written.len() && vertical_at(#[trigger] written[m], p) implies written[m]
            == span_route(nodes[i]) && span.0 < span.1 by {
            if m < spans.len() {
                assert(written[m] == spans[m]);
                lemma_span_routes(nodes, n, m);
                let x = choose|x: int|
                    0 <= x < n && spans[m] == span_route(#[trigger] nodes[x])
                        && nodes[x].spec_span().0 < nodes[x].spec_span().1;
                assert(ps[x] == p);
                lemma_distinct(ps, x, i);
            } else {
                let k = m - spans.len();
                assert(written[m] == walk[k]);
                lemma_walk_routes(nodes, 0, None, nodes.len(), 0, k);
            }
        }
        assert(vertical_ok(nodes, i));
        nodes[i].lemma_span(Towards::Bottom);
        nodes[i].lemma_span(Towards::Top);
        nodes[i].lemma_span(Towards::Up);
        nodes[i].lemma_span(Towards::Down);
        nodes[i].lemma_span(Towards::Left);
        nodes[i].lemma_span(Towards::Right);
        if span.0 < span.1 {
            lemma_span_written(nodes, n, i);
            let k = choose|k: int| 0 <= k < spans.len() && spans[k] == span_route(nodes[i]);
            assert(written[k] == spans[k]);
            assert(vertical_at(written[k], p));
            assert(e.0 < e.1);
            assert(e.0 == span.0);
            assert(e.1 == span.1);
        } else {
            assert(!(e.0 < e.1));
            assert(nodes[i].bottom is None);
        }
    }
    lemma_spans_same(again, nodes, n);
    lemma_walk_same(again, nodes, 0, None, nodes.len(), 0);
}

/// The pins and the segments of a net leave one tree only: two trees built from them are the
/// same tree.
pub proof fn lemma_built_unique(
    a: Seq<PosNode>,
    b: Seq<PosNode>,
    pins: Seq<(usize, Pair<usize>)>,
    segments: Seq<Route<usize>>,
)
    requires
        built_from(a, pins, segments),
        built_from(b, pins, segments),
    ensures
        a == b,
{
    assert forall|p: Pair<usize>| #[trigger]
        occurs(node_positions(a), p) <==> occurs(node_positions(b), p) by {
        assert(occurs(node_positions(a), p) <==> is_site(pins, segments, p));
        assert(occurs(node_positions(b), p) <==> is_site(pins, segments, p));
    }
    lemma_sorted_same(node_positions(a), node_positions(b));
}

} // verus!
