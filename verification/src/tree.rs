use crate::components::{FactoryID, Pair, Point, Pointer, PosNode, Route, Towards};
use crate::text::as_text;
use crate::error::Error;
use crate::utilities::{is_partition, merged_into, num_components, union_step, UnionFind};
use core::ops::Neg;
use vstd::prelude::*;
use vstd::string::*;

verus! {

/// The tree of one net: its nodes in the order of their positions, linked by pointers.
#[derive(Debug)]
pub struct NetTree {
    pub nodes: Vec<PosNode>,
}

/// The planar position under a point.
pub open spec fn flat(p: Point<usize>) -> Pair<usize> {
    Pair(p.0, p.1)
}

/// Order of positions: by row, then by column.
pub open spec fn pos_lt(a: Pair<usize>, b: Pair<usize>) -> bool {
    a.0 < b.0 || (a.0 == b.0 && a.1 < b.1)
}

/// Every position comes before all later ones; so no position occurs twice.
pub open spec fn strictly_sorted(ps: Seq<Pair<usize>>) -> bool {
    forall|i: int, j: int| 0 <= i < j < ps.len() ==> pos_lt(#[trigger] ps[i], #[trigger] ps[j])
}

/// `p` occurs in `ps`.
pub open spec fn occurs(ps: Seq<Pair<usize>>, p: Pair<usize>) -> bool {
    exists|i: int| 0 <= i < ps.len() && #[trigger] ps[i] == p
}

/// `p` is the position of one of the first `np` pins or of an end of one of the first `ns`
/// segments.
pub open spec fn site_upto(
    pins: Seq<(usize, Pair<usize>)>,
    np: int,
    segments: Seq<Route<usize>>,
    ns: int,
    p: Pair<usize>,
) -> bool {
    ||| exists|k: int| 0 <= k < np && (#[trigger] pins[k]).1 == p
    ||| exists|k: int| 0 <= k < ns && flat((#[trigger] segments[k]).0) == p
    ||| exists|k: int| 0 <= k < ns && flat((#[trigger] segments[k]).1) == p
}

/// `p` is the position of a pin or of an end of a segment: the positions that become nodes.
pub open spec fn is_site(
    pins: Seq<(usize, Pair<usize>)>,
    segments: Seq<Route<usize>>,
    p: Pair<usize>,
) -> bool {
    site_upto(pins, pins.len() as int, segments, segments.len() as int, p)
}

/// The first pin at position `p` among those from the `k`-th on, if there is one.
pub open spec fn pin_from(pins: Seq<(usize, Pair<usize>)>, p: Pair<usize>, k: int) -> Option<usize>
    decreases pins.len() - k,
{
    if k < 0 || k >= pins.len() {
        None
    } else if pins[k].1 == p {
        Some(pins[k].0)
    } else {
        pin_from(pins, p, k + 1)
    }
}

/// The pin of the node at `p`: the first connected pin at that position, if there is one.
pub open spec fn pin_at(pins: Seq<(usize, Pair<usize>)>, p: Pair<usize>) -> Option<usize> {
    pin_from(pins, p, 0)
}

/// `s` runs between layers at the planar position `p`.
pub open spec fn vertical_at(s: Route<usize>, p: Pair<usize>) -> bool {
    s.0.0 == s.1.0 && s.0.1 == s.1.1 && s.0.2 != s.1.2 && flat(s.0) == p
}

/// The span `acc` stretched to take in layer `lay`.
pub open spec fn stretch(acc: (usize, usize), lay: usize) -> (usize, usize) {
    (
        if lay < acc.0 {
            lay
        } else {
            acc.0
        },
        if lay > acc.1 {
            lay
        } else {
            acc.1
        },
    )
}

/// The lowest and highest layer that the vertical ones among the first `k` segments reach at
/// `p`; `(usize::MAX, 0)` where there is none.
pub open spec fn extent(segments: Seq<Route<usize>>, p: Pair<usize>, k: int) -> (usize, usize)
    decreases k,
{
    if k <= 0 {
        (usize::MAX, 0)
    } else if vertical_at(segments[k - 1], p) {
        stretch(stretch(extent(segments, p, k - 1), segments[k - 1].0.2), segments[k - 1].1.2)
    } else {
        extent(segments, p, k - 1)
    }
}

/// `q` lies from `p` in the planar direction `t`: `Left`/`Right` along rows, `Down`/`Up` along
/// columns.
pub open spec fn in_direction(p: Pair<usize>, q: Pair<usize>, t: Towards) -> bool {
    match t {
        Towards::Right => q.1 == p.1 && q.0 > p.0,
        Towards::Left => q.1 == p.1 && q.0 < p.0,
        Towards::Up => q.0 == p.0 && q.1 > p.1,
        Towards::Down => q.0 == p.0 && q.1 < p.1,
        _ => false,
    }
}

/// `c` lies strictly between `p` and `q` on the row or column that they share.
pub open spec fn between(p: Pair<usize>, q: Pair<usize>, c: Pair<usize>) -> bool {
    ||| (p.0 == q.0 && c.0 == p.0 && (p.1 < c.1 < q.1 || q.1 < c.1 < p.1))
    ||| (p.1 == q.1 && c.1 == p.1 && (p.0 < c.0 < q.0 || q.0 < c.0 < p.0))
}

/// The positions of the nodes, in order.
pub open spec fn node_positions(nodes: Seq<PosNode>) -> Seq<Pair<usize>> {
    Seq::new(nodes.len(), |i: int| nodes[i].position)
}

/// No position of `ps` lies strictly between its `a`-th and its `b`-th.
pub open spec fn atomic(ps: Seq<Pair<usize>>, a: int, b: int) -> bool {
    forall|c: int| 0 <= c < ps.len() ==> !between(ps[a], ps[b], #[trigger] ps[c])
}

/// What holds of the pointer of node `i` in the planar direction `t`, if there is one: the
/// node it names points back at the same height, lies in that direction, and no node lies
/// between the two.
pub open spec fn edge_ok(nodes: Seq<PosNode>, i: int, t: Towards) -> bool {
    nodes[i].slot(t) matches Some(p) ==> {
        &&& p.index < nodes.len()
        &&& nodes[p.index as int].slot(t.opposite()) == Some(
            Pointer { index: i as usize, height: p.height },
        )
        &&& in_direction(node_positions(nodes)[i], node_positions(nodes)[p.index as int], t)
        &&& atomic(node_positions(nodes), i, p.index as int)
    }
}

/// What holds of the vertical pointers of node `i`: both or none are there, they name the
/// node itself, and the bottom is below the top.
pub open spec fn vertical_ok(nodes: Seq<PosNode>, i: int) -> bool {
    match (nodes[i].bottom, nodes[i].top) {
        (Some(b), Some(t)) => b.index == i && t.index == i && b.height < t.height,
        (None, None) => true,
        _ => false,
    }
}

/// The invariant of a net tree: nodes in strict order of position, planar pointers symmetric
/// and between neighbours on a row or column, vertical pointers in order.
pub open spec fn tree_wf(nodes: Seq<PosNode>) -> bool {
    &&& strictly_sorted(node_positions(nodes))
    &&& forall|i: int, t: Towards|
        0 <= i < nodes.len() && t.planar() ==> #[trigger] edge_ok(nodes, i, t)
    &&& forall|i: int| 0 <= i < nodes.len() ==> #[trigger] vertical_ok(nodes, i)
}

/// `slot` holds a pointer to node `b`.
pub open spec fn points_to(slot: Option<Pointer>, b: int) -> bool {
    slot matches Some(p) && p.index == b
}

/// Node `a` holds a planar pointer to node `b`.
pub open spec fn linked(nodes: Seq<PosNode>, a: int, b: int) -> bool {
    &&& 0 <= a < nodes.len()
    &&& 0 <= b < nodes.len()
    &&& (points_to(nodes[a].up, b) || points_to(nodes[a].down, b) || points_to(nodes[a].left, b)
        || points_to(nodes[a].right, b))
}

/// The relation "holds a planar pointer to" between the nodes of a tree.
pub open spec fn tree_adj(nodes: Seq<PosNode>) -> spec_fn(int, int) -> bool {
    |a: int, b: int| linked(nodes, a, b)
}

/// `path` leads from `a` to `b` by steps of `adj`.
pub open spec fn is_path<V>(adj: spec_fn(V, V) -> bool, path: Seq<V>, a: V, b: V) -> bool {
    &&& path.len() > 0
    &&& path[0] == a
    &&& path[path.len() - 1] == b
    &&& forall|i: int| 0 <= i < path.len() - 1 ==> adj(#[trigger] path[i], path[i + 1])
}

/// `b` can be reached from `a` by steps of `adj`.
pub open spec fn reach<V>(adj: spec_fn(V, V) -> bool, a: V, b: V) -> bool {
    exists|path: Seq<V>| is_path(adj, path, a, b)
}

/// Every vertex reaches itself.
pub proof fn lemma_reach_refl<V>(adj: spec_fn(V, V) -> bool, a: V)
    ensures
        reach(adj, a, a),
{
    assert(is_path(adj, seq![a], a, a));
}

/// What reaches a vertex reaches what that vertex is joined to.
pub proof fn lemma_reach_step<V>(adj: spec_fn(V, V) -> bool, a: V, c: V, b: V)
    requires
        reach(adj, a, c),
        adj(c, b),
    ensures
        reach(adj, a, b),
{
    let path = choose|path: Seq<V>| is_path(adj, path, a, c);
    let longer = path.push(b);
    assert forall|i: int| 0 <= i < longer.len() - 1 implies adj(
        #[trigger] longer[i],
        longer[i + 1],
    ) by {
        if i < path.len() - 1 {
            assert(adj(path[i], path[i + 1]));
        }
    }
    assert(is_path(adj, longer, a, b));
}

/// Reachability is transitive.
pub proof fn lemma_reach_trans<V>(adj: spec_fn(V, V) -> bool, a: V, b: V, c: V)
    requires
        reach(adj, a, b),
        reach(adj, b, c),
    ensures
        reach(adj, a, c),
{
    let first = choose|path: Seq<V>| is_path(adj, path, a, b);
    let second = choose|path: Seq<V>| is_path(adj, path, b, c);
    let whole = first + second.subrange(1, second.len() as int);
    assert forall|i: int| 0 <= i < whole.len() - 1 implies adj(#[trigger] whole[i], whole[i + 1]) by {
        if i < first.len() - 1 {
            assert(adj(first[i], first[i + 1]));
        } else {
            let j = i - first.len() + 1;
            assert(adj(second[j], second[j + 1]));
            if j == 0 {
                assert(whole[i] == first[first.len() - 1]);
            } else {
                assert(whole[i] == second[j]);
            }
            assert(whole[i + 1] == second[j + 1]);
        }
    }
    assert(is_path(adj, whole, a, c));
}

/// Where `f` takes every step of `from` to a step of `to`, it takes what `from` reaches to
/// what `to` reaches.
pub proof fn lemma_reach_map<V, W>(
    from: spec_fn(V, V) -> bool,
    to: spec_fn(W, W) -> bool,
    f: spec_fn(V) -> W,
    a: V,
    b: V,
)
    requires
        forall|x: V, y: V| #[trigger] from(x, y) ==> to(f(x), f(y)),
        reach(from, a, b),
    ensures
        reach(to, f(a), f(b)),
{
    let path = choose|path: Seq<V>| is_path(from, path, a, b);
    let image = Seq::new(path.len(), |i: int| f(path[i]));
    assert forall|i: int| 0 <= i < image.len() - 1 implies to(#[trigger] image[i], image[i + 1]) by {
        assert(from(path[i], path[i + 1]));
    }
    assert(is_path(to, image, f(a), f(b)));
}

/// Whether `a` comes before `b` in the order of positions.
pub fn pos_less(a: &Pair<usize>, b: &Pair<usize>) -> (r: bool)
    ensures
        r == pos_lt(*a, *b),
{
    a.0 < b.0 || (a.0 == b.0 && a.1 < b.1)
}

/// Whether `a` and `b` are the same position.
pub fn pos_same(a: &Pair<usize>, b: &Pair<usize>) -> (r: bool)
    ensures
        r == (*a == *b),
{
    a.0 == b.0 && a.1 == b.1
}

/// Puts `p` at its place in a strictly sorted list of positions, unless it is there already.
pub fn insert_position(positions: &mut Vec<Pair<usize>>, p: Pair<usize>)
    requires
        strictly_sorted(old(positions)@),
    ensures
        strictly_sorted(final(positions)@),
        forall|q: Pair<usize>| #[trigger]
            occurs(final(positions)@, q) <==> occurs(old(positions)@, q) || q == p,
{
    let mut i: usize = 0;
    while i < positions.len() && pos_less(&positions[i], &p)
        invariant
            positions@ == old(positions)@,
            0 <= i <= positions@.len(),
            forall|k: int| 0 <= k < i ==> pos_lt(#[trigger] positions@[k], p),
        decreases positions@.len() - i,
    {
        i += 1;
    }
    let ghost before = positions@;
    if i < positions.len() && pos_same(&positions[i], &p) {
        proof {
            assert forall|q: Pair<usize>| #[trigger]
                occurs(before, q) <==> occurs(before, q) || q == p by {
                if q == p {
                    assert(before[i as int] == p);
                }
            }
        }
        return ;
    }
    positions.insert(i, p);
    proof {
        let after = positions@;
        assert forall|a: int, b: int| 0 <= a < b < after.len() implies pos_lt(
            #[trigger] after[a],
            #[trigger] after[b],
        ) by {
            if b < i {
                assert(after[a] == before[a] && after[b] == before[b]);
            } else if b == i {
                assert(after[a] == before[a]);
            } else if a < i {
                assert(after[a] == before[a] && after[b] == before[b - 1]);
                assert(pos_lt(before[a], p));
                if b - 1 > i {
                    assert(pos_lt(before[i as int], before[b - 1]));
                }
            } else if a == i {
                assert(after[b] == before[b - 1]);
                if b - 1 > i {
                    assert(pos_lt(before[i as int], before[b - 1]));
                }
            } else {
                assert(after[a] == before[a - 1] && after[b] == before[b - 1]);
            }
        }
        assert forall|q: Pair<usize>| #[trigger]
            occurs(after, q) <==> occurs(before, q) || q == p by {
            if occurs(after, q) {
                let j = choose|j: int| 0 <= j < after.len() && #[trigger] after[j] == q;
                if j < i {
                    assert(before[j] == q);
                } else if j > i {
                    assert(before[j - 1] == q);
                }
            }
            if occurs(before, q) {
                let j = choose|j: int| 0 <= j < before.len() && #[trigger] before[j] == q;
                if j < i {
                    assert(after[j] == q);
                } else {
                    assert(after[j + 1] == q);
                }
            }
            if q == p {
                assert(after[i as int] == q);
            }
        }
    }
}

/// The positions of a net's pins and segment ends, each once, in order.
pub fn collect_positions(pins: &Vec<(usize, Pair<usize>)>, segments: &Vec<Route<usize>>) -> (res:
    Vec<Pair<usize>>)
    ensures
        strictly_sorted(res@),
        forall|p: Pair<usize>| #[trigger] occurs(res@, p) <==> is_site(pins@, segments@, p),
{
    let mut positions: Vec<Pair<usize>> = Vec::new();
    let mut i: usize = 0;
    while i < pins.len()
        invariant
            0 <= i <= pins@.len(),
            strictly_sorted(positions@),
            forall|p: Pair<usize>| #[trigger]
                occurs(positions@, p) <==> site_upto(pins@, i as int, segments@, 0, p),
        decreases pins@.len() - i,
    {
        let ghost before = positions@;
        insert_position(&mut positions, pins[i].1);
        proof {
            assert forall|p: Pair<usize>| #[trigger]
                occurs(positions@, p) <==> site_upto(pins@, i + 1, segments@, 0, p) by {
                assert(occurs(before, p) <==> site_upto(pins@, i as int, segments@, 0, p));
                if site_upto(pins@, i + 1, segments@, 0, p) {
                    let k = choose|k: int| 0 <= k < i + 1 && (#[trigger] pins@[k]).1 == p;
                    if k < i {
                        assert(site_upto(pins@, i as int, segments@, 0, p));
                    }
                }
                if p == pins@[i as int].1 {
                    assert(site_upto(pins@, i + 1, segments@, 0, p));
                }
            }
        }
        i += 1;
    }
    let mut j: usize = 0;
    while j < segments.len()
        invariant
            0 <= j <= segments@.len(),
            strictly_sorted(positions@),
            forall|p: Pair<usize>| #[trigger]
                occurs(positions@, p) <==> site_upto(pins@, pins@.len() as int, segments@, j as int, p),
        decreases segments@.len() - j,
    {
        let ghost before = positions@;
        let s = segments[j];
        insert_position(&mut positions, Pair(s.0.0, s.0.1));
        let ghost middle = positions@;
        insert_position(&mut positions, Pair(s.1.0, s.1.1));
        proof {
            let np = pins@.len() as int;
            assert forall|p: Pair<usize>| #[trigger]
                occurs(positions@, p) <==> site_upto(pins@, np, segments@, j + 1, p) by {
                assert(occurs(before, p) <==> site_upto(pins@, np, segments@, j as int, p));
                assert(occurs(middle, p) <==> occurs(before, p) || p == flat(s.0));
                if site_upto(pins@, np, segments@, j + 1, p) {
                    if exists|k: int| 0 <= k < np && (#[trigger] pins@[k]).1 == p {
                    } else if exists|k: int| 0 <= k < j + 1 && flat((#[trigger] segments@[k]).0) == p {
                        let k = choose|k: int| 0 <= k < j + 1 && flat((#[trigger] segments@[k]).0) == p;
                        if k < j {
                            assert(site_upto(pins@, np, segments@, j as int, p));
                        }
                    } else {
                        let k = choose|k: int| 0 <= k < j + 1 && flat((#[trigger] segments@[k]).1) == p;
                        if k < j {
                            assert(site_upto(pins@, np, segments@, j as int, p));
                        }
                    }
                }
                if p == flat(s.0) || p == flat(s.1) {
                    assert(segments@[j as int] == s);
                    assert(site_upto(pins@, np, segments@, j + 1, p));
                }
            }
        }
        j += 1;
    }
    positions
}

/// The pin of the node at `p`: the first connected pin at that position, if there is one.
pub fn pin_for(pins: &Vec<(usize, Pair<usize>)>, p: &Pair<usize>) -> (id: Option<usize>)
    ensures
        id == pin_at(pins@, *p),
{
    let mut k: usize = 0;
    while k < pins.len()
        invariant
            0 <= k <= pins@.len(),
            pin_at(pins@, *p) == pin_from(pins@, *p, k as int),
        decreases pins@.len() - k,
    {
        if pos_same(&pins[k].1, p) {
            return Some(pins[k].0);
        }
        k += 1;
    }
    None
}

/// The lowest and highest layer that the vertical segments reach at `p`.
pub fn vertical_extent(segments: &Vec<Route<usize>>, p: &Pair<usize>) -> (res: (usize, usize))
    ensures
        res == extent(segments@, *p, segments@.len() as int),
{
    let mut lo: usize = usize::MAX;
    let mut hi: usize = 0;
    let mut k: usize = 0;
    while k < segments.len()
        invariant
            0 <= k <= segments@.len(),
            (lo, hi) == extent(segments@, *p, k as int),
        decreases segments@.len() - k,
    {
        let s = segments[k];
        if s.0.0 == s.1.0 && s.0.1 == s.1.1 && s.0.2 != s.1.2 && s.0.0 == p.0 && s.0.1 == p.1 {
            if s.0.2 < lo {
                lo = s.0.2;
            }
            if s.0.2 > hi {
                hi = s.0.2;
            }
            if s.1.2 < lo {
                lo = s.1.2;
            }
            if s.1.2 > hi {
                hi = s.1.2;
            }
        }
        k += 1;
    }
    (lo, hi)
}

/// Every vertical segment at `p` among the first `k` has both its layers within the extent,
/// and where there is one the two ends of the extent differ and are layers of such segments.
pub proof fn lemma_extent(segments: Seq<Route<usize>>, p: Pair<usize>, k: int)
    requires
        0 <= k <= segments.len(),
    ensures
        forall|m: int|
            0 <= m < k && vertical_at(#[trigger] segments[m], p) ==> {
                let e = extent(segments, p, k);
                e.0 <= segments[m].0.2 <= e.1 && e.0 <= segments[m].1.2 <= e.1
            },
        (exists|m: int| 0 <= m < k && vertical_at(#[trigger] segments[m], p)) <==> extent(
            segments,
            p,
            k,
        ).0 < extent(segments, p, k).1,
        extent(segments, p, k).0 < extent(segments, p, k).1 || extent(segments, p, k) == (
            usize::MAX,
            0usize,
        ),
        extent(segments, p, k).0 < extent(segments, p, k).1 ==> {
            &&& exists|m: int|
                0 <= m < k && vertical_at(#[trigger] segments[m], p) && (segments[m].0.2 == extent(
                    segments,
                    p,
                    k,
                ).0 || segments[m].1.2 == extent(segments, p, k).0)
            &&& exists|m: int|
                0 <= m < k && vertical_at(#[trigger] segments[m], p) && (segments[m].0.2 == extent(
                    segments,
                    p,
                    k,
                ).1 || segments[m].1.2 == extent(segments, p, k).1)
        },
    decreases k,
{
    if k > 0 {
        lemma_extent(segments, p, k - 1);
        let e0 = extent(segments, p, k - 1);
        let e = extent(segments, p, k);
        if vertical_at(segments[k - 1], p) {
            assert(e.0 < e.1);
            if e0.0 < e0.1 {
                let m0 = choose|m: int|
                    0 <= m < k - 1 && vertical_at(#[trigger] segments[m], p) && (segments[m].0.2
                        == e0.0 || segments[m].1.2 == e0.0);
                let m1 = choose|m: int|
                    0 <= m < k - 1 && vertical_at(#[trigger] segments[m], p) && (segments[m].0.2
                        == e0.1 || segments[m].1.2 == e0.1);
                let w0 = if e.0 == e0.0 {
                    m0
                } else {
                    k - 1
                };
                let w1 = if e.1 == e0.1 {
                    m1
                } else {
                    k - 1
                };
                assert(vertical_at(segments[w0], p) && (segments[w0].0.2 == e.0 || segments[w0].1.2
                    == e.0));
                assert(vertical_at(segments[w1], p) && (segments[w1].0.2 == e.1 || segments[w1].1.2
                    == e.1));
            } else {
                assert(vertical_at(segments[k - 1], p) && (segments[k - 1].0.2 == e.0 || segments[k
                    - 1].1.2 == e.0));
                assert(vertical_at(segments[k - 1], p) && (segments[k - 1].0.2 == e.1 || segments[k
                    - 1].1.2 == e.1));
            }
        } else {
            if e0.0 < e0.1 {
                let m0 = choose|m: int|
                    0 <= m < k - 1 && vertical_at(#[trigger] segments[m], p) && (segments[m].0.2
                        == e0.0 || segments[m].1.2 == e0.0);
                let m1 = choose|m: int|
                    0 <= m < k - 1 && vertical_at(#[trigger] segments[m], p) && (segments[m].0.2
                        == e0.1 || segments[m].1.2 == e0.1);
                assert(vertical_at(segments[m0], p) && (segments[m0].0.2 == e.0 || segments[m0].1.2
                    == e.0));
                assert(vertical_at(segments[m1], p) && (segments[m1].0.2 == e.1 || segments[m1].1.2
                    == e.1));
            }
        }
    }
}

/// How far `q` lies ahead of `p` in the planar direction `t`; negative where it lies behind.
pub open spec fn ahead(p: Pair<usize>, q: Pair<usize>, t: Towards) -> int {
    match t {
        Towards::Right => q.0 - p.0,
        Towards::Left => p.0 - q.0,
        Towards::Up => q.1 - p.1,
        Towards::Down => p.1 - q.1,
        _ => 0,
    }
}

/// The planar segment `s` passes over the position `p`, its ends included.
pub open spec fn covers(s: Route<usize>, p: Pair<usize>) -> bool {
    if s.0.0 != s.1.0 {
        s.0.1 == s.1.1 && s.0.2 == s.1.2 && p.1 == s.0.1 && (s.0.0 <= p.0 <= s.1.0 || s.1.0 <= p.0
            <= s.0.0)
    } else if s.0.1 != s.1.1 {
        s.0.2 == s.1.2 && p.0 == s.0.0 && (s.0.1 <= p.1 <= s.1.1 || s.1.1 <= p.1 <= s.0.1)
    } else {
        false
    }
}

/// Some segment passes over both `p` and `q`.
pub open spec fn joined_by(segments: Seq<Route<usize>>, p: Pair<usize>, q: Pair<usize>) -> bool {
    exists|m: int| 0 <= m < segments.len() && covers(#[trigger] segments[m], p) && covers(segments[m], q)
}

/// Some segment on layer `h` passes over both `p` and `q`.
pub open spec fn fragment_of(segments: Seq<Route<usize>>, p: Pair<usize>, q: Pair<usize>, h: usize) -> bool {
    exists|m: int|
        0 <= m < segments.len() && covers(#[trigger] segments[m], p) && covers(segments[m], q)
            && segments[m].0.2 == h
}

/// The relation between the sites of a net that the builder joins: two sites that one segment
/// passes over.
pub open spec fn site_adj(pins: Seq<(usize, Pair<usize>)>, segments: Seq<Route<usize>>) -> spec_fn(
    Pair<usize>,
    Pair<usize>,
) -> bool {
    |p: Pair<usize>, q: Pair<usize>|
        is_site(pins, segments, p) && is_site(pins, segments, q) && joined_by(segments, p, q)
}

/// The net has a site, and its segments lead from every site to every other.
pub open spec fn connectable(pins: Seq<(usize, Pair<usize>)>, segments: Seq<Route<usize>>) -> bool {
    &&& exists|p: Pair<usize>| is_site(pins, segments, p)
    &&& forall|p: Pair<usize>, q: Pair<usize>|
        is_site(pins, segments, p) && is_site(pins, segments, q) ==> #[trigger] reach(
            site_adj(pins, segments),
            p,
            q,
        )
}

/// One for a pointer that is there.
pub open spec fn held(slot: Option<Pointer>) -> nat {
    if slot is Some {
        1
    } else {
        0
    }
}

/// The number of planar pointers of a node.
pub open spec fn degree(node: PosNode) -> nat {
    held(node.up) + held(node.down) + held(node.left) + held(node.right)
}

/// The number of planar pointers of the first `k` nodes.
pub open spec fn pointer_count(nodes: Seq<PosNode>, k: int) -> nat
    decreases k,
{
    if k <= 0 {
        0
    } else {
        pointer_count(nodes, k - 1) + degree(nodes[k - 1])
    }
}

/// `node` with the pointer `p` in direction `t`.
pub open spec fn with_slot(node: PosNode, t: Towards, p: Pointer) -> PosNode {
    match t {
        Towards::Up => PosNode { up: Some(p), ..node },
        Towards::Down => PosNode { down: Some(p), ..node },
        Towards::Left => PosNode { left: Some(p), ..node },
        Towards::Right => PosNode { right: Some(p), ..node },
        Towards::Top => PosNode { top: Some(p), ..node },
        Towards::Bottom => PosNode { bottom: Some(p), ..node },
    }
}

/// `a` and `b` have the same representative.
pub open spec fn same_class(roots: Seq<int>, a: int, b: int) -> bool {
    roots[a] == roots[b]
}

/// Everything but the planar pointers is the same in `after` as in `before`.
pub open spec fn frame(before: Seq<PosNode>, after: Seq<PosNode>) -> bool {
    &&& after.len() == before.len()
    &&& forall|i: int|
        0 <= i < before.len() ==> {
            &&& (#[trigger] after[i]).position == before[i].position
            &&& after[i].id == before[i].id
            &&& after[i].top == before[i].top
            &&& after[i].bottom == before[i].bottom
        }
}

/// What the pointer of node `i` in direction `t`, if there is one, has from the classes and
/// the segments: its two ends are in one class, and a segment on its layer passes over both.
pub open spec fn edge_from(
    nodes: Seq<PosNode>,
    roots: Seq<int>,
    segments: Seq<Route<usize>>,
    i: int,
    t: Towards,
) -> bool {
    nodes[i].slot(t) matches Some(p) ==> {
        &&& same_class(roots, i, p.index as int)
        &&& fragment_of(
            segments,
            node_positions(nodes)[i],
            node_positions(nodes)[p.index as int],
            p.height,
        )
    }
}

/// The state between two steps of the construction, the first `k` segments done: pointers as
/// in a tree, each inside one class and along a segment; each class held together by
/// pointers; one pointer pair per class lost; and the nodes under each segment done in one
/// class.
pub open spec fn forest(
    nodes: Seq<PosNode>,
    roots: Seq<int>,
    segments: Seq<Route<usize>>,
    k: int,
) -> bool {
    let ps = node_positions(nodes);
    let n = nodes.len();
    &&& roots.len() == n
    &&& strictly_sorted(ps)
    &&& forall|i: int, t: Towards| 0 <= i < n && t.planar() ==> #[trigger] edge_ok(nodes, i, t)
    &&& forall|i: int, t: Towards|
        0 <= i < n && t.planar() ==> #[trigger] edge_from(nodes, roots, segments, i, t)
    &&& forall|i: int, j: int|
        0 <= i < n && 0 <= j < n && #[trigger] same_class(roots, i, j) ==> reach(
            tree_adj(nodes),
            i,
            j,
        )
    &&& pointer_count(nodes, n as int) + 2 * num_components(roots) == 2 * n
    &&& forall|m: int, c: int, d: int|
        0 <= m < k && 0 <= c < n && 0 <= d < n && #[trigger] covers(segments[m], ps[c])
            && #[trigger] covers(segments[m], ps[d]) ==> same_class(roots, c, d)
}

/// In a strictly sorted list, equal positions have equal indices.
pub proof fn lemma_distinct(ps: Seq<Pair<usize>>, i: int, j: int)
    requires
        strictly_sorted(ps),
        0 <= i < ps.len(),
        0 <= j < ps.len(),
        ps[i] == ps[j],
    ensures
        i == j,
{
    if i < j {
        assert(pos_lt(ps[i], ps[j]));
    } else if j < i {
        assert(pos_lt(ps[j], ps[i]));
    }
}

/// Nodes that differ in two places only differ in pointer count by what those two differ.
pub proof fn lemma_pointer_count_change(
    before: Seq<PosNode>,
    after: Seq<PosNode>,
    k: int,
    a: int,
    b: int,
)
    requires
        before.len() == after.len(),
        0 <= k <= before.len(),
        0 <= a < before.len(),
        0 <= b < before.len(),
        a != b,
        forall|i: int| 0 <= i < before.len() && i != a && i != b ==> before[i] == after[i],
    ensures
        pointer_count(after, k) + (if a < k {
            degree(before[a])
        } else {
            0
        }) + (if b < k {
            degree(before[b])
        } else {
            0
        }) == pointer_count(before, k) + (if a < k {
            degree(after[a])
        } else {
            0
        }) + (if b < k {
            degree(after[b])
        } else {
            0
        }),
    decreases k,
{
    if k > 0 {
        lemma_pointer_count_change(before, after, k - 1, a, b);
    }
}

/// Nodes without planar pointers have a pointer count of zero.
pub proof fn lemma_pointer_count_zero(nodes: Seq<PosNode>, k: int)
    requires
        0 <= k <= nodes.len(),
        forall|i: int| 0 <= i < nodes.len() ==> degree(#[trigger] nodes[i]) == 0,
    ensures
        pointer_count(nodes, k) == 0,
    decreases k,
{
    if k > 0 {
        lemma_pointer_count_zero(nodes, k - 1);
    }
}

/// The index of the node at position `p`, if there is one.
pub fn find_node(nodes: &Vec<PosNode>, p: &Pair<usize>) -> (res: Option<usize>)
    ensures
        match res {
            Some(i) => i < nodes@.len() && node_positions(nodes@)[i as int] == *p,
            None => !occurs(node_positions(nodes@), *p),
        },
{
    let mut i: usize = 0;
    while i < nodes.len()
        invariant
            0 <= i <= nodes@.len(),
            forall|k: int| 0 <= k < i ==> #[trigger] node_positions(nodes@)[k] != *p,
        decreases nodes@.len() - i,
    {
        if pos_same(&nodes[i].position, p) {
            return Some(i);
        }
        i += 1;
    }
    None
}

/// How far `q` lies ahead of `p` in direction `t`, where it lies ahead on the same row or column.
pub fn ahead_of(p: &Pair<usize>, q: &Pair<usize>, t: Towards) -> (res: Option<usize>)
    ensures
        match res {
            Some(d) => in_direction(*p, *q, t) && d == ahead(*p, *q, t),
            None => !in_direction(*p, *q, t),
        },
{
    match t {
        Towards::Right => if q.1 == p.1 && q.0 > p.0 {
            Some(q.0 - p.0)
        } else {
            None
        },
        Towards::Left => if q.1 == p.1 && q.0 < p.0 {
            Some(p.0 - q.0)
        } else {
            None
        },
        Towards::Up => if q.0 == p.0 && q.1 > p.1 {
            Some(q.1 - p.1)
        } else {
            None
        },
        Towards::Down => if q.0 == p.0 && q.1 < p.1 {
            Some(p.1 - q.1)
        } else {
            None
        },
        _ => None,
    }
}

/// The node next to `cur` in direction `t`, given a node `far` that lies in that direction.
pub fn nearest(nodes: &Vec<PosNode>, cur: usize, t: Towards, far: usize) -> (res: usize)
    requires
        cur < nodes@.len(),
        far < nodes@.len(),
        in_direction(node_positions(nodes@)[cur as int], node_positions(nodes@)[far as int], t),
    ensures
        res < nodes@.len(),
        in_direction(node_positions(nodes@)[cur as int], node_positions(nodes@)[res as int], t),
        forall|c: int|
            0 <= c < nodes@.len() && in_direction(
                node_positions(nodes@)[cur as int],
                #[trigger] node_positions(nodes@)[c],
                t,
            ) ==> ahead(node_positions(nodes@)[cur as int], node_positions(nodes@)[res as int], t)
                <= ahead(node_positions(nodes@)[cur as int], node_positions(nodes@)[c], t),
{
    let ghost ps = node_positions(nodes@);
    let here = nodes[cur].position;
    let mut best: usize = far;
    let mut best_gap: usize = match ahead_of(&here, &nodes[far].position, t) {
        Some(d) => d,
        None => 0,
    };
    let mut c: usize = 0;
    while c < nodes.len()
        invariant
            0 <= c <= nodes@.len(),
            cur < nodes@.len(),
            ps == node_positions(nodes@),
            here == ps[cur as int],
            best < nodes@.len(),
            in_direction(here, ps[best as int], t),
            best_gap == ahead(here, ps[best as int], t),
            forall|k: int|
                0 <= k < c && in_direction(here, #[trigger] ps[k], t) ==> best_gap <= ahead(
                    here,
                    ps[k],
                    t,
                ),
        decreases nodes@.len() - c,
    {
        match ahead_of(&here, &nodes[c].position, t) {
            Some(d) => {
                if d < best_gap {
                    best = c;
                    best_gap = d;
                }
            },
            None => {},
        }
        c += 1;
    }
    best
}

impl NetTree {
    /// The invariant of a net tree.
    pub open spec fn wf(&self) -> bool {
        tree_wf(self.nodes@)
    }

    /// Installs the pointer pair between nodes `a` and `b`: `a` points at `b` in direction
    /// `t`, and `b` points back in the opposite direction, both at `height`.
    pub fn connect(&mut self, a: usize, b: usize, height: usize, t: Towards)
        requires
            a < old(self).nodes@.len(),
            b < old(self).nodes@.len(),
            a != b,
        ensures
            final(self).nodes@ == old(self).nodes@.update(
                a as int,
                with_slot(old(self).nodes@[a as int], t, Pointer { index: b, height }),
            ).update(
                b as int,
                with_slot(old(self).nodes@[b as int], t.opposite(), Pointer { index: a, height }),
            ),
    {
        let there = set_slot(self.nodes[a], t, Pointer { index: b, height });
        self.nodes[a] = there;
        let back = set_slot(self.nodes[b], t.neg(), Pointer { index: a, height });
        self.nodes[b] = back;
    }
}

/// `node` with the pointer `p` in direction `t`.
pub fn set_slot(node: PosNode, t: Towards, p: Pointer) -> (res: PosNode)
    ensures
        res == with_slot(node, t, p),
{
    let mut res = node;
    match t {
        Towards::Up => {
            res.up = Some(p);
        },
        Towards::Down => {
            res.down = Some(p);
        },
        Towards::Left => {
            res.left = Some(p);
        },
        Towards::Right => {
            res.right = Some(p);
        },
        Towards::Top => {
            res.top = Some(p);
        },
        Towards::Bottom => {
            res.bottom = Some(p);
        },
    }
    res
}

/// A `union` keeps together what was together, and puts its two arguments together.
pub proof fn lemma_union_grows(pre: Seq<int>, a: int, b: int, post: Seq<int>, merged: bool)
    requires
        is_partition(pre),
        0 <= a < pre.len(),
        0 <= b < pre.len(),
        union_step(pre, a, b, post, merged),
    ensures
        same_class(post, a, b),
        forall|x: int, y: int|
            0 <= x < pre.len() && 0 <= y < pre.len() && same_class(pre, x, y)
                ==> #[trigger] same_class(post, x, y),
        merged ==> forall|x: int, y: int|
            0 <= x < pre.len() && 0 <= y < pre.len() && #[trigger] same_class(post, x, y)
                ==> same_class(pre, x, y) || ((same_class(pre, x, a) || same_class(pre, x, b)) && (
            same_class(pre, y, a) || same_class(pre, y, b))),
{
    if merged {
        let w = if merged_into(pre, a, b, post, pre[a]) {
            pre[a]
        } else {
            pre[b]
        };
        assert(merged_into(pre, a, b, post, w));
        assert(post[a] == w && post[b] == w);
        assert forall|x: int, y: int|
            0 <= x < pre.len() && 0 <= y < pre.len() && same_class(pre, x, y) implies #[trigger] same_class(
            post,
            x,
            y,
        ) by {
            assert(post[x] == post[y]);
        }
        assert forall|x: int, y: int|
            0 <= x < pre.len() && 0 <= y < pre.len() && #[trigger] same_class(
                post,
                x,
                y,
            ) implies same_class(pre, x, y) || ((same_class(pre, x, a) || same_class(pre, x, b)) && (
            same_class(pre, y, a) || same_class(pre, y, b))) by {
            assert(post[x] == post[y]);
            assert(pre[pre[a]] == pre[a]);
            assert(pre[pre[b]] == pre[b]);
        }
    }
}

/// The node next to `cur` in direction `t` is the one that a pointer of `cur` in that direction
/// names, and the one whose pointer in the opposite direction names `cur`. So two neighbours in
/// different classes hold no pointer towards each other.
pub proof fn lemma_slots_free(
    nodes: Seq<PosNode>,
    roots: Seq<int>,
    segments: Seq<Route<usize>>,
    k: int,
    cur: int,
    j: int,
    t: Towards,
)
    requires
        forest(nodes, roots, segments, k),
        0 <= cur < nodes.len(),
        0 <= j < nodes.len(),
        t.planar(),
        in_direction(node_positions(nodes)[cur], node_positions(nodes)[j], t),
        forall|c: int|
            0 <= c < nodes.len() && in_direction(
                node_positions(nodes)[cur],
                #[trigger] node_positions(nodes)[c],
                t,
            ) ==> ahead(node_positions(nodes)[cur], node_positions(nodes)[j], t) <= ahead(
                node_positions(nodes)[cur],
                node_positions(nodes)[c],
                t,
            ),
        !same_class(roots, cur, j),
    ensures
        nodes[cur].slot(t) is None,
        nodes[j].slot(t.opposite()) is None,
        atomic(node_positions(nodes), cur, j),
{
    let ps = node_positions(nodes);
    assert forall|c: int| 0 <= c < ps.len() implies !between(ps[cur], ps[j], #[trigger] ps[c]) by {
        if between(ps[cur], ps[j], ps[c]) {
            assert(in_direction(ps[cur], ps[c], t));
        }
    }
    if nodes[cur].slot(t) is Some {
        let p = nodes[cur].slot(t)->0;
        assert(edge_ok(nodes, cur, t));
        assert(edge_from(nodes, roots, segments, cur, t));
        let q = p.index as int;
        assert(in_direction(ps[cur], ps[q], t));
        assert(ahead(ps[cur], ps[j], t) <= ahead(ps[cur], ps[q], t));
        if ps[q] != ps[j] {
            assert(between(ps[cur], ps[q], ps[j]));
            assert(false);
        }
        lemma_distinct(ps, q, j);
    }
    if nodes[j].slot(t.opposite()) is Some {
        let p = nodes[j].slot(t.opposite())->0;
        t.lemma_opposite();
        assert(edge_ok(nodes, j, t.opposite()));
        assert(edge_from(nodes, roots, segments, j, t.opposite()));
        let q = p.index as int;
        assert(in_direction(ps[j], ps[q], t.opposite()));
        if ps[q] != ps[cur] {
            if between(ps[j], ps[q], ps[cur]) {
                assert(false);
            } else {
                assert(in_direction(ps[cur], ps[q], t));
                assert(ahead(ps[cur], ps[q], t) < ahead(ps[cur], ps[j], t));
                assert(false);
            }
        }
        lemma_distinct(ps, q, cur);
    }
}

/// The pointers stay those of a tree when a pair is installed between two neighbours whose
/// slots towards each other were free.
pub proof fn lemma_link_edges(
    before: Seq<PosNode>,
    after: Seq<PosNode>,
    cur: int,
    j: int,
    t: Towards,
    h: usize,
)
    requires
        before.len() <= usize::MAX,
        0 <= cur < before.len(),
        0 <= j < before.len(),
        cur != j,
        t.planar(),
        forall|i: int, d: Towards|
            0 <= i < before.len() && d.planar() ==> #[trigger] edge_ok(before, i, d),
        before[cur].slot(t) is None,
        before[j].slot(t.opposite()) is None,
        in_direction(node_positions(before)[cur], node_positions(before)[j], t),
        atomic(node_positions(before), cur, j),
        after == before.update(
            cur,
            with_slot(before[cur], t, Pointer { index: j as usize, height: h }),
        ).update(j, with_slot(before[j], t.opposite(), Pointer { index: cur as usize, height: h })),
    ensures
        node_positions(after) == node_positions(before),
        frame(before, after),
        forall|i: int, d: Towards|
            0 <= i < after.len() && d.planar() ==> #[trigger] edge_ok(after, i, d),
        forall|i: int, d: Towards|
            0 <= i < after.len() && !(i == cur && d == t) && !(i == j && d == t.opposite())
                ==> #[trigger] after[i].slot(d) == before[i].slot(d),
        after[cur].slot(t) == Some(Pointer { index: j as usize, height: h }),
        after[j].slot(t.opposite()) == Some(Pointer { index: cur as usize, height: h }),
        degree(after[cur]) == degree(before[cur]) + 1,
        degree(after[j]) == degree(before[j]) + 1,
{
    let ps = node_positions(before);
    t.lemma_opposite();
    assert(node_positions(after) =~= ps);
    assert forall|i: int, d: Towards|
        0 <= i < after.len() && !(i == cur && d == t) && !(i == j && d == t.opposite()) implies #[trigger] after[i].slot(
        d,
    ) == before[i].slot(d) by {}
    assert forall|c: int| 0 <= c < ps.len() implies !between(ps[j], ps[cur], #[trigger] ps[c]) by {
        assert(!between(ps[cur], ps[j], ps[c]));
    }
    assert forall|i: int, d: Towards| 0 <= i < after.len() && d.planar() implies #[trigger] edge_ok(
        after,
        i,
        d,
    ) by {
        d.lemma_opposite();
        if i == cur && d == t {
        } else if i == j && d == t.opposite() {
        } else {
            assert(after[i].slot(d) == before[i].slot(d));
            assert(edge_ok(before, i, d));
            if before[i].slot(d) is Some {
                let p = before[i].slot(d)->0;
                let q = p.index as int;
                assert(after[q].slot(d.opposite()) == before[q].slot(d.opposite()));
            }
        }
    }
}

/// The state of the construction after a `union` has merged the classes of two neighbours on
/// a segment and their pointer pair has been installed.
pub proof fn lemma_link(
    before: Seq<PosNode>,
    after: Seq<PosNode>,
    pre: Seq<int>,
    post: Seq<int>,
    segments: Seq<Route<usize>>,
    k: int,
    m: int,
    cur: int,
    j: int,
    t: Towards,
)
    requires
        forest(before, pre, segments, k),
        is_partition(pre),
        before.len() <= usize::MAX,
        0 <= cur < before.len(),
        0 <= j < before.len(),
        t.planar(),
        0 <= m < segments.len(),
        covers(segments[m], node_positions(before)[cur]),
        covers(segments[m], node_positions(before)[j]),
        in_direction(node_positions(before)[cur], node_positions(before)[j], t),
        forall|c: int|
            0 <= c < before.len() && in_direction(
                node_positions(before)[cur],
                #[trigger] node_positions(before)[c],
                t,
            ) ==> ahead(node_positions(before)[cur], node_positions(before)[j], t) <= ahead(
                node_positions(before)[cur],
                node_positions(before)[c],
                t,
            ),
        union_step(pre, cur, j, post, true),
        num_components(pre) == num_components(post) + 1,
        after == before.update(
            cur,
            with_slot(before[cur], t, Pointer { index: j as usize, height: segments[m].0.2 }),
        ).update(
            j,
            with_slot(
                before[j],
                t.opposite(),
                Pointer { index: cur as usize, height: segments[m].0.2 },
            ),
        ),
    ensures
        forest(after, post, segments, k),
        frame(before, after),
{
    let ps = node_positions(before);
    let n = before.len() as int;
    let h = segments[m].0.2;
    t.lemma_opposite();
    lemma_slots_free(before, pre, segments, k, cur, j, t);
    lemma_link_edges(before, after, cur, j, t, h);
    lemma_union_grows(pre, cur, j, post, true);
    assert(node_positions(after) == ps);
    assert forall|i: int, d: Towards| 0 <= i < n && d.planar() implies #[trigger] edge_from(
        after,
        post,
        segments,
        i,
        d,
    ) by {
        if i == cur && d == t {
            assert(fragment_of(segments, ps[cur], ps[j], h));
        } else if i == j && d == t.opposite() {
            assert(same_class(pre, cur, j) ==> same_class(post, j, cur));
            assert(fragment_of(segments, ps[j], ps[cur], h));
        } else {
            assert(after[i].slot(d) == before[i].slot(d));
            assert(edge_from(before, pre, segments, i, d));
            assert(edge_ok(before, i, d));
            if before[i].slot(d) is Some {
                let p = before[i].slot(d)->0;
                assert(same_class(pre, i, p.index as int));
                assert(same_class(post, i, p.index as int));
            }
        }
    }
    let old_adj = tree_adj(before);
    let new_adj = tree_adj(after);
    let id = |i: int| i;
    assert forall|x: int, y: int| #[trigger] old_adj(x, y) implies new_adj(id(x), id(y)) by {
        assert(linked(before, x, y));
        assert(after[x].slot(Towards::Up) == before[x].slot(Towards::Up) || before[x].up is None);
        assert(after[x].slot(Towards::Down) == before[x].slot(Towards::Down) || before[x].down
            is None);
        assert(after[x].slot(Towards::Left) == before[x].slot(Towards::Left) || before[x].left
            is None);
        assert(after[x].slot(Towards::Right) == before[x].slot(Towards::Right) || before[x].right
            is None);
        assert(linked(after, x, y));
    }
    assert(new_adj(cur, j)) by {
        assert(after[cur].slot(t) == Some(Pointer { index: j as usize, height: h }));
        assert(linked(after, cur, j));
    }
    assert(new_adj(j, cur)) by {
        assert(after[j].slot(t.opposite()) == Some(Pointer { index: cur as usize, height: h }));
        assert(linked(after, j, cur));
    }
    lemma_reach_refl(new_adj, cur);
    lemma_reach_refl(new_adj, j);
    lemma_reach_step(new_adj, cur, cur, j);
    lemma_reach_step(new_adj, j, j, cur);
    assert forall|x: int, y: int|
        0 <= x < n && 0 <= y < n && #[trigger] same_class(post, x, y) implies reach(new_adj, x, y) by {
        if same_class(pre, x, y) {
            lemma_reach_map(old_adj, new_adj, id, x, y);
        } else {
            let xa = if same_class(pre, x, cur) {
                cur
            } else {
                j
            };
            let ya = if same_class(pre, y, cur) {
                cur
            } else {
                j
            };
            assert(same_class(pre, x, xa));
            assert(same_class(pre, ya, y));
            lemma_reach_map(old_adj, new_adj, id, x, xa);
            lemma_reach_map(old_adj, new_adj, id, ya, y);
            assert(reach(new_adj, xa, ya));
            lemma_reach_trans(new_adj, x, xa, ya);
            lemma_reach_trans(new_adj, x, ya, y);
        }
    }
    lemma_pointer_count_change(before, after, n, cur, j);
    assert forall|g: int, c: int, d: int|
        0 <= g < k && 0 <= c < n && 0 <= d < n && #[trigger] covers(segments[g], ps[c])
            && #[trigger] covers(segments[g], ps[d]) implies same_class(post, c, d) by {
        assert(same_class(pre, c, d));
    }
}

/// Node `j` is the node next to node `cur` in direction `t`: it lies in that direction, and
/// no node lies between the two.
pub open spec fn is_next(ps: Seq<Pair<usize>>, cur: int, t: Towards, j: int) -> bool {
    &&& 0 <= j < ps.len()
    &&& in_direction(ps[cur], ps[j], t)
    &&& atomic(ps, cur, j)
}

/// The node next to node `cur` in direction `t`.
pub open spec fn next_node(ps: Seq<Pair<usize>>, cur: int, t: Towards) -> int {
    choose|j: int| is_next(ps, cur, t, j)
}

/// The index of the position `p` in `ps`.
pub open spec fn index_of(ps: Seq<Pair<usize>>, p: Pair<usize>) -> int {
    choose|i: int| 0 <= i < ps.len() && #[trigger] ps[i] == p
}

/// `nodes` with the pointer pair between nodes `a` and `b` installed: `a` points at `b` in
/// direction `t`, and `b` points back, both on layer `h`.
pub open spec fn paired(nodes: Seq<PosNode>, a: int, b: int, h: usize, t: Towards) -> Seq<PosNode> {
    nodes.update(a, with_slot(nodes[a], t, Pointer { index: b as usize, height: h })).update(
        b,
        with_slot(nodes[b], t.opposite(), Pointer { index: a as usize, height: h }),
    )
}

/// `nodes` after the piece between the neighbours `a` and `b` has been taken in: it becomes
/// a pointer pair unless pointers lead from `a` to `b` already.
pub open spec fn joined_up(nodes: Seq<PosNode>, a: int, b: int, h: usize, t: Towards) -> Seq<
    PosNode,
> {
    if reach(tree_adj(nodes), a, b) {
        nodes
    } else {
        paired(nodes, a, b, h, t)
    }
}

/// `nodes` after the pieces of the planar segment `s` from node `cur` up to node `to` have
/// been taken in, one after the other.
pub open spec fn routed(
    ps: Seq<Pair<usize>>,
    nodes: Seq<PosNode>,
    s: Route<usize>,
    cur: int,
    to: int,
) -> Seq<PosNode>
    decreases ahead(ps[cur], ps[to], s.spec_towards()),
{
    let t = s.spec_towards();
    let next = next_node(ps, cur, t);
    if 0 <= cur < ps.len() && 0 <= to < ps.len() && in_direction(ps[cur], ps[to], t) && is_next(
        ps,
        cur,
        t,
        next,
    ) && (next == to || in_direction(ps[next], ps[to], t)) {
        routed(ps, joined_up(nodes, cur, next, s.0.2, t), s, next, to)
    } else {
        nodes
    }
}

/// `nodes` after the first `m` segments have been taken in, in order: each planar one piece
/// by piece from its source to its target.
pub open spec fn linked_up(
    ps: Seq<Pair<usize>>,
    nodes: Seq<PosNode>,
    segments: Seq<Route<usize>>,
    m: int,
) -> Seq<PosNode>
    decreases m,
{
    if m <= 0 {
        nodes
    } else {
        let before = linked_up(ps, nodes, segments, m - 1);
        let s = segments[m - 1];
        if s.spec_towards().planar() {
            routed(ps, before, s, index_of(ps, flat(s.0)), index_of(ps, flat(s.1)))
        } else {
            before
        }
    }
}

/// The nodes of a net before any segment is taken in: one at each of the positions `ps`,
/// with its pin and its vertical pointers, and without planar pointers.
pub open spec fn bare_nodes(
    pins: Seq<(usize, Pair<usize>)>,
    segments: Seq<Route<usize>>,
    ps: Seq<Pair<usize>>,
) -> Seq<PosNode> {
    Seq::new(
        ps.len(),
        |i: int|
            PosNode {
                id: pin_at(pins, ps[i]),
                position: ps[i],
                left: None,
                right: None,
                down: None,
                up: None,
                bottom: vertical_slots(i, extent(segments, ps[i], segments.len() as int)).0,
                top: vertical_slots(i, extent(segments, ps[i], segments.len() as int)).1,
            },
    )
}

/// A node has one node next to it in a direction at most.
pub proof fn lemma_next_unique(ps: Seq<Pair<usize>>, cur: int, t: Towards, j: int, k: int)
    requires
        strictly_sorted(ps),
        0 <= cur < ps.len(),
        is_next(ps, cur, t, j),
        is_next(ps, cur, t, k),
    ensures
        j == k,
{
    if ps[j] != ps[k] {
        assert(between(ps[cur], ps[j], ps[k]) || between(ps[cur], ps[k], ps[j]));
    }
    lemma_distinct(ps, j, k);
}

/// Nodes that pointers join are in one class.
pub proof fn lemma_reach_class(
    nodes: Seq<PosNode>,
    roots: Seq<int>,
    segments: Seq<Route<usize>>,
    k: int,
    path: Seq<int>,
    i: int,
)
    requires
        forest(nodes, roots, segments, k),
        path.len() > 0,
        0 <= path[0] < nodes.len(),
        forall|j: int| 0 <= j < path.len() - 1 ==> tree_adj(nodes)(#[trigger] path[j], path[j + 1]),
        0 <= i < path.len(),
    ensures
        0 <= path[i] < nodes.len(),
        same_class(roots, path[0], path[i]),
    decreases i,
{
    if i > 0 {
        lemma_reach_class(nodes, roots, segments, k, path, i - 1);
        let x = path[i - 1];
        let y = path[i];
        assert(tree_adj(nodes)(path[i - 1], path[i - 1 + 1]));
        assert(linked(nodes, x, y));
        let t = if points_to(nodes[x].up, y) {
            Towards::Up
        } else if points_to(nodes[x].down, y) {
            Towards::Down
        } else if points_to(nodes[x].left, y) {
            Towards::Left
        } else {
            Towards::Right
        };
        assert(edge_from(nodes, roots, segments, x, t));
    }
}

/// The nodes under the segment `s` that lie no further from node `from` than node `cur` are
/// in the class of `from`.
pub open spec fn walked(
    ps: Seq<Pair<usize>>,
    roots: Seq<int>,
    s: Route<usize>,
    from: int,
    cur: int,
    t: Towards,
) -> bool {
    forall|c: int|
        0 <= c < ps.len() && covers(s, #[trigger] ps[c]) && ahead(ps[from], ps[c], t) <= ahead(
            ps[from],
            ps[cur],
            t,
        ) ==> same_class(roots, c, from)
}

/// Splits the planar segment `m` at every node under it and joins each pair of neighbours,
/// with a pointer pair wherever that merges two classes.
fn route_segment(tree: &mut NetTree, uf: &mut UnionFind, segments: &Vec<Route<usize>>, m: usize)
    requires
        m < segments@.len(),
        segments@[m as int].axis_aligned(),
        old(uf).wf(),
        forest(old(tree).nodes@, old(uf)@, segments@, m as int),
        occurs(node_positions(old(tree).nodes@), flat(segments@[m as int].0)),
        occurs(node_positions(old(tree).nodes@), flat(segments@[m as int].1)),
    ensures
        final(uf).wf(),
        forest(final(tree).nodes@, final(uf)@, segments@, m + 1),
        frame(old(tree).nodes@, final(tree).nodes@),
        final(tree).nodes@ == if segments@[m as int].spec_towards().planar() {
            routed(
                node_positions(old(tree).nodes@),
                old(tree).nodes@,
                segments@[m as int],
                index_of(node_positions(old(tree).nodes@), flat(segments@[m as int].0)),
                index_of(node_positions(old(tree).nodes@), flat(segments@[m as int].1)),
            )
        } else {
            old(tree).nodes@
        },
{
    let s = segments[m];
    let t = s.towards();
    let ghost ps = node_positions(tree.nodes@);
    let ghost n = tree.nodes@.len() as int;

    if !t.is_planar() {
        proof {
            assert forall|c: int| 0 <= c < n implies !covers(s, #[trigger] ps[c]) by {}
        }
        return ;
    }
    let from = match find_node(&tree.nodes, &Pair(s.0.0, s.0.1)) {
        Some(i) => i,
        None => {
            return ;
        },
    };
    let to = match find_node(&tree.nodes, &Pair(s.1.0, s.1.1)) {
        Some(i) => i,
        None => {
            return ;
        },
    };
    let mut cur: usize = from;
    let count = tree.nodes.len();
    proof {
        lemma_distinct(ps, index_of(ps, flat(s.0)), from as int);
        lemma_distinct(ps, index_of(ps, flat(s.1)), to as int);
        uf.lemma_view_partition();
        assert forall|c: int|
            0 <= c < ps.len() && covers(s, #[trigger] ps[c]) && ahead(ps[from as int], ps[c], t)
                <= ahead(ps[from as int], ps[cur as int], t) implies same_class(uf@, c, from as int) by {
            lemma_distinct(ps, c, from as int);
        }
    }
    while cur != to
        invariant
            m < segments@.len(),
            s == segments@[m as int],
            s.axis_aligned(),
            t == s.spec_towards(),
            t.planar(),
            uf.wf(),
            forest(tree.nodes@, uf@, segments@, m as int),
            frame(old(tree).nodes@, tree.nodes@),
            ps == node_positions(tree.nodes@),
            n == tree.nodes@.len(),
            n == count,
            from < n,
            to < n,
            cur < n,
            ps[from as int] == flat(s.0),
            ps[to as int] == flat(s.1),
            covers(s, ps[cur as int]),
            cur == to || in_direction(ps[cur as int], ps[to as int], t),
            walked(ps, uf@, s, from as int, cur as int, t),
            routed(ps, tree.nodes@, s, cur as int, to as int) == routed(
                ps,
                old(tree).nodes@,
                s,
                from as int,
                to as int,
            ),
        decreases ahead(ps[cur as int], ps[to as int], t),
    {
        let next = nearest(&tree.nodes, cur, t, to);
        let ghost before = tree.nodes@;
        let ghost pre = uf@;
        proof {
            uf.lemma_view_partition();
            if ps[next as int] == ps[cur as int] {
                lemma_distinct(ps, next as int, cur as int);
            }
            // the node found is the node next to `cur`, and the pieces go on from it
            assert forall|c: int| 0 <= c < ps.len() implies !between(
                ps[cur as int],
                ps[next as int],
                #[trigger] ps[c],
            ) by {
                if between(ps[cur as int], ps[next as int], ps[c]) {
                    assert(in_direction(ps[cur as int], ps[c], t));
                }
            }
            assert(is_next(ps, cur as int, t, next as int));
            lemma_next_unique(ps, cur as int, t, next as int, next_node(ps, cur as int, t));
            if next != to && ps[next as int] == ps[to as int] {
                lemma_distinct(ps, next as int, to as int);
            }
            assert(routed(ps, before, s, cur as int, to as int) == routed(
                ps,
                joined_up(before, cur as int, next as int, s.0.2, t),
                s,
                next as int,
                to as int,
            ));
            // pointers lead from `cur` to `next` just when the two are in one class
            if reach(tree_adj(before), cur as int, next as int) {
                let path = choose|path: Seq<int>|
                    is_path(tree_adj(before), path, cur as int, next as int);
                lemma_reach_class(before, pre, segments@, m as int, path, path.len() - 1);
            }
            if same_class(pre, cur as int, next as int) {
                assert(reach(tree_adj(before), cur as int, next as int));
            }
        }
        let merged = uf.union(cur, next);
        proof {
            lemma_union_grows(pre, cur as int, next as int, uf@, merged);
        }
        if merged {
            tree.connect(cur, next, s.0.2, t);
            proof {
                lemma_link(
                    before,
                    tree.nodes@,
                    pre,
                    uf@,
                    segments@,
                    m as int,
                    m as int,
                    cur as int,
                    next as int,
                    t,
                );
                assert(frame(old(tree).nodes@, tree.nodes@));
                assert(tree.nodes@ == paired(before, cur as int, next as int, s.0.2, t));
            }
        } else {
            proof {
                assert(uf@ =~= pre);
            }
        }
        proof {
            assert(tree.nodes@ == joined_up(before, cur as int, next as int, s.0.2, t));
        }
        proof {
            assert(ps == node_positions(tree.nodes@));
            if next != to {
                if ps[next as int] == ps[to as int] {
                    lemma_distinct(ps, next as int, to as int);
                }
            }
            assert forall|c: int|
                0 <= c < ps.len() && covers(s, #[trigger] ps[c]) && ahead(ps[from as int], ps[c], t)
                    <= ahead(ps[from as int], ps[next as int], t) implies same_class(
                uf@,
                c,
                from as int,
            ) by {
                if ahead(ps[from as int], ps[c], t) <= ahead(ps[from as int], ps[cur as int], t) {
                    assert(same_class(pre, c, from as int));
                } else {
                    assert(in_direction(ps[cur as int], ps[c], t));
                    assert(ahead(ps[cur as int], ps[next as int], t) <= ahead(
                        ps[cur as int],
                        ps[c],
                        t,
                    ));
                    lemma_distinct(ps, c, next as int);
                    assert(same_class(pre, cur as int, from as int));
                    assert(same_class(uf@, cur as int, from as int));
                    assert(same_class(uf@, cur as int, next as int));
                }
            }
        }
        cur = next;
    }
    proof {
        assert forall|g: int, c: int, d: int|
            0 <= g < m + 1 && 0 <= c < n && 0 <= d < n && #[trigger] covers(segments@[g], ps[c])
                && #[trigger] covers(segments@[g], ps[d]) implies same_class(uf@, c, d) by {
            if g == m {
                assert(same_class(uf@, c, from as int));
                assert(same_class(uf@, d, from as int));
            }
        }
        assert(routed(ps, tree.nodes@, s, to as int, to as int) == tree.nodes@);
    }
}

/// The vertical pointers of node `i` for the extent `e` of the vertical segments at its
/// position: none where no such segment is there, else the node itself at either end.
pub open spec fn vertical_slots(i: int, e: (usize, usize)) -> (Option<Pointer>, Option<Pointer>) {
    if e.0 < e.1 {
        (
            Some(Pointer { index: i as usize, height: e.0 }),
            Some(Pointer { index: i as usize, height: e.1 }),
        )
    } else {
        (None, None)
    }
}

/// Every node can be reached from the first by planar pointers, and there is one pointer pair
/// less than there are nodes: the pointers form one tree over all nodes.
pub open spec fn spanning(nodes: Seq<PosNode>) -> bool {
    &&& nodes.len() > 0
    &&& forall|i: int| 0 <= i < nodes.len() ==> #[trigger] reach(tree_adj(nodes), 0, i)
    &&& pointer_count(nodes, nodes.len() as int) == 2 * (nodes.len() - 1)
}

/// What the tree built for a net has from the net's pins and segments: it is well formed
/// and spans its nodes; its nodes lie at the sites of the net, each named after the first pin
/// at its position and with the vertical pointers that the vertical segments there give it;
/// every planar pointer lies along a segment of its layer; and the pointers are those that
/// come of taking in the segments one by one, piece by piece.
pub open spec fn built_from(
    nodes: Seq<PosNode>,
    pins: Seq<(usize, Pair<usize>)>,
    segments: Seq<Route<usize>>,
) -> bool {
    let ps = node_positions(nodes);
    &&& tree_wf(nodes)
    &&& spanning(nodes)
    &&& forall|p: Pair<usize>| #[trigger] occurs(ps, p) <==> is_site(pins, segments, p)
    &&& forall|i: int| 0 <= i < nodes.len() ==> (#[trigger] nodes[i]).id == pin_at(pins, ps[i])
    &&& forall|i: int|
        0 <= i < nodes.len() ==> ((#[trigger] nodes[i]).bottom, nodes[i].top) == vertical_slots(
            i,
            extent(segments, ps[i], segments.len() as int),
        )
    &&& forall|i: int, t: Towards|
        0 <= i < nodes.len() && t.planar() ==> (#[trigger] nodes[i].slot(t) matches Some(p)
            ==> fragment_of(segments, ps[i], ps[p.index as int], p.height))
    &&& nodes == linked_up(ps, bare_nodes(pins, segments, ps), segments, segments.len() as int)
}

/// The nodes on a chain of sites, each joined to the next by a segment, are in the class of
/// the node where the chain starts, once all segments are done.
pub proof fn lemma_site_path(
    nodes: Seq<PosNode>,
    roots: Seq<int>,
    pins: Seq<(usize, Pair<usize>)>,
    segments: Seq<Route<usize>>,
    path: Seq<Pair<usize>>,
    a: int,
    k: int,
)
    requires
        forest(nodes, roots, segments, segments.len() as int),
        forall|p: Pair<usize>| #[trigger]
            occurs(node_positions(nodes), p) <==> is_site(pins, segments, p),
        0 <= a < nodes.len(),
        0 <= k < path.len(),
        path[0] == node_positions(nodes)[a],
        forall|i: int|
            0 <= i < path.len() - 1 ==> site_adj(pins, segments)(#[trigger] path[i], path[i + 1]),
    ensures
        exists|c: int|
            0 <= c < nodes.len() && #[trigger] node_positions(nodes)[c] == path[k] && same_class(
                roots,
                a,
                c,
            ),
    decreases k,
{
    let ps = node_positions(nodes);
    if k == 0 {
        assert(ps[a] == path[0] && same_class(roots, a, a));
    } else {
        lemma_site_path(nodes, roots, pins, segments, path, a, k - 1);
        let c = choose|c: int|
            0 <= c < nodes.len() && #[trigger] ps[c] == path[k - 1] && same_class(roots, a, c);
        assert(site_adj(pins, segments)(path[k - 1], path[k - 1 + 1]));
        assert(occurs(ps, path[k]));
        let d = choose|d: int| 0 <= d < ps.len() && #[trigger] ps[d] == path[k];
        let g = choose|g: int|
            0 <= g < segments.len() && covers(#[trigger] segments[g], path[k - 1]) && covers(
                segments[g],
                path[k],
            );
        assert(covers(segments[g], ps[c]) && covers(segments[g], ps[d]));
        assert(same_class(roots, c, d));
        assert(ps[d] == path[k] && same_class(roots, a, d));
    }
}

/// Every pointer of a tree whose pointers each lie along a segment joins two sites that a
/// segment joins.
pub proof fn lemma_tree_step_is_site_step(
    nodes: Seq<PosNode>,
    roots: Seq<int>,
    pins: Seq<(usize, Pair<usize>)>,
    segments: Seq<Route<usize>>,
    k: int,
    x: int,
    y: int,
)
    requires
        forest(nodes, roots, segments, k),
        forall|p: Pair<usize>| #[trigger]
            occurs(node_positions(nodes), p) <==> is_site(pins, segments, p),
        linked(nodes, x, y),
    ensures
        site_adj(pins, segments)(node_positions(nodes)[x], node_positions(nodes)[y]),
{
    let ps = node_positions(nodes);
    assert(occurs(ps, ps[x]));
    assert(occurs(ps, ps[y]));
    let t = if points_to(nodes[x].up, y) {
        Towards::Up
    } else if points_to(nodes[x].down, y) {
        Towards::Down
    } else if points_to(nodes[x].left, y) {
        Towards::Left
    } else {
        Towards::Right
    };
    assert(edge_from(nodes, roots, segments, x, t));
    let p = nodes[x].slot(t)->0;
    let g = choose|g: int|
        0 <= g < segments.len() && covers(#[trigger] segments[g], ps[x]) && covers(
            segments[g],
            ps[p.index as int],
        ) && segments[g].0.2 == p.height;
    assert(covers(segments[g], ps[x]) && covers(segments[g], ps[y]));
}

impl NetTree {
    /// Builds the tree of a net from its connected pins, each with its position, and its
    /// routed segments.
    ///
    /// The nodes are the positions of the pins and of the segment ends, each once, in order of
    /// position. Each planar segment is split at every node under it; walking the pieces in
    /// the order of the segments, a piece becomes a pointer pair where it joins two nodes not
    /// joined before. The vertical segments at a node set its bottom and top pointers.
    /// Fails with `DisconnectedNet` unless the segments join all nodes; a net without pins and
    /// segments has no node and fails as well.
    pub fn build(pins: &Vec<(usize, Pair<usize>)>, segments: &Vec<Route<usize>>) -> (res: Result<
        NetTree,
        Error,
    >)
        requires
            forall|m: int| 0 <= m < segments@.len() ==> (#[trigger] segments@[m]).axis_aligned(),
        ensures
            res is Ok <==> connectable(pins@, segments@),
            res matches Ok(tree) ==> built_from(tree.nodes@, pins@, segments@),
            res matches Err(e) ==> e == Error::DisconnectedNet,
    {
        let positions = collect_positions(pins, segments);
        let count = positions.len();
        let mut nodes: Vec<PosNode> = Vec::new();
        let mut i: usize = 0;
        while i < count
            invariant
                0 <= i <= count,
                count == positions@.len(),
                nodes@.len() == i,
                forall|k: int|
                    0 <= k < i ==> {
                        &&& (#[trigger] nodes@[k]).position == positions@[k]
                        &&& nodes@[k].id == pin_at(pins@, positions@[k])
                        &&& (nodes@[k].bottom, nodes@[k].top) == vertical_slots(
                            k,
                            extent(segments@, positions@[k], segments@.len() as int),
                        )
                        &&& nodes@[k].up is None
                        &&& nodes@[k].down is None
                        &&& nodes@[k].left is None
                        &&& nodes@[k].right is None
                    },
            decreases count - i,
        {
            let position = positions[i];
            let id = pin_for(pins, &position);
            let e = vertical_extent(segments, &position);
            let (bottom, top) = if e.0 < e.1 {
                (Some(Pointer { index: i, height: e.0 }), Some(Pointer { index: i, height: e.1 }))
            } else {
                (None, None)
            };
            nodes.push(
                PosNode { id, position, left: None, right: None, down: None, up: None, bottom, top },
            );
            i += 1;
        }
        let ghost init = nodes@;
        let ghost ps = positions@;
        let mut tree = NetTree { nodes };
        let mut uf = UnionFind::new(count);
        proof {
            assert(node_positions(init) =~= ps);
            assert(init =~= bare_nodes(pins@, segments@, ps));
            assert forall|a: int, d: Towards| 0 <= a < count && d.planar() implies #[trigger] edge_ok(
                init,
                a,
                d,
            ) by {}
            assert forall|a: int, d: Towards|
                0 <= a < count && d.planar() implies #[trigger] edge_from(
                init,
                uf@,
                segments@,
                a,
                d,
            ) by {}
            assert forall|a: int, b: int|
                0 <= a < count && 0 <= b < count && #[trigger] same_class(uf@, a, b) implies reach(
                tree_adj(init),
                a,
                b,
            ) by {
                lemma_reach_refl(tree_adj(init), a);
            }
            assert forall|a: int| 0 <= a < init.len() implies degree(#[trigger] init[a]) == 0 by {}
            lemma_pointer_count_zero(init, count as int);
        }
        let mut m: usize = 0;
        while m < segments.len()
            invariant
                0 <= m <= segments@.len(),
                forall|g: int|
                    0 <= g < segments@.len() ==> (#[trigger] segments@[g]).axis_aligned(),
                uf.wf(),
                forest(tree.nodes@, uf@, segments@, m as int),
                frame(init, tree.nodes@),
                node_positions(tree.nodes@) == ps,
                tree.nodes@ == linked_up(ps, init, segments@, m as int),
                init == bare_nodes(pins@, segments@, ps),
                forall|p: Pair<usize>| #[trigger] occurs(ps, p) <==> is_site(pins@, segments@, p),
            decreases segments@.len() - m,
        {
            proof {
                let s = segments@[m as int];
                assert(is_site(pins@, segments@, flat(s.0)));
                assert(is_site(pins@, segments@, flat(s.1)));
                assert(occurs(ps, flat(s.0)));
                assert(occurs(ps, flat(s.1)));
            }
            route_segment(&mut tree, &mut uf, segments, m);
            proof {
                assert(node_positions(tree.nodes@) =~= ps);
            }
            m += 1;
        }
        let ghost nodes = tree.nodes@;
        let ghost roots = uf@;
        let connected = uf.done();
        proof {
            uf.lemma_view_partition();
            let adj = tree_adj(nodes);
            let sadj = site_adj(pins@, segments@);
            let at = |a: int| ps[a];
            if connected {
                assert(tree_wf(nodes)) by {
                    assert forall|a: int| 0 <= a < nodes.len() implies #[trigger] vertical_ok(
                        nodes,
                        a,
                    ) by {
                        assert(nodes[a].top == init[a].top);
                        assert(nodes[a].bottom == init[a].bottom);
                    }
                }
                assert forall|a: int| 0 <= a < nodes.len() implies #[trigger] reach(adj, 0, a) by {
                    assert(roots[a] == roots[0]);
                    assert(same_class(roots, 0, a));
                }
                assert forall|a: int, t: Towards|
                    0 <= a < nodes.len() && t.planar() implies (#[trigger] nodes[a].slot(
                    t,
                ) matches Some(p) ==> fragment_of(
                    segments@,
                    ps[a],
                    ps[p.index as int],
                    p.height,
                )) by {
                    assert(edge_from(nodes, roots, segments@, a, t));
                }
                assert forall|a: int| 0 <= a < nodes.len() implies (#[trigger] nodes[a]).id
                    == pin_at(pins@, ps[a]) && (nodes[a].bottom, nodes[a].top) == vertical_slots(
                    a,
                    extent(segments@, ps[a], segments@.len() as int),
                ) by {
                    assert(nodes[a].id == init[a].id);
                    assert(nodes[a].top == init[a].top);
                    assert(nodes[a].bottom == init[a].bottom);
                }
                assert(occurs(ps, ps[0]));
                assert(is_site(pins@, segments@, ps[0]));
                assert forall|x: int, y: int| #[trigger] adj(x, y) implies sadj(at(x), at(y)) by {
                    lemma_tree_step_is_site_step(
                        nodes,
                        roots,
                        pins@,
                        segments@,
                        segments@.len() as int,
                        x,
                        y,
                    );
                }
                assert forall|p: Pair<usize>, q: Pair<usize>|
                    is_site(pins@, segments@, p) && is_site(
                        pins@,
                        segments@,
                        q,
                    ) implies #[trigger] reach(sadj, p, q) by {
                    assert(occurs(ps, p));
                    assert(occurs(ps, q));
                    let a = choose|a: int| 0 <= a < ps.len() && #[trigger] ps[a] == p;
                    let b = choose|b: int| 0 <= b < ps.len() && #[trigger] ps[b] == q;
                    assert(roots[a] == roots[0]);
                    assert(roots[b] == roots[0]);
                    assert(same_class(roots, a, b));
                    lemma_reach_map(adj, sadj, at, a, b);
                }
            } else {
                if connectable(pins@, segments@) {
                    let p0 = choose|p: Pair<usize>| is_site(pins@, segments@, p);
                    assert(occurs(ps, p0));
                    assert(nodes.len() > 0);
                    let b = choose|b: int| 0 <= b < roots.len() && #[trigger] roots[b] != roots[0];
                    assert(occurs(ps, ps[0]));
                    assert(occurs(ps, ps[b]));
                    assert(reach(sadj, ps[0], ps[b]));
                    let path = choose|path: Seq<Pair<usize>>| is_path(sadj, path, ps[0], ps[b]);
                    lemma_site_path(
                        nodes,
                        roots,
                        pins@,
                        segments@,
                        path,
                        0,
                        path.len() - 1,
                    );
                    let c = choose|c: int|
                        0 <= c < nodes.len() && #[trigger] ps[c] == path[path.len() - 1]
                            && same_class(roots, 0, c);
                    lemma_distinct(ps, c, b);
                    assert(false);
                }
            }
        }
        if connected {
            Ok(tree)
        } else {
            Err(Error::DisconnectedNet)
        }
    }
}

/// Where some pin from the `from`-th on lies at `p`, the first such pin is the pin at `p`.
pub proof fn lemma_pin_from(pins: Seq<(usize, Pair<usize>)>, p: Pair<usize>, from: int, k: int)
    requires
        0 <= from <= k < pins.len(),
        pins[k].1 == p,
    ensures
        exists|j: int|
            from <= j <= k && (#[trigger] pins[j]).1 == p && pin_from(pins, p, from) == Some(
                pins[j].0,
            ),
    decreases k - from,
{
    if pins[from].1 == p {
        assert(pins[from].1 == p && pin_from(pins, p, from) == Some(pins[from].0));
    } else {
        lemma_pin_from(pins, p, from + 1, k);
        let j = choose|j: int|
            from + 1 <= j <= k && (#[trigger] pins[j]).1 == p && pin_from(pins, p, from + 1)
                == Some(pins[j].0);
        assert(pins[j].1 == p && pin_from(pins, p, from) == Some(pins[j].0));
    }
}

/// Every connected pin is covered by the tree built for its net: a node lies at the pin's
/// position, it can be reached from the first node, it is named after a pin at that position,
/// and its span takes in both layers of every vertical segment at that position.
pub proof fn lemma_pin_coverage(
    nodes: Seq<PosNode>,
    pins: Seq<(usize, Pair<usize>)>,
    segments: Seq<Route<usize>>,
    k: int,
)
    requires
        built_from(nodes, pins, segments),
        0 <= k < pins.len(),
    ensures
        exists|i: int, j: int|
            {
                &&& 0 <= i < nodes.len()
                &&& 0 <= j <= k
                &&& (#[trigger] nodes[i]).position == pins[k].1
                &&& (#[trigger] pins[j]).1 == pins[k].1
                &&& nodes[i].id == Some(pins[j].0)
                &&& reach(tree_adj(nodes), 0, i)
                &&& forall|m: int|
                    0 <= m < segments.len() && vertical_at(#[trigger] segments[m], pins[k].1) ==> {
                        &&& nodes[i].spec_span().0 <= segments[m].0.2 <= nodes[i].spec_span().1
                        &&& nodes[i].spec_span().0 <= segments[m].1.2 <= nodes[i].spec_span().1
                    }
            },
{
    let ps = node_positions(nodes);
    let p = pins[k].1;
    assert(is_site(pins, segments, p));
    assert(occurs(ps, p));
    let i = choose|i: int| 0 <= i < ps.len() && #[trigger] ps[i] == p;
    lemma_pin_from(pins, p, 0, k);
    let j = choose|j: int|
        0 <= j <= k && (#[trigger] pins[j]).1 == p && pin_from(pins, p, 0) == Some(pins[j].0);
    assert(nodes[i].id == pin_at(pins, ps[i]));
    assert(reach(tree_adj(nodes), 0, i));
    lemma_extent(segments, p, segments.len() as int);
    let e = extent(segments, p, segments.len() as int);
    assert((nodes[i].bottom, nodes[i].top) == vertical_slots(i, e));
    assert forall|m: int|
        0 <= m < segments.len() && vertical_at(#[trigger] segments[m], p) implies {
        &&& nodes[i].spec_span().0 <= segments[m].0.2 <= nodes[i].spec_span().1
        &&& nodes[i].spec_span().0 <= segments[m].1.2 <= nodes[i].spec_span().1
    } by {
        assert(e.0 < e.1);
        nodes[i].lemma_span(Towards::Bottom);
        nodes[i].lemma_span(Towards::Top);
    }
    assert(nodes[i].position == pins[k].1 && pins[j].1 == pins[k].1);
}

/// The `d`-th of the four planar directions, in the order of the walk.
pub open spec fn planar_dir(d: int) -> Towards {
    if d == 0 {
        Towards::Up
    } else if d == 1 {
        Towards::Down
    } else if d == 2 {
        Towards::Left
    } else {
        Towards::Right
    }
}

/// The `d`-th of the four planar directions, in the order of the walk.
pub fn nth_dir(d: usize) -> (t: Towards)
    ensures
        t == planar_dir(d as int),
{
    if d == 0 {
        Towards::Up
    } else if d == 1 {
        Towards::Down
    } else if d == 2 {
        Towards::Left
    } else {
        Towards::Right
    }
}

/// The route along the pointer `p` of node `at`: from the node to the node that `p` names, on
/// the layer of `p`.
pub open spec fn edge_route(nodes: Seq<PosNode>, at: int, p: Pointer) -> Route<usize> {
    Route(
        Point(nodes[at].position.0, nodes[at].position.1, p.height),
        Point(nodes[p.index as int].position.0, nodes[p.index as int].position.1, p.height),
    )
}

/// The routes of the depth-first walk from node `at`, reached in direction `arrival`, through
/// its directions from the `d`-th on: for each direction with a pointer that does not lead
/// back where the walk came from, the route along the pointer and then the walk from the node
/// it names. The walk goes at most `depth` pointers deep.
pub open spec fn walk_from(
    nodes: Seq<PosNode>,
    at: int,
    arrival: Option<Towards>,
    depth: nat,
    d: int,
) -> Seq<Route<usize>>
    decreases depth, 4 - d,
{
    if d < 0 || d >= 4 || !(0 <= at < nodes.len()) {
        Seq::empty()
    } else {
        let t = planar_dir(d);
        let rest = walk_from(nodes, at, arrival, depth, d + 1);
        match nodes[at].slot(t) {
            Some(p) => if arrival != Some(t.opposite()) && p.index < nodes.len() && depth > 0 {
                seq![edge_route(nodes, at, p)] + walk_from(
                    nodes,
                    p.index as int,
                    Some(t),
                    (depth - 1) as nat,
                    0,
                ) + rest
            } else {
                rest
            },
            None => rest,
        }
    }
}

/// The vertical route that a node's span stands for.
pub open spec fn span_route(node: PosNode) -> Route<usize> {
    Route(
        Point(node.position.0, node.position.1, node.spec_span().0),
        Point(node.position.0, node.position.1, node.spec_span().1),
    )
}

/// The span routes of the first `k` nodes: one for each node whose span takes in more than
/// one layer.
pub open spec fn spans_upto(nodes: Seq<PosNode>, k: int) -> Seq<Route<usize>>
    decreases k,
{
    if k <= 0 {
        Seq::empty()
    } else if nodes[k - 1].spec_span().0 < nodes[k - 1].spec_span().1 {
        spans_upto(nodes, k - 1).push(span_route(nodes[k - 1]))
    } else {
        spans_upto(nodes, k - 1)
    }
}

/// The routes that a tree is written as: the span routes of its nodes, then the walk from its
/// first node.
pub open spec fn tree_routes(nodes: Seq<PosNode>) -> Seq<Route<usize>> {
    spans_upto(nodes, nodes.len() as int) + walk_from(nodes, 0, None, nodes.len(), 0)
}

/// Every route of a walk through a well-formed tree runs along a pointer of the tree: its
/// ends are two nodes next to each other on a row or column, on the pointer's layer.
pub proof fn lemma_walk_routes(
    nodes: Seq<PosNode>,
    at: int,
    arrival: Option<Towards>,
    depth: nat,
    d: int,
    k: int,
)
    requires
        tree_wf(nodes),
        0 <= k < walk_from(nodes, at, arrival, depth, d).len(),
    ensures
        exists|i: int, t: Towards|
            {
                &&& 0 <= i < nodes.len()
                &&& t.planar()
                &&& (#[trigger] nodes[i].slot(t)) is Some
                &&& walk_from(nodes, at, arrival, depth, d)[k] == edge_route(
                    nodes,
                    i,
                    nodes[i].slot(t)->0,
                )
            },
    decreases depth, 4 - d,
{
    let t = planar_dir(d);
    let rest = walk_from(nodes, at, arrival, depth, d + 1);
    let slot = nodes[at].slot(t);
    if slot is Some && arrival != Some(t.opposite()) && slot->0.index < nodes.len() && depth > 0 {
        let p = slot->0;
        let below = walk_from(nodes, p.index as int, Some(t), (depth - 1) as nat, 0);
        if k == 0 {
            assert(nodes[at].slot(t) is Some);
        } else if k < 1 + below.len() {
            lemma_walk_routes(nodes, p.index as int, Some(t), (depth - 1) as nat, 0, k - 1);
        } else {
            lemma_walk_routes(nodes, at, arrival, depth, d + 1, k - 1 - below.len());
        }
    } else {
        lemma_walk_routes(nodes, at, arrival, depth, d + 1, k);
    }
}

/// A route along a pointer of a well-formed tree is an atomic planar segment: it is
/// axis-aligned, lies in the pointer's direction, and no node lies strictly between its ends.
pub proof fn lemma_edge_route_atomic(nodes: Seq<PosNode>, i: int, t: Towards)
    requires
        tree_wf(nodes),
        0 <= i < nodes.len(),
        t.planar(),
        nodes[i].slot(t) is Some,
    ensures
        ({
            let r = edge_route(nodes, i, nodes[i].slot(t)->0);
            &&& r.axis_aligned()
            &&& r.spec_towards() == t
            &&& r.0.2 == nodes[i].slot(t)->0.height
            &&& occurs(node_positions(nodes), flat(r.0))
            &&& occurs(node_positions(nodes), flat(r.1))
            &&& forall|c: int|
                0 <= c < nodes.len() ==> !between(
                    flat(r.0),
                    flat(r.1),
                    #[trigger] node_positions(nodes)[c],
                )
        }),
{
    let ps = node_positions(nodes);
    let p = nodes[i].slot(t)->0;
    assert(edge_ok(nodes, i, t));
    let r = edge_route(nodes, i, p);
    assert(flat(r.0) == ps[i]);
    assert(flat(r.1) == ps[p.index as int]);
    assert forall|c: int| 0 <= c < nodes.len() implies !between(
        flat(r.0),
        flat(r.1),
        #[trigger] ps[c],
    ) by {
        assert(!between(ps[i], ps[p.index as int], ps[c]));
    }
}

impl NetTree {
    /// Appends to `out` the routes of the depth-first walk from node `at`, reached in direction
    /// `arrival`, through its directions from the `d`-th on, at most `depth` pointers deep.
    pub fn walk(
        &self,
        at: usize,
        arrival: Option<Towards>,
        depth: usize,
        d: usize,
        out: &mut Vec<Route<usize>>,
    )
        ensures
            final(out)@ == old(out)@ + walk_from(self.nodes@, at as int, arrival, depth as nat, d as int),
        decreases depth, 4 - d,
    {
        if d >= 4 || at >= self.nodes.len() {
            proof {
                assert(final(out)@ =~= old(out)@ + Seq::<Route<usize>>::empty());
            }
            return ;
        }
        let t = nth_dir(d);
        let node = self.nodes[at];
        let back = match arrival {
            Some(a) => a == t.neg(),
            None => false,
        };
        let ghost mut mid = old(out)@;
        match node.index(t) {
            Some(p) => {
                if !back && p.index < self.nodes.len() && depth > 0 {
                    let there = self.nodes[p.index].position;
                    out.push(
                        Route(
                            Point(node.position.0, node.position.1, p.height),
                            Point(there.0, there.1, p.height),
                        ),
                    );
                    self.walk(p.index, Some(t), depth - 1, 0, out);
                    proof {
                        mid = out@;
                    }
                }
            },
            None => {},
        }
        self.walk(at, arrival, depth, d + 1, out);
        proof {
            let rest = walk_from(self.nodes@, at as int, arrival, depth as nat, d + 1);
            assert(final(out)@ == mid + rest);
            assert(final(out)@ =~= old(out)@ + walk_from(
                self.nodes@,
                at as int,
                arrival,
                depth as nat,
                d as int,
            ));
        }
    }

    /// The routes that the tree is written as: for every node whose span takes in more than one
    /// layer the vertical route over its span, then the routes of the depth-first walk from the
    /// first node, which takes the directions in the order up, down, left, right.
    pub fn routes(&self) -> (res: Vec<Route<usize>>)
        ensures
            res@ == tree_routes(self.nodes@),
    {
        let mut out: Vec<Route<usize>> = Vec::new();
        let mut i: usize = 0;
        while i < self.nodes.len()
            invariant
                0 <= i <= self.nodes@.len(),
                out@ == spans_upto(self.nodes@, i as int),
            decreases self.nodes@.len() - i,
        {
            let node = self.nodes[i];
            let (lo, hi) = node.span();
            if lo < hi {
                out.push(
                    Route(
                        Point(node.position.0, node.position.1, lo),
                        Point(node.position.0, node.position.1, hi),
                    ),
                );
            }
            i += 1;
        }
        self.walk(0, None, self.nodes.len(), 0, &mut out);
        out
    }
}

/// Some information about a Net.
#[derive(Debug)]
pub struct Net {
    /// id of the net
    pub id: usize,
    /// min layer id
    pub min_layer: usize,
    /// the routed tree
    pub tree: NetTree,
}

impl FactoryID for Net {
    open spec fn spec_prefix() -> Seq<u8> {
        seq![78u8]
    }

    fn prefix() -> (p: &'static str) {
        let p = "N";
        proof {
            reveal_strlit("N");
            assert(p@ =~= as_text(seq![78u8]));
        }
        p
    }
}

impl Default for NetTree {
    fn default() -> (tree: Self)
        ensures
            tree.nodes@.len() == 0,
    {
        NetTree { nodes: Vec::new() }
    }
}

impl Default for Net {
    fn default() -> (net: Self)
        ensures
            net.id == 0,
            net.min_layer == 0,
            net.tree.nodes@.len() == 0,
    {
        Net { id: 0, min_layer: 0, tree: NetTree::default() }
    }
}

impl Net {
    /// Builds net `id` from its connected pins, each with its position, and its routed
    /// segments.
    pub fn new(
        id: usize,
        min_layer: usize,
        pins: &Vec<(usize, Pair<usize>)>,
        segments: &Vec<Route<usize>>,
    ) -> (res: Result<Net, Error>)
        requires
            forall|m: int| 0 <= m < segments@.len() ==> (#[trigger] segments@[m]).axis_aligned(),
        ensures
            res is Ok <==> connectable(pins@, segments@),
            res matches Ok(net) ==> net.id == id && net.min_layer == min_layer && built_from(
                net.tree.nodes@,
                pins@,
                segments@,
            ),
            res matches Err(e) ==> e == Error::DisconnectedNet,
    {
        match NetTree::build(pins, segments) {
            Ok(tree) => Ok(Net { id, min_layer, tree }),
            Err(e) => Err(e),
        }
    }
}

} // verus!
