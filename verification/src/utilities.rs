use vstd::prelude::*;

verus! {

/// One element of the disjoint-set forest.
#[derive(Clone, Copy, Debug, Eq, Hash, PartialEq)]
pub struct UnionFindNode {
    /// the head of current union
    head: usize,
    /// the height of current tree, used only if the node is root
    height: usize,
}

/// Stores the data needed in union-find algorithm
#[derive(Clone, Debug, Eq, Hash, PartialEq)]
pub struct UnionFind {
    /// nodes used in union-find
    pub nodes: Vec<UnionFindNode>,
}

impl UnionFindNode {
    /// The element this node points at; the node's own index for a representative.
    pub closed spec fn spec_head(self) -> int {
        self.head as int
    }

    /// The rank recorded for this node.
    pub closed spec fn spec_height(self) -> int {
        self.height as int
    }

    /// Create a new node in UnionFind data structure.
    pub fn new() -> (node: Self)
        ensures
            node.spec_head() == 0,
            node.spec_height() == 0,
    {
        UnionFindNode { head: 0, height: 0 }
    }
}

impl Default for UnionFindNode {
    fn default() -> (node: Self)
        ensures
            node.spec_head() == 0,
            node.spec_height() == 0,
    {
        UnionFindNode { head: 0, height: 0 }
    }
}

impl Default for UnionFind {
    fn default() -> (uf: Self)
        ensures
            uf.wf(),
            uf@ == Seq::<int>::empty(),
    {
        let uf = UnionFind { nodes: Vec::new() };
        proof {
            assert(uf@ =~= Seq::<int>::empty());
        }
        uf
    }
}

/// The element that `i` points at.
pub open spec fn parent(nodes: Seq<UnionFindNode>, i: int) -> int {
    nodes[i].spec_head()
}

/// The rank recorded for `i`.
pub open spec fn rank(nodes: Seq<UnionFindNode>, i: int) -> int {
    nodes[i].spec_height()
}

/// Parent links stay inside the forest and ranks strictly grow along them.
pub open spec fn ranked(nodes: Seq<UnionFindNode>) -> bool {
    &&& forall|i: int| 0 <= i < nodes.len() ==> 0 <= #[trigger] rank(nodes, i) < nodes.len()
    &&& forall|i: int|
        0 <= i < nodes.len() ==> {
            &&& 0 <= #[trigger] parent(nodes, i) < nodes.len()
            &&& (parent(nodes, i) != i ==> rank(nodes, i) < rank(nodes, parent(nodes, i)))
        }
}

/// What element `i` adds to the weight: its rank plus one for a representative, nothing otherwise.
pub open spec fn term(nodes: Seq<UnionFindNode>, i: int) -> int {
    if parent(nodes, i) == i {
        rank(nodes, i) + 1
    } else {
        0
    }
}

/// Sum of `term` over the first `k` elements.
pub open spec fn weight(nodes: Seq<UnionFindNode>, k: int) -> int
    decreases k,
{
    if k <= 0 {
        0
    } else {
        weight(nodes, k - 1) + term(nodes, k - 1)
    }
}

/// The representative reached from `i` by following parent links.
pub open spec fn root(nodes: Seq<UnionFindNode>, i: int) -> int
    decreases nodes.len() - rank(nodes, i),
    when ranked(nodes) && 0 <= i < nodes.len()
{
    if parent(nodes, i) == i {
        i
    } else {
        root(nodes, parent(nodes, i))
    }
}

/// `j` lies on the walk from `i` to its representative (both ends included).
pub open spec fn on_walk(nodes: Seq<UnionFindNode>, i: int, j: int) -> bool
    decreases nodes.len() - rank(nodes, i),
    when ranked(nodes) && 0 <= i < nodes.len()
{
    i == j || (parent(nodes, i) != i && on_walk(nodes, parent(nodes, i), j))
}

/// Number of `i < k` with `roots[i] == i`.
pub open spec fn count_fixed(roots: Seq<int>, k: int) -> nat
    decreases k,
{
    if k <= 0 {
        0
    } else {
        count_fixed(roots, k - 1) + if roots[k - 1] == k - 1 {
            1nat
        } else {
            0nat
        }
    }
}

/// Number of components of a partition given by its representative map.
pub open spec fn num_components(roots: Seq<int>) -> nat {
    count_fixed(roots, roots.len() as int)
}

/// A representative map: every entry names an element that represents itself.
pub open spec fn is_partition(roots: Seq<int>) -> bool {
    forall|i: int|
        0 <= i < roots.len() ==> 0 <= #[trigger] roots[i] < roots.len() && roots[roots[i]]
            == roots[i]
}

/// `post` is `pre` with the classes of `a` and `b` both handed to the representative `w`.
pub open spec fn merged_into(pre: Seq<int>, a: int, b: int, post: Seq<int>, w: int) -> bool {
    forall|i: int|
        0 <= i < pre.len() ==> #[trigger] post[i] == if pre[i] == pre[a] || pre[i] == pre[b] {
            w
        } else {
            pre[i]
        }
}

/// How one `union(a, b)` takes the representative map `pre` to `post`, and what it returns.
///
/// Nothing changes when `a` and `b` already share a representative. Otherwise one of the two
/// representatives takes over the whole of both classes.
pub open spec fn union_step(pre: Seq<int>, a: int, b: int, post: Seq<int>, merged: bool) -> bool {
    &&& post.len() == pre.len()
    &&& merged == (pre[a] != pre[b])
    &&& !merged ==> post == pre
    &&& merged ==> merged_into(pre, a, b, post, pre[a]) || merged_into(pre, a, b, post, pre[b])
}

/// The nodes after the walk from `index` has been compressed onto `r`: every element on the
/// walk points at `r`, and nothing else has changed.
pub open spec fn compressed(
    nodes: Seq<UnionFindNode>,
    index: int,
    r: int,
    after: Seq<UnionFindNode>,
) -> bool {
    &&& after.len() == nodes.len()
    &&& forall|j: int| 0 <= j < nodes.len() ==> #[trigger] rank(after, j) == rank(nodes, j)
    &&& forall|j: int|
        0 <= j < nodes.len() ==> #[trigger] parent(after, j) == if on_walk(nodes, index, j) {
            r
        } else {
            parent(nodes, j)
        }
}

/// The nodes after `join(a, b)`: the lower-ranked of the two is hung under the other, `a` under
/// `b` on a tie, in which case the rank of `b` grows by one.
pub open spec fn joined(nodes: Seq<UnionFindNode>, a: int, b: int, after: Seq<UnionFindNode>) -> bool {
    &&& after.len() == nodes.len()
    &&& forall|j: int| 0 <= j < nodes.len() && j != a && j != b ==> #[trigger] after[j] == nodes[j]
    &&& if rank(nodes, a) > rank(nodes, b) {
        &&& parent(after, b) == a
        &&& rank(after, b) == rank(nodes, b)
        &&& (a != b ==> after[a] == nodes[a])
    } else if rank(nodes, a) == rank(nodes, b) {
        &&& rank(after, b) == rank(nodes, b) + 1
        &&& parent(after, b) == if a == b {
            b
        } else {
            parent(nodes, b)
        }
        &&& (a != b ==> parent(after, a) == b && rank(after, a) == rank(nodes, a))
    } else {
        &&& parent(after, a) == b
        &&& rank(after, a) == rank(nodes, a)
        &&& (a != b ==> after[b] == nodes[b])
    }
}

/// The representative that takes over when `union(a, b)` merges two classes: the one of
/// higher rank, and that of `b` where the ranks are the same.
pub open spec fn winner(nodes: Seq<UnionFindNode>, a: int, b: int) -> int {
    if rank(nodes, root(nodes, a)) > rank(nodes, root(nodes, b)) {
        root(nodes, a)
    } else {
        root(nodes, b)
    }
}

/// The nodes after `union(a, b)`: the walk from `a` and then the walk from `b` are
/// compressed; then, where the two representatives differ, one is hung under the other as
/// `join` does it.
pub open spec fn united(nodes: Seq<UnionFindNode>, a: int, b: int, after: Seq<UnionFindNode>) -> bool {
    exists|mid: Seq<UnionFindNode>, last: Seq<UnionFindNode>|
        {
            &&& #[trigger] compressed(nodes, a, root(nodes, a), mid)
            &&& #[trigger] compressed(mid, b, root(nodes, b), last)
            &&& if root(nodes, a) == root(nodes, b) {
                after == last
            } else {
                joined(last, root(nodes, a), root(nodes, b), after)
            }
        }
}

/// Two sequences that agree on `term` everywhere but at `j` differ in weight by that one term.
pub proof fn lemma_weight_change(a: Seq<UnionFindNode>, b: Seq<UnionFindNode>, k: int, j: int)
    requires
        a.len() == b.len(),
        0 <= k <= a.len(),
        0 <= j < a.len(),
        forall|i: int| 0 <= i < a.len() && i != j ==> term(a, i) == term(b, i),
    ensures
        weight(b, k) == weight(a, k) + if j < k {
            term(b, j) - term(a, j)
        } else {
            0
        },
    decreases k,
{
    if k > 0 {
        lemma_weight_change(a, b, k - 1, j);
    }
}

/// The representative of `i` is in range, represents itself, and has no lower rank than `i`.
pub proof fn lemma_root(nodes: Seq<UnionFindNode>, i: int)
    requires
        ranked(nodes),
        0 <= i < nodes.len(),
    ensures
        0 <= root(nodes, i) < nodes.len(),
        parent(nodes, root(nodes, i)) == root(nodes, i),
        root(nodes, root(nodes, i)) == root(nodes, i),
        rank(nodes, i) <= rank(nodes, root(nodes, i)),
        parent(nodes, i) != i ==> rank(nodes, i) < rank(nodes, root(nodes, i)),
        parent(nodes, i) != i ==> root(nodes, i) == root(nodes, parent(nodes, i)),
        parent(nodes, i) == i ==> root(nodes, i) == i,
        on_walk(nodes, i, root(nodes, i)),
    decreases nodes.len() - rank(nodes, i),
{
    let p = parent(nodes, i);
    if p != i {
        lemma_root(nodes, p);
    }
}

/// Every element on the walk from `i` has the representative of `i` and no lower rank than `i`.
pub proof fn lemma_on_walk(nodes: Seq<UnionFindNode>, i: int, j: int)
    requires
        ranked(nodes),
        0 <= i < nodes.len(),
        on_walk(nodes, i, j),
    ensures
        0 <= j < nodes.len(),
        root(nodes, j) == root(nodes, i),
        rank(nodes, i) <= rank(nodes, j),
        i != j ==> rank(nodes, i) < rank(nodes, j),
    decreases nodes.len() - rank(nodes, i),
{
    let p = parent(nodes, i);
    if i != j {
        lemma_on_walk(nodes, p, j);
    }
}

/// Moving elements onto their own representative, with ranks kept, changes no representative.
pub proof fn lemma_compress_keeps_roots(nodes: Seq<UnionFindNode>, after: Seq<UnionFindNode>, j: int)
    requires
        ranked(nodes),
        after.len() == nodes.len(),
        forall|i: int| 0 <= i < nodes.len() ==> #[trigger] rank(after, i) == rank(nodes, i),
        forall|i: int|
            0 <= i < nodes.len() ==> (#[trigger] parent(after, i)) == parent(nodes, i) || parent(
                after,
                i,
            ) == root(nodes, i),
        0 <= j < nodes.len(),
    ensures
        ranked(after),
        root(after, j) == root(nodes, j),
        term(after, j) == term(nodes, j),
    decreases nodes.len() - rank(nodes, j),
{
    assert(ranked(after)) by {
        assert forall|i: int| 0 <= i < after.len() implies {
            &&& 0 <= #[trigger] parent(after, i) < after.len()
            &&& (parent(after, i) != i ==> rank(after, i) < rank(after, parent(after, i)))
        } by {
            lemma_root(nodes, i);
            let q = parent(nodes, i);
            assert(rank(after, root(nodes, i)) == rank(nodes, root(nodes, i)));
            assert(rank(after, q) == rank(nodes, q));
        }
    }
    lemma_root(nodes, j);
    let r = root(nodes, j);
    let h = parent(after, j);
    if parent(nodes, j) == j {
        assert(h == j);
    } else {
        assert(h != j);
        if h == parent(nodes, j) {
            lemma_compress_keeps_roots(nodes, after, h);
        } else {
            assert(h == r);
            lemma_root(nodes, r);
            let hr = parent(after, r);
            assert(hr == r);
            assert(root(after, r) == r);
        }
    }
}

/// Two maps with the same fixed points but for `l`, fixed in `pre` only, differ by one in count.
pub proof fn lemma_count_fixed_drop(pre: Seq<int>, post: Seq<int>, k: int, l: int)
    requires
        pre.len() == post.len(),
        0 <= k <= pre.len(),
        0 <= l < pre.len(),
        pre[l] == l,
        post[l] != l,
        forall|i: int| 0 <= i < pre.len() && i != l ==> ((pre[i] == i) <==> (post[i] == i)),
    ensures
        count_fixed(pre, k) == count_fixed(post, k) + if l < k {
            1nat
        } else {
            0nat
        },
    decreases k,
{
    if k > 0 {
        lemma_count_fixed_drop(pre, post, k - 1, l);
    }
}

/// A map whose only possible fixed point is `r` has at most that one.
pub proof fn lemma_count_fixed_single(roots: Seq<int>, k: int, r: int)
    requires
        0 <= k <= roots.len(),
        forall|i: int| 0 <= i < roots.len() ==> ((roots[i] == i) <==> i == r),
    ensures
        count_fixed(roots, k) == if 0 <= r < k {
            1nat
        } else {
            0nat
        },
    decreases k,
{
    if k > 0 {
        lemma_count_fixed_single(roots, k - 1, r);
    }
}

/// Two distinct fixed points below `k` make the count at least two.
pub proof fn lemma_count_fixed_two(roots: Seq<int>, k: int, r: int, s: int)
    requires
        0 <= r < s < k <= roots.len(),
        roots[r] == r,
        roots[s] == s,
    ensures
        count_fixed(roots, k) >= 2,
    decreases k,
{
    if s < k - 1 {
        lemma_count_fixed_two(roots, k - 1, r, s);
    } else {
        lemma_count_fixed_one(roots, k - 1, r);
    }
}

/// A fixed point below `k` makes the count at least one.
pub proof fn lemma_count_fixed_one(roots: Seq<int>, k: int, r: int)
    requires
        0 <= r < k <= roots.len(),
        roots[r] == r,
    ensures
        count_fixed(roots, k) >= 1,
    decreases k,
{
    if r < k - 1 {
        lemma_count_fixed_one(roots, k - 1, r);
    }
}

/// A partition has exactly one component iff it is not empty and all its elements share a
/// representative.
pub proof fn lemma_single_component(roots: Seq<int>)
    requires
        is_partition(roots),
    ensures
        num_components(roots) == 1 <==> (roots.len() > 0 && forall|i: int|
            0 <= i < roots.len() ==> #[trigger] roots[i] == roots[0]),
{
    let n = roots.len() as int;
    if n > 0 && (forall|i: int| 0 <= i < n ==> #[trigger] roots[i] == roots[0]) {
        let r = roots[0];
        assert(roots[r] == r);
        lemma_count_fixed_single(roots, n, r);
    }
    if num_components(roots) == 1 {
        assert(n > 0);
        assert forall|i: int| 0 <= i < n implies #[trigger] roots[i] == roots[0] by {
            let r = roots[0];
            let s = roots[i];
            if r < s {
                lemma_count_fixed_two(roots, n, r, s);
            } else if s < r {
                lemma_count_fixed_two(roots, n, s, r);
            }
        }
    }
}

/// `union(a, b)` a second time returns `false` and changes nothing, whatever the first call did.
pub proof fn lemma_union_idempotent(
    s0: Seq<int>,
    a: int,
    b: int,
    s1: Seq<int>,
    first: bool,
    s2: Seq<int>,
    second: bool,
)
    requires
        is_partition(s0),
        0 <= a < s0.len(),
        0 <= b < s0.len(),
        union_step(s0, a, b, s1, first),
        union_step(s1, a, b, s2, second),
    ensures
        !second,
        s2 == s1,
{
}

/// A successful `union` lowers the number of components by one; an unsuccessful one keeps it.
/// Either way the result is a partition again.
pub proof fn lemma_union_step_components(pre: Seq<int>, a: int, b: int, post: Seq<int>, merged: bool)
    requires
        is_partition(pre),
        0 <= a < pre.len(),
        0 <= b < pre.len(),
        union_step(pre, a, b, post, merged),
    ensures
        is_partition(post),
        num_components(pre) == num_components(post) + if merged {
            1nat
        } else {
            0nat
        },
{
    if merged {
        let w = if merged_into(pre, a, b, post, pre[a]) {
            pre[a]
        } else {
            pre[b]
        };
        assert(merged_into(pre, a, b, post, w));
        let l = if w == pre[a] {
            pre[b]
        } else {
            pre[a]
        };
        assert(pre[l] == l);
        assert(pre[w] == w);
        assert(post[l] == w);
        assert(post[w] == w);
        assert forall|i: int| 0 <= i < post.len() implies 0 <= #[trigger] post[i] < post.len()
            && post[post[i]] == post[i] by {
            let p = pre[i];
            assert(pre[p] == p);
            if pre[i] == pre[a] || pre[i] == pre[b] {
            } else {
                assert(post[p] == p);
            }
        }
        lemma_count_fixed_drop(pre, post, pre.len() as int, l);
    }
}

/// A run of `union` calls: `states[k]` is the representative map before the `k`-th call on
/// `pairs[k]`, `states[k + 1]` the map after it, and `merged[k]` what the call returned.
pub open spec fn union_trace(
    states: Seq<Seq<int>>,
    pairs: Seq<(int, int)>,
    merged: Seq<bool>,
) -> bool {
    &&& states.len() == pairs.len() + 1
    &&& merged.len() == pairs.len()
    &&& is_partition(states[0])
    &&& forall|k: int|
        0 <= k < pairs.len() ==> {
            &&& 0 <= (#[trigger] pairs[k]).0 < states[0].len()
            &&& 0 <= pairs[k].1 < states[0].len()
            &&& union_step(states[k], pairs[k].0, pairs[k].1, states[k + 1], merged[k])
        }
}

/// Number of `true` entries among the first `k`.
pub open spec fn count_true(flags: Seq<bool>, k: int) -> nat
    decreases k,
{
    if k <= 0 {
        0
    } else {
        count_true(flags, k - 1) + if flags[k - 1] {
            1nat
        } else {
            0nat
        }
    }
}

/// Over any run of `union` calls, the number that returned `true` is the number of components
/// lost: started from `n` singletons, it is `n` less the components at the end.
pub proof fn lemma_union_trace_count(
    states: Seq<Seq<int>>,
    pairs: Seq<(int, int)>,
    merged: Seq<bool>,
    k: int,
)
    requires
        union_trace(states, pairs, merged),
        0 <= k <= pairs.len(),
    ensures
        is_partition(states[k]),
        states[k].len() == states[0].len(),
        num_components(states[0]) == num_components(states[k]) + count_true(merged, k),
    decreases k,
{
    if k > 0 {
        lemma_union_trace_count(states, pairs, merged, k - 1);
        lemma_union_step_components(
            states[k - 1],
            pairs[k - 1].0,
            pairs[k - 1].1,
            states[k],
            merged[k - 1],
        );
    }
}

/// Over any run of `union` calls on a forest of `n` elements, each on its own at the start,
/// the number of calls that returned `true` is `n` less the number of components at the end.
pub proof fn lemma_unions_from_new(
    n: nat,
    states: Seq<Seq<int>>,
    pairs: Seq<(int, int)>,
    merged: Seq<bool>,
)
    requires
        union_trace(states, pairs, merged),
        states[0].len() == n,
        forall|i: int| 0 <= i < n ==> states[0][i] == i,
    ensures
        count_true(merged, pairs.len() as int) + num_components(states[pairs.len() as int]) == n,
{
    lemma_union_trace_count(states, pairs, merged, pairs.len() as int);
    lemma_identity_components(states[0], n as int);
}

/// The identity map on `n` elements has `n` components.
pub proof fn lemma_identity_components(roots: Seq<int>, k: int)
    requires
        0 <= k <= roots.len(),
        forall|i: int| 0 <= i < roots.len() ==> roots[i] == i,
    ensures
        count_fixed(roots, k) == k,
    decreases k,
{
    if k > 0 {
        lemma_identity_components(roots, k - 1);
    }
}

impl View for UnionFind {
    type V = Seq<int>;

    /// The representative of every element.
    open spec fn view(&self) -> Seq<int> {
        Seq::new(self.nodes@.len(), |i: int| root(self.nodes@, i))
    }
}

impl UnionFind {
    /// Parent links are acyclic with ranks growing towards the representatives, and the ranks
    /// are small enough that none can overflow.
    pub open spec fn wf(&self) -> bool {
        &&& ranked(self.nodes@)
        &&& weight(self.nodes@, self.nodes@.len() as int) <= self.nodes@.len()
    }

    /// `a` and `b` are in the same class.
    pub open spec fn same(&self, a: int, b: int) -> bool {
        self@[a] == self@[b]
    }

    /// The view of a well-formed forest is a partition.
    pub proof fn lemma_view_partition(&self)
        requires
            self.wf(),
        ensures
            is_partition(self@),
            self@.len() == self.nodes@.len(),
    {
        assert forall|i: int| 0 <= i < self@.len() implies 0 <= #[trigger] self@[i] < self@.len()
            && self@[self@[i]] == self@[i] by {
            lemma_root(self.nodes@, i);
        }
    }

    /// Looking up the representative of a representative gives it back.
    pub proof fn lemma_find_idempotent(&self, x: int)
        requires
            self.wf(),
            0 <= x < self@.len(),
        ensures
            0 <= self@[x] < self@.len(),
            self@[self@[x]] == self@[x],
    {
        self.lemma_view_partition();
    }

    /// Creates a new UnionFind data structure.
    pub fn new(size: usize) -> (uf: Self)
        ensures
            uf.wf(),
            uf@.len() == size,
            forall|i: int| 0 <= i < size ==> uf@[i] == i,
            forall|i: int| 0 <= i < size ==> #[trigger] parent(uf.nodes@, i) == i,
            forall|i: int| 0 <= i < size ==> #[trigger] rank(uf.nodes@, i) == 0,
            num_components(uf@) == size,
    {
        let mut nodes: Vec<UnionFindNode> = Vec::new();
        let mut idx: usize = 0;
        while idx < size
            invariant
                idx <= size,
                nodes@.len() == idx,
                forall|i: int| 0 <= i < idx ==> #[trigger] parent(nodes@, i) == i,
                forall|i: int| 0 <= i < idx ==> #[trigger] rank(nodes@, i) == 0,
                weight(nodes@, idx as int) == idx,
            decreases size - idx,
        {
            let ghost before = nodes@;
            nodes.push(UnionFindNode { head: idx, height: 0 });
            proof {
                lemma_weight_same(before, nodes@, idx as int);
                assert forall|i: int| 0 <= i < idx + 1 implies #[trigger] parent(nodes@, i)
                    == i by {
                    if i < idx {
                        assert(parent(before, i) == i);
                    }
                }
                assert forall|i: int| 0 <= i < idx + 1 implies #[trigger] rank(nodes@, i) == 0 by {
                    if i < idx {
                        assert(rank(before, i) == 0);
                    }
                }
            }
            idx += 1;
        }
        let uf = UnionFind { nodes };
        proof {
            assert(ranked(uf.nodes@));
            assert forall|i: int| 0 <= i < size implies uf@[i] == i by {
                assert(root(uf.nodes@, i) == i);
            }
            lemma_identity_components(uf@, size as int);
        }
        uf
    }

    /// The number of elements.
    #[verifier::when_used_as_spec(spec_len)]
    pub fn len(&self) -> (n: usize)
        ensures
            n == self.spec_len(),
    {
        self.nodes.len()
    }

    /// Number of elements.
    pub open spec fn spec_len(&self) -> usize {
        self.nodes@.len() as usize
    }

    /// Wrapper function for `get`.
    pub fn get(&self, index: usize) -> (node: Option<&UnionFindNode>)
        ensures
            index < self.nodes@.len() ==> node == Some(&self.nodes@[index as int]),
            index >= self.nodes@.len() ==> node is None,
    {
        if index < self.nodes.len() {
            Some(&self.nodes[index])
        } else {
            None
        }
    }

    /// Wrapper function for `get_mut`.
    pub fn get_mut(&mut self, index: usize) -> (node: Option<&mut UnionFindNode>)
        ensures
            index < old(self).nodes@.len() ==> node is Some && *(node->0) == old(self).nodes@[index as int] && final(self).nodes@ == old(self).nodes@.update(
                index as int,
                *final(node->0),
            ),
            index >= old(self).nodes@.len() ==> node is None && final(self).nodes@ == old(self).nodes@,
    {
        if index < self.nodes.len() {
            Some(&mut self.nodes[index])
        } else {
            None
        }
    }

    /// Finds the root of the current bound tree.
    /// Does not apply path compression.
    pub fn find(&self, index: usize) -> (rep: Option<usize>)
        requires
            self.wf(),
        ensures
            index < self@.len() ==> rep is Some && rep->0 == self@[index as int],
            index >= self@.len() ==> rep is None,
        decreases
                if index < self.nodes@.len() {
                    self.nodes@.len() - rank(self.nodes@, index as int)
                } else {
                    0
                },
    {
        if index >= self.nodes.len() {
            return None;
        }
        let head = self.nodes[index].head;
        proof {
            assert(head == parent(self.nodes@, index as int));
            lemma_root(self.nodes@, index as int);
        }
        if head == index {
            return Some(index);
        }
        self.find(head)
    }

    /// Finds the root of the current bound tree.
    /// Applies path compression: every element on the walk ends up pointing at the root.
    pub fn find_mut(&mut self, index: usize) -> (rep: Option<usize>)
        requires
            old(self).wf(),
        ensures
            final(self).wf(),
            final(self)@ == old(self)@,
            index >= old(self)@.len() ==> rep is None && final(self).nodes@ == old(self).nodes@,
            index < old(self)@.len() ==> rep is Some && rep->0 == old(self)@[index as int]
                && compressed(
                old(self).nodes@,
                index as int,
                rep->0 as int,
                final(self).nodes@,
            ),
        decreases
                if index < old(self).nodes@.len() {
                    old(self).nodes@.len() - rank(old(self).nodes@, index as int)
                } else {
                    0
                },
    {
        if index >= self.nodes.len() {
            return None;
        }
        let ghost before = self.nodes@;
        let head = self.nodes[index].head;
        proof {
            assert(head == parent(before, index as int));
            lemma_root(before, index as int);
        }
        if head == index {
            return Some(index);
        }
        match self.find_mut(head) {
            None => None,
            Some(ans) => {
                let ghost middle = self.nodes@;
                let height = self.nodes[index].height;
                self.nodes[index] = UnionFindNode { head: ans, height };
                proof {
                    let after = self.nodes@;
                    assert(height == rank(middle, index as int));
                    assert forall|j: int| 0 <= j < before.len() implies #[trigger] rank(after, j)
                        == rank(before, j) by {
                        assert(rank(middle, j) == rank(before, j));
                    }
                    assert forall|j: int| 0 <= j < before.len() implies #[trigger] parent(after, j)
                        == if on_walk(before, index as int, j) {
                        ans as int
                    } else {
                        parent(before, j)
                    } by {
                        assert(parent(middle, j) == if on_walk(before, head as int, j) {
                            ans as int
                        } else {
                            parent(before, j)
                        });
                        if j != index {
                            assert(after[j] == middle[j]);
                        } else {
                            if on_walk(before, head as int, index as int) {
                                lemma_on_walk(before, head as int, index as int);
                            }
                        }
                    }
                    lemma_compressed(before, index as int, after);
                    assert(self@ =~= old(self)@);
                }
                Some(ans)
            },
        }
    }

    /// Joins two different unions.
    /// Returns `Some(())` if operation is successful.
    /// Returns `None` if an array's bounds check failed.
    ///
    /// The element of lower rank is hung under the other. Handed two distinct representatives,
    /// this merges their classes; handed anything else, it still does what `joined` says, but
    /// the forest need not be well formed afterwards.
    pub fn join(&mut self, a: usize, b: usize) -> (res: Option<()>)
        requires
            old(self).wf(),
        ensures
            a >= old(self).nodes@.len() || b >= old(self).nodes@.len() ==> res is None && final(self).nodes@ == old(self).nodes@,
            a < old(self).nodes@.len() && b < old(self).nodes@.len() ==> res is Some && joined(
                old(self).nodes@,
                a as int,
                b as int,
                final(self).nodes@,
            ),
            a < old(self).nodes@.len() && b < old(self).nodes@.len() && a != b && old(self)@[a as int]
                == a && old(self)@[b as int] == b ==> final(self).wf() && union_step(
                old(self)@,
                a as int,
                b as int,
                final(self)@,
                true,
            ) && merged_into(
                old(self)@,
                a as int,
                b as int,
                final(self)@,
                winner(old(self).nodes@, a as int, b as int),
            ),
    {
        let n = self.nodes.len();
        if a >= n || b >= n {
            return None;
        }
        let ghost before = self.nodes@;
        let heighta = self.nodes[a].height;
        let heightb = self.nodes[b].height;
        proof {
            assert(heighta == rank(before, a as int));
            assert(heightb == rank(before, b as int));
        }
        if heighta > heightb {
            let node = UnionFindNode { head: a, height: heightb };
            self.nodes[b] = node;
        } else {
            let node = UnionFindNode { head: b, height: heighta };
            self.nodes[a] = node;
            if heighta == heightb {
                let head = self.nodes[b].head;
                let node = UnionFindNode { head, height: heightb + 1 };
                self.nodes[b] = node;
            }
        }
        proof {
            let after = self.nodes@;
            assert(joined(before, a as int, b as int, after));
            lemma_root(before, a as int);
            lemma_root(before, b as int);
            if a != b && old(self)@[a as int] == a && old(self)@[b as int] == b {
                assert(parent(before, a as int) == a) by {
                    if parent(before, a as int) != a {
                        assert(rank(before, a as int) < rank(before, root(before, a as int)));
                    }
                }
                assert(parent(before, b as int) == b) by {
                    if parent(before, b as int) != b {
                        assert(rank(before, b as int) < rank(before, root(before, b as int)));
                    }
                }
                lemma_joined(before, a as int, b as int, after);
                let w: int = if heighta > heightb {
                    a as int
                } else {
                    b as int
                };
                assert(merged_into(old(self)@, a as int, b as int, self@, w));
                assert(w == winner(before, a as int, b as int));
            }
        }
        Some(())
    }

    /// Unions two different disjoint sets.
    /// Returns true if a, b were unioned in this function.
    /// Returns false if a, b are already joined before this method is called.
    pub fn union(&mut self, a: usize, b: usize) -> (merged: bool)
        requires
            old(self).wf(),
            a < old(self)@.len(),
            b < old(self)@.len(),
        ensures
            final(self).wf(),
            union_step(old(self)@, a as int, b as int, final(self)@, merged),
            merged ==> merged_into(
                old(self)@,
                a as int,
                b as int,
                final(self)@,
                winner(old(self).nodes@, a as int, b as int),
            ),
            united(old(self).nodes@, a as int, b as int, final(self).nodes@),
            num_components(old(self)@) == num_components(final(self)@) + if merged {
                1nat
            } else {
                0nat
            },
    {
        proof {
            old(self).lemma_view_partition();
        }
        let res = self.union_checked(a, b);
        proof {
            lemma_union_step_components(old(self)@, a as int, b as int, self@, res->0);
        }
        res.expect("Index out of bounds")
    }

    /// Unions two different disjoint sets.
    /// Returns Option<bool> which requires manual unwrap.
    /// `union` wraps this function.
    pub fn union_checked(&mut self, a: usize, b: usize) -> (res: Option<bool>)
        requires
            old(self).wf(),
        ensures
            final(self).wf(),
            final(self)@.len() == old(self)@.len(),
            a < old(self)@.len() && b < old(self)@.len() ==> res is Some && union_step(
                old(self)@,
                a as int,
                b as int,
                final(self)@,
                res->0,
            ) && united(old(self).nodes@, a as int, b as int, final(self).nodes@),
            res == Some(true) ==> merged_into(
                old(self)@,
                a as int,
                b as int,
                final(self)@,
                winner(old(self).nodes@, a as int, b as int),
            ),
            a >= old(self)@.len() || b >= old(self)@.len() ==> res is None && final(self)@ == old(self)@,
            a >= old(self)@.len() ==> final(self).nodes@ == old(self).nodes@,
            a < old(self)@.len() && b >= old(self)@.len() ==> compressed(
                old(self).nodes@,
                a as int,
                old(self)@[a as int],
                final(self).nodes@,
            ),
    {
        let ghost start = self.nodes@;
        let heada = match self.find_mut(a) {
            None => {
                return None;
            },
            Some(h) => h,
        };
        let ghost first = self.nodes@;
        let headb = match self.find_mut(b) {
            None => {
                return None;
            },
            Some(h) => h,
        };
        let ghost second = self.nodes@;
        proof {
            assert(compressed(start, a as int, root(start, a as int), first));
            assert(root(first, b as int) == root(start, b as int));
            assert(compressed(first, b as int, root(start, b as int), second));
        }
        if heada == headb {
            return Some(false);
        }
        proof {
            self.lemma_view_partition();
        }
        let ghost mid = self@;
        self.join(heada, headb);
        proof {
            let pre = old(self)@;
            let post = self@;
            assert(mid == pre);
            assert(union_step(pre, heada as int, headb as int, post, true));
            lemma_root(start, a as int);
            lemma_root(start, b as int);
            lemma_root(second, heada as int);
            lemma_root(second, headb as int);
            assert(rank(second, heada as int) == rank(start, heada as int)) by {
                assert(rank(first, heada as int) == rank(start, heada as int));
            }
            assert(rank(second, headb as int) == rank(start, headb as int)) by {
                assert(rank(first, headb as int) == rank(start, headb as int));
            }
            let w = winner(start, a as int, b as int);
            assert(w == winner(second, heada as int, headb as int));
            assert(merged_into(pre, heada as int, headb as int, post, w));
            assert(merged_into(pre, a as int, b as int, post, w));
            assert(joined(second, root(start, a as int), root(start, b as int), self.nodes@));
        }
        Some(true)
    }

    /// Check if two values are in the same group.
    pub fn grouped(&self, a: usize, b: usize) -> (res: Option<bool>)
        requires
            self.wf(),
        ensures
            a < self@.len() && b < self@.len() ==> res == Some(self.same(a as int, b as int)),
            a >= self@.len() || b >= self@.len() ==> res is None,
    {
        match self.find(a) {
            None => None,
            Some(ra) => match self.find(b) {
                None => None,
                Some(rb) => Some(ra == rb),
            },
        }
    }

    /// True iff the elements form exactly one class; an empty forest has none.
    pub fn done(&self) -> (res: bool)
        requires
            self.wf(),
        ensures
            res == (num_components(self@) == 1),
            res == (self@.len() > 0 && forall|i: int|
                0 <= i < self@.len() ==> #[trigger] self@[i] == self@[0]),
    {
        let n = self.nodes.len();
        if n == 0 {
            proof {
                self.lemma_view_partition();
                lemma_single_component(self@);
            }
            return false;
        }
        let first = self.find(0);
        let mut idx: usize = 1;
        while idx < n
            invariant
                self.wf(),
                n == self.nodes@.len(),
                n == self@.len(),
                1 <= idx <= n,
                first is Some,
                first->0 == self@[0],
                forall|i: int| 0 <= i < idx ==> #[trigger] self@[i] == self@[0],
            decreases n - idx,
        {
            let here = self.find(idx);
            match (first, here) {
                (Some(r0), Some(r)) => {
                    if r0 != r {
                        proof {
                            self.lemma_view_partition();
                            lemma_single_component(self@);
                            assert(self@[idx as int] != self@[0]);
                        }
                        return false;
                    }
                },
                _ => {
                    return false;
                },
            }
            idx += 1;
        }
        proof {
            self.lemma_view_partition();
            lemma_single_component(self@);
        }
        true
    }
}

/// Compressing a walk onto its representative keeps the forest well formed and every
/// representative where it was.
pub proof fn lemma_compressed(nodes: Seq<UnionFindNode>, index: int, after: Seq<UnionFindNode>)
    requires
        ranked(nodes),
        0 <= index < nodes.len(),
        compressed(nodes, index, root(nodes, index), after),
    ensures
        ranked(after),
        weight(after, after.len() as int) == weight(nodes, nodes.len() as int),
        forall|j: int| 0 <= j < nodes.len() ==> root(after, j) == root(nodes, j),
{
    assert forall|i: int| 0 <= i < nodes.len() implies (#[trigger] parent(after, i)) == parent(
        nodes,
        i,
    ) || parent(after, i) == root(nodes, i) by {
        if on_walk(nodes, index, i) {
            lemma_on_walk(nodes, index, i);
        }
    }
    assert forall|j: int| 0 <= j < nodes.len() implies root(after, j) == root(nodes, j) && term(
        after,
        j,
    ) == term(nodes, j) by {
        lemma_compress_keeps_roots(nodes, after, j);
    }
    lemma_compress_keeps_roots(nodes, after, index);
    lemma_weight_change(nodes, after, nodes.len() as int, index);
}

/// Hanging the representative `l` under another representative `w` of higher rank hands the
/// class of `l` to `w` and leaves every other class alone.
pub proof fn lemma_link(nodes: Seq<UnionFindNode>, l: int, w: int, after: Seq<UnionFindNode>, j: int)
    requires
        ranked(nodes),
        0 <= l < nodes.len(),
        0 <= w < nodes.len(),
        l != w,
        parent(nodes, l) == l,
        parent(nodes, w) == w,
        after.len() == nodes.len(),
        forall|i: int| 0 <= i < nodes.len() && i != l && i != w ==> #[trigger] after[i] == nodes[i],
        parent(after, l) == w,
        rank(after, l) == rank(nodes, l),
        parent(after, w) == w,
        rank(nodes, w) <= rank(after, w) < nodes.len(),
        rank(nodes, l) < rank(after, w),
        0 <= j < nodes.len(),
    ensures
        ranked(after),
        root(after, j) == if root(nodes, j) == l {
            w
        } else {
            root(nodes, j)
        },
    decreases nodes.len() - rank(nodes, j),
{
    assert(ranked(after)) by {
        assert forall|i: int| 0 <= i < after.len() implies 0 <= #[trigger] rank(after, i)
            < after.len() by {
            if i != l && i != w {
                assert(after[i] == nodes[i]);
                assert(rank(nodes, i) < nodes.len());
            } else if i == l {
                assert(rank(nodes, l) < nodes.len());
            }
        }
        assert forall|i: int| 0 <= i < after.len() implies {
            &&& 0 <= #[trigger] parent(after, i) < after.len()
            &&& (parent(after, i) != i ==> rank(after, i) < rank(after, parent(after, i)))
        } by {
            if i != l && i != w {
                assert(after[i] == nodes[i]);
                let q = parent(nodes, i);
                if q != l && q != w {
                    assert(after[q] == nodes[q]);
                }
            }
        }
    }
    lemma_root(nodes, j);
    let q = parent(nodes, j);
    if j == l {
        assert(root(after, w) == w);
        assert(root(after, l) == root(after, w));
    } else if j == w {
        assert(root(after, w) == w);
    } else {
        assert(after[j] == nodes[j]);
        assert(parent(after, j) == q);
        if q != j {
            lemma_link(nodes, l, w, after, q);
        }
    }
}

/// Two distinct representatives both count towards the weight.
pub proof fn lemma_weight_two(nodes: Seq<UnionFindNode>, l: int, w: int)
    requires
        0 <= l < nodes.len(),
        0 <= w < nodes.len(),
        l != w,
    ensures
        weight(nodes, nodes.len() as int) >= term(nodes, l) + term(nodes, w),
        term(nodes, l) >= 0,
        term(nodes, w) >= 0,
{
    lemma_weight_split(nodes, nodes.len() as int, l, w);
}

/// The weight of the first `k` elements is no less than the terms of `l` and `w` among them.
pub proof fn lemma_weight_split(nodes: Seq<UnionFindNode>, k: int, l: int, w: int)
    requires
        0 <= k <= nodes.len(),
        0 <= l < nodes.len(),
        0 <= w < nodes.len(),
        l != w,
    ensures
        weight(nodes, k) >= (if l < k {
            term(nodes, l)
        } else {
            0
        }) + (if w < k {
            term(nodes, w)
        } else {
            0
        }),
        term(nodes, l) >= 0,
        term(nodes, w) >= 0,
    decreases k,
{
    if k > 0 {
        lemma_weight_split(nodes, k - 1, l, w);
        assert(term(nodes, k - 1) >= 0);
    }
}

/// What `join` does when handed two distinct representatives: a well-formed forest again, in
/// which one of the two has taken over both classes.
pub proof fn lemma_joined(nodes: Seq<UnionFindNode>, a: int, b: int, after: Seq<UnionFindNode>)
    requires
        ranked(nodes),
        weight(nodes, nodes.len() as int) <= nodes.len(),
        0 <= a < nodes.len(),
        0 <= b < nodes.len(),
        a != b,
        parent(nodes, a) == a,
        parent(nodes, b) == b,
        joined(nodes, a, b, after),
    ensures
        ranked(after),
        weight(after, after.len() as int) <= after.len(),
        forall|j: int|
            0 <= j < nodes.len() ==> #[trigger] root(after, j) == if root(nodes, j) == a || root(
                nodes,
                j,
            ) == b {
                if rank(nodes, a) > rank(nodes, b) {
                    a
                } else {
                    b
                }
            } else {
                root(nodes, j)
            },
{
    let n = nodes.len() as int;
    let (l, w) = if rank(nodes, a) > rank(nodes, b) {
        (b, a)
    } else {
        (a, b)
    };
    lemma_weight_two(nodes, l, w);
    assert(rank(nodes, l) < n);
    assert(rank(nodes, w) < n);
    assert(rank(after, w) < n);
    assert forall|j: int| 0 <= j < n implies #[trigger] root(after, j) == if root(nodes, j) == a
        || root(nodes, j) == b {
        w
    } else {
        root(nodes, j)
    } by {
        lemma_link(nodes, l, w, after, j);
        lemma_root(nodes, j);
    }
    lemma_link(nodes, l, w, after, 0);
    let mid = nodes.update(l, after[l]);
    assert forall|i: int| 0 <= i < n && i != l implies term(nodes, i) == term(mid, i) by {}
    lemma_weight_change(nodes, mid, n, l);
    assert forall|i: int| 0 <= i < n && i != w implies term(mid, i) == term(after, i) by {
        if i != l {
            assert(after[i] == nodes[i]);
        }
    }
    lemma_weight_change(mid, after, n, w);
}

/// Appending a node leaves the weight of the earlier ones as it was.
pub proof fn lemma_weight_same(a: Seq<UnionFindNode>, b: Seq<UnionFindNode>, k: int)
    requires
        0 <= k <= a.len(),
        k <= b.len(),
        forall|i: int| 0 <= i < k ==> a[i] == b[i],
    ensures
        weight(a, k) == weight(b, k),
    decreases k,
{
    if k > 0 {
        lemma_weight_same(a, b, k - 1);
    }
}

} // verus!
