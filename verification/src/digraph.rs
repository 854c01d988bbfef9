//! Mathematics of directed graphs whose successors are listed in order.
//!
//! A graph over nodes of type `N` is a function from a node to the sequence of
//! its direct successors. The order of that sequence matters to the traversals
//! (it decides which of two neighbours is met first); multiplicity is allowed.
use vstd::prelude::*;

verus! {

/// There is an edge from `a` to `b`.
pub open spec fn edge<N>(g: spec_fn(N) -> Seq<N>, a: N, b: N) -> bool {
    g(a).contains(b)
}

/// The `i`-th node of `p` is a direct successor of the one before it.
pub open spec fn step<N>(g: spec_fn(N) -> Seq<N>, p: Seq<N>, i: int) -> bool {
    edge(g, p[i - 1], p[i])
}

/// `p` is a non-empty sequence of nodes in which each one follows an edge from
/// the one before it.
pub open spec fn walk<N>(g: spec_fn(N) -> Seq<N>, p: Seq<N>) -> bool {
    &&& p.len() > 0
    &&& forall|i: int| 0 < i < p.len() ==> #[trigger] step(g, p, i)
}

/// `p` is a walk from `a` to `b`.
pub open spec fn connects<N>(g: spec_fn(N) -> Seq<N>, p: Seq<N>, a: N, b: N) -> bool {
    &&& walk(g, p)
    &&& p[0] == a
    &&& p.last() == b
}

/// `b` can be reached from `a` over zero or more edges.
pub open spec fn reaches<N>(g: spec_fn(N) -> Seq<N>, a: N, b: N) -> bool {
    exists|p: Seq<N>| #[trigger] connects(g, p, a, b)
}

/// `b` can be reached from `a` over one or more edges.
pub open spec fn follows<N>(g: spec_fn(N) -> Seq<N>, a: N, b: N) -> bool {
    exists|p: Seq<N>| #[trigger] connects(g, p, a, b) && p.len() >= 2
}

/// Some node can be reached from itself over one or more edges.
pub open spec fn cyclic<N>(g: spec_fn(N) -> Seq<N>) -> bool {
    exists|a: N| #[trigger] follows(g, a, a)
}

/// The shortest walk from `a` to `b` has `k` edges.
pub open spec fn hops<N>(g: spec_fn(N) -> Seq<N>, a: N, b: N, k: nat) -> bool {
    &&& exists|p: Seq<N>| #[trigger] connects(g, p, a, b) && p.len() == k + 1
    &&& forall|p: Seq<N>| #[trigger] connects(g, p, a, b) ==> p.len() >= k + 1
}

/// How a breadth-first search from a root met the nodes.
pub struct Discovery<N> {
    /// The nodes in the order in which they were met, the root first.
    pub order: Seq<N>,
    /// For each node but the root, the position in `order` of the node it was met from.
    pub parent: Seq<int>,
    /// For each node but the root, its position among its parent's successors.
    pub slot: Seq<int>,
    /// The number of edges from the root along the parents.
    pub depth: Seq<nat>,
    /// The number of nodes, from the front of `order`, whose successors were looked at.
    pub expanded: int,
}

impl<N> Discovery<N> {
    /// The `j`-th node was met from its parent, which is the earliest node with an
    /// edge to it, at the first place where the parent lists it.
    pub open spec fn found(self, g: spec_fn(N) -> Seq<N>, j: int) -> bool {
        &&& 0 <= self.parent[j] < j
        &&& self.parent[j] < self.expanded
        &&& 0 <= self.slot[j] < g(self.order[self.parent[j]]).len()
        &&& g(self.order[self.parent[j]])[self.slot[j]] == self.order[j]
        &&& forall|q: int| 0 <= q < self.parent[j] ==> !#[trigger] edge(g, self.order[q], self.order[j])
        &&& forall|m: int|
            0 <= m < self.slot[j] ==> #[trigger] g(self.order[self.parent[j]])[m] != self.order[j]
        &&& self.depth[j] == self.depth[self.parent[j]] + 1
    }

    /// The `i`-th node was met strictly before the `j`-th one: from an earlier
    /// parent, or from the same parent at an earlier place.
    pub open spec fn met_before(self, i: int, j: int) -> bool {
        ||| self.parent[i] < self.parent[j]
        ||| self.parent[i] == self.parent[j] && self.slot[i] < self.slot[j]
    }

    /// Each node was met as a breadth-first search from `root` meets it.
    pub open spec fn sound(self, g: spec_fn(N) -> Seq<N>, root: N) -> bool {
        &&& self.order.len() > 0
        &&& self.parent.len() == self.order.len()
        &&& self.slot.len() == self.order.len()
        &&& self.depth.len() == self.order.len()
        &&& 0 <= self.expanded <= self.order.len()
        &&& self.order[0] == root
        &&& self.depth[0] == 0
        &&& self.order.no_duplicates()
        &&& forall|j: int| 0 < j < self.order.len() ==> #[trigger] self.found(g, j)
        &&& forall|i: int, j: int|
            0 < i < j < self.order.len() ==> #[trigger] self.met_before(i, j)
    }

    /// The successors of the nodes that were expanded have all been met.
    pub open spec fn closed_under(self, g: spec_fn(N) -> Seq<N>) -> bool {
        forall|q: int, x: N|
            0 <= q < self.expanded && #[trigger] edge(g, self.order[q], x) ==> self.order.contains(x)
    }

    /// This is what a breadth-first search from `root` does on `g`.
    pub open spec fn valid(self, g: spec_fn(N) -> Seq<N>, root: N) -> bool {
        &&& self.sound(g, root)
        &&& self.closed_under(g)
    }

    /// Exactly the nodes at a depth below `limit` were expanded.
    pub open spec fn bounded_by(self, limit: nat) -> bool {
        forall|i: int|
            0 <= i < self.order.len() ==> (i < self.expanded <==> #[trigger] self.depth[i] < limit)
    }

    /// The nodes that were met after the root, each with its depth.
    pub open spec fn met(self) -> Seq<(N, nat)> {
        Seq::new((self.order.len() - 1) as nat, |i: int| (self.order[i + 1], self.depth[i + 1]))
    }

    /// The walk from the root to the `j`-th node along the parents.
    pub open spec fn path_to(self, j: int) -> Seq<N>
        decreases j,
    {
        if j <= 0 || !(0 <= self.parent[j] < j) {
            seq![self.order[0]]
        } else {
            self.path_to(self.parent[j]).push(self.order[j])
        }
    }

    /// Nodes are met in order of their depth.
    pub proof fn lemma_depth_grows(self, g: spec_fn(N) -> Seq<N>, root: N, i: int, j: int)
        requires
            self.valid(g, root),
            0 <= i <= j < self.order.len(),
        ensures
            self.depth[i] <= self.depth[j],
        decreases j,
    {
        if i < j {
            assert(self.found(g, j));
            if i > 0 {
                assert(self.found(g, i));
                assert(self.met_before(i, j));
                self.lemma_depth_grows(g, root, self.parent[i], self.parent[j]);
            }
        }
    }

    /// The parents lead back to the root in as many steps as the depth says.
    pub proof fn lemma_path_to(self, g: spec_fn(N) -> Seq<N>, root: N, j: int)
        requires
            self.valid(g, root),
            0 <= j < self.order.len(),
        ensures
            connects(g, self.path_to(j), root, self.order[j]),
            self.path_to(j).len() == self.depth[j] + 1,
        decreases j,
    {
        if j > 0 {
            assert(self.found(g, j));
            let k = self.parent[j];
            self.lemma_path_to(g, root, k);
            assert(edge(g, self.order[k], self.order[j]));
            lemma_walk_push(g, self.path_to(k), self.order[j]);
        }
    }

    /// A walk that is not longer than the limit ends at a node that was met, at no
    /// greater depth than the walk has edges.
    pub proof fn lemma_covers(
        self,
        g: spec_fn(N) -> Seq<N>,
        root: N,
        limit: nat,
        p: Seq<N>,
    ) -> (i: int)
        requires
            self.valid(g, root),
            forall|i: int|
                0 <= i < self.order.len() && #[trigger] self.depth[i] < limit ==> i < self.expanded,
            walk(g, p),
            p[0] == root,
            p.len() <= limit + 1,
        ensures
            0 <= i < self.order.len(),
            self.order[i] == p.last(),
            self.depth[i] + 1 <= p.len(),
        decreases p.len(),
    {
        if p.len() == 1 {
            0
        } else {
            let q = p.drop_last();
            lemma_walk_drop_last(g, p);
            let u = self.lemma_covers(g, root, limit, q);
            assert(step(g, p, p.len() - 1));
            assert(edge(g, self.order[u], p.last()));
            assert(self.depth[u] < limit);
            assert(self.order.contains(p.last()));
            let i = choose|i: int| 0 <= i < self.order.len() && self.order[i] == p.last();
            if i > 0 {
                assert(self.found(g, i));
                let k = self.parent[i];
                if k > u {
                    assert(!edge(g, self.order[u], self.order[i]));
                }
                self.lemma_depth_grows(g, root, k, u);
            }
            i
        }
    }

    /// The depth of a node is its distance from the root.
    pub proof fn lemma_depth_is_distance(
        self,
        g: spec_fn(N) -> Seq<N>,
        root: N,
        limit: nat,
        j: int,
    )
        requires
            self.valid(g, root),
            forall|i: int|
                0 <= i < self.order.len() && #[trigger] self.depth[i] < limit ==> i < self.expanded,
            0 <= j < self.order.len(),
            self.depth[j] <= limit,
        ensures
            hops(g, root, self.order[j], self.depth[j]),
    {
        self.lemma_path_to(g, root, j);
        assert forall|p: Seq<N>| #[trigger] connects(g, p, root, self.order[j]) implies p.len()
            >= self.depth[j] + 1 by {
            if p.len() < self.depth[j] + 1 {
                let i = self.lemma_covers(g, root, limit, p);
                assert(i == j);
            }
        }
    }

    /// A node is not deeper than it is far back in the order.
    pub proof fn lemma_depth_at_most(self, g: spec_fn(N) -> Seq<N>, root: N, j: int)
        requires
            self.sound(g, root),
            0 <= j < self.order.len(),
        ensures
            self.depth[j] <= j,
        decreases j,
    {
        if j > 0 {
            assert(self.found(g, j));
            self.lemma_depth_at_most(g, root, self.parent[j]);
        }
    }

    /// Where the nodes at a depth below `limit` were expanded, the nodes that were met
    /// after the root are those at a distance from 1 to `limit`, each with its distance.
    pub proof fn lemma_met_within(self, g: spec_fn(N) -> Seq<N>, root: N, limit: nat)
        requires
            self.valid(g, root),
            self.bounded_by(limit),
        ensures
            forall|a: N, k: nat| #[trigger]
                self.met().contains((a, k)) <==> 1 <= k <= limit && hops(g, root, a, k),
    {
        assert forall|a: N, k: nat| #[trigger] self.met().contains((a, k)) <==> 1 <= k <= limit && hops(
            g,
            root,
            a,
            k,
        ) by {
            let m = self.met();
            if m.contains((a, k)) {
                let i = choose|i: int| 0 <= i < m.len() && m[i] == (a, k);
                assert(self.found(g, i + 1));
                assert(self.depth[self.parent[i + 1]] < limit);
                self.lemma_depth_is_distance(g, root, limit, i + 1);
            }
            if 1 <= k <= limit && hops(g, root, a, k) {
                let p = choose|p: Seq<N>| #[trigger] connects(g, p, root, a) && p.len() == k + 1;
                let i = self.lemma_covers(g, root, limit, p);
                self.lemma_path_to(g, root, i);
                assert(self.depth[i] == k);
                assert(m[i - 1] == (a, k));
            }
        }
    }
}

pub proof fn lemma_walk_push<N>(g: spec_fn(N) -> Seq<N>, p: Seq<N>, x: N)
    requires
        walk(g, p),
        edge(g, p.last(), x),
    ensures
        walk(g, p.push(x)),
{
    let q = p.push(x);
    assert forall|i: int| 0 < i < q.len() implies #[trigger] step(g, q, i) by {
        if i < p.len() {
            assert(step(g, p, i));
        }
    }
}

pub proof fn lemma_walk_drop_last<N>(g: spec_fn(N) -> Seq<N>, p: Seq<N>)
    requires
        walk(g, p),
        p.len() > 1,
    ensures
        walk(g, p.drop_last()),
{
    let q = p.drop_last();
    assert forall|i: int| 0 < i < q.len() implies #[trigger] step(g, q, i) by {
        assert(step(g, p, i));
    }
}

pub proof fn lemma_hops_unique<N>(g: spec_fn(N) -> Seq<N>, a: N, b: N, k: nat, m: nat)
    requires
        hops(g, a, b, k),
        hops(g, a, b, m),
    ensures
        k == m,
{
    let p = choose|p: Seq<N>| #[trigger] connects(g, p, a, b) && p.len() == k + 1;
    let q = choose|q: Seq<N>| #[trigger] connects(g, q, a, b) && q.len() == m + 1;
}

/// Two walks that meet make one.
pub proof fn lemma_walk_join<N>(g: spec_fn(N) -> Seq<N>, p: Seq<N>, q: Seq<N>)
    requires
        walk(g, p),
        walk(g, q),
        p.last() == q[0],
    ensures
        connects(g, p + q.drop_first(), p[0], q.last()),
        (p + q.drop_first()).len() == p.len() + q.len() - 1,
{
    let r = p + q.drop_first();
    assert forall|i: int| 0 < i < r.len() implies #[trigger] step(g, r, i) by {
        if i < p.len() {
            assert(step(g, p, i));
        } else {
            assert(step(g, q, i - p.len() + 1));
        }
    }
    if q.len() == 1 {
        assert(r.last() == p.last());
    } else {
        assert(r.last() == q.last());
    }
}

pub proof fn lemma_reaches_self<N>(g: spec_fn(N) -> Seq<N>, a: N)
    ensures
        reaches(g, a, a),
{
    assert(connects(g, seq![a], a, a));
}

pub proof fn lemma_reaches_edge<N>(g: spec_fn(N) -> Seq<N>, a: N, b: N)
    requires
        edge(g, a, b),
    ensures
        reaches(g, a, b),
        follows(g, a, b),
{
    let p = seq![a, b];
    assert forall|i: int| 0 < i < p.len() implies #[trigger] step(g, p, i) by {
        assert(p[i - 1] == a && p[i] == b);
    }
    assert(connects(g, p, a, b));
}

/// Going one edge further is still going along edges.
pub proof fn lemma_follows_edge<N>(g: spec_fn(N) -> Seq<N>, a: N, b: N, c: N)
    requires
        a == b || follows(g, a, b),
        edge(g, b, c),
    ensures
        follows(g, a, c),
{
    if follows(g, a, b) {
        let p = choose|p: Seq<N>| #[trigger] connects(g, p, a, b) && p.len() >= 2;
        lemma_walk_push(g, p, c);
        assert(connects(g, p.push(c), a, c));
    } else {
        lemma_reaches_edge(g, a, c);
    }
}

pub proof fn lemma_reaches_transitive<N>(g: spec_fn(N) -> Seq<N>, a: N, b: N, c: N)
    requires
        reaches(g, a, b),
        reaches(g, b, c),
    ensures
        reaches(g, a, c),
{
    let p = choose|p: Seq<N>| #[trigger] connects(g, p, a, b);
    let q = choose|q: Seq<N>| #[trigger] connects(g, q, b, c);
    lemma_walk_join(g, p, q);
}

/// A walk that starts inside a set of nodes and ends outside it leaves it somewhere.
pub proof fn lemma_walk_exits<N>(
    g: spec_fn(N) -> Seq<N>,
    inside: spec_fn(N) -> bool,
    p: Seq<N>,
) -> (i: int)
    requires
        walk(g, p),
        inside(p[0]),
        !inside(p.last()),
    ensures
        0 < i < p.len(),
        step(g, p, i),
        inside(p[i - 1]),
        !inside(p[i]),
    decreases p.len(),
{
    let n = p.len() as int;
    if n == 1 {
        0
    } else if inside(p[n - 2]) {
        assert(step(g, p, n - 1));
        n - 1
    } else {
        lemma_walk_drop_last(g, p);
        let i = lemma_walk_exits(g, inside, p.drop_last());
        assert(step(g, p, i));
        i
    }
}

/// What is reached from inside a set that no edge leaves is inside.
pub proof fn lemma_reaches_stays<N>(
    g: spec_fn(N) -> Seq<N>,
    inside: spec_fn(N) -> bool,
    a: N,
    b: N,
)
    requires
        reaches(g, a, b),
        inside(a),
        forall|x: N, y: N| inside(x) && #[trigger] edge(g, x, y) ==> inside(y),
    ensures
        inside(b),
{
    let p = choose|p: Seq<N>| #[trigger] connects(g, p, a, b);
    if !inside(b) {
        let i = lemma_walk_exits(g, inside, p);
        assert(edge(g, p[i - 1], p[i]));
    }
}

/// `components` lists `nodes` in groups whose members reach each other, such that
/// no edge leads from a group to a later one.
///
/// The groups are then the strongly connected components of the graph, in reverse
/// topological order: see [`lemma_components_are_maximal`].
pub open spec fn decomposes<N>(
    g: spec_fn(N) -> Seq<N>,
    nodes: Set<N>,
    components: Seq<Seq<N>>,
) -> bool {
    &&& forall|i: int|
        0 <= i < components.len() ==> #[trigger] components[i].len() > 0
            && components[i].no_duplicates()
    &&& forall|x: N|
        #[trigger] nodes.contains(x) <==> exists|i: int|
            0 <= i < components.len() && #[trigger] components[i].contains(x)
    &&& forall|i: int, j: int, x: N|
        0 <= i < components.len() && 0 <= j < components.len()
            && #[trigger] components[i].contains(x) && #[trigger] components[j].contains(x) ==> i == j
    &&& forall|i: int, x: N, y: N|
        0 <= i < components.len() && #[trigger] components[i].contains(x)
            && #[trigger] components[i].contains(y) ==> reaches(g, x, y)
    &&& forall|i: int, j: int, x: N, y: N|
        #![trigger components[i].contains(x), components[j].contains(y), edge(g, x, y)]
        0 <= i < components.len() && 0 <= j < components.len() && components[i].contains(x)
            && components[j].contains(y) && edge(g, x, y) ==> j <= i
}

/// Of two nodes in one decomposition, the second is reached from the first only if
/// it is in the same group or in an earlier one.
pub proof fn lemma_reaches_earlier<N>(
    g: spec_fn(N) -> Seq<N>,
    nodes: Set<N>,
    components: Seq<Seq<N>>,
    i: int,
    j: int,
    x: N,
    y: N,
)
    requires
        decomposes(g, nodes, components),
        forall|a: N, b: N| nodes.contains(a) && #[trigger] edge(g, a, b) ==> nodes.contains(b),
        0 <= i < components.len(),
        0 <= j < components.len(),
        components[i].contains(x),
        components[j].contains(y),
        reaches(g, x, y),
    ensures
        j <= i,
{
    let inside = |a: N|
        exists|k: int| 0 <= k <= i && k < components.len() && #[trigger] components[k].contains(a);
    assert forall|a: N, b: N| inside(a) && #[trigger] edge(g, a, b) implies inside(b) by {
        let k = choose|k: int|
            0 <= k <= i && k < components.len() && #[trigger] components[k].contains(a);
        assert(nodes.contains(a));
        assert(nodes.contains(b));
        let m = choose|m: int| 0 <= m < components.len() && #[trigger] components[m].contains(b);
        assert(components[m].contains(b));
    }
    assert(inside(x));
    lemma_reaches_stays(g, inside, x, y);
}

/// Two nodes are in the same group exactly if each is reached from the other.
pub proof fn lemma_components_are_maximal<N>(
    g: spec_fn(N) -> Seq<N>,
    nodes: Set<N>,
    components: Seq<Seq<N>>,
    i: int,
    j: int,
    x: N,
    y: N,
)
    requires
        decomposes(g, nodes, components),
        forall|a: N, b: N| nodes.contains(a) && #[trigger] edge(g, a, b) ==> nodes.contains(b),
        0 <= i < components.len(),
        0 <= j < components.len(),
        components[i].contains(x),
        components[j].contains(y),
    ensures
        i == j <==> reaches(g, x, y) && reaches(g, y, x),
{
    if reaches(g, x, y) && reaches(g, y, x) {
        lemma_reaches_earlier(g, nodes, components, i, j, x, y);
        lemma_reaches_earlier(g, nodes, components, j, i, y, x);
    }
}

/// Two nodes that reach each other are on a cycle.
pub proof fn lemma_mutual_is_cyclic<N>(g: spec_fn(N) -> Seq<N>, a: N, b: N)
    requires
        a != b,
        reaches(g, a, b),
        reaches(g, b, a),
    ensures
        cyclic(g),
{
    let p = choose|p: Seq<N>| #[trigger] connects(g, p, a, b);
    let q = choose|q: Seq<N>| #[trigger] connects(g, q, b, a);
    lemma_walk_join(g, p, q);
    assert(connects(g, p + q.drop_first(), a, a));
    assert(follows(g, a, a));
}

/// A walk contains every stretch of itself.
pub proof fn lemma_walk_stretch<N>(g: spec_fn(N) -> Seq<N>, p: Seq<N>, i: int, j: int)
    requires
        walk(g, p),
        0 <= i <= j < p.len(),
    ensures
        connects(g, p.subrange(i, j + 1), p[i], p[j]),
{
    let q = p.subrange(i, j + 1);
    assert forall|k: int| 0 < k < q.len() implies #[trigger] step(g, q, k) by {
        assert(step(g, p, i + k));
    }
}

/// How the nodes of an acyclic graph were put in order by releasing each one once
/// all of its predecessors had been dealt with.
pub struct Schedule<N> {
    /// The nodes in the order in which they were released.
    pub order: Seq<N>,
    /// The number of nodes, at the front of `order`, without a predecessor.
    pub sources: int,
    /// For each other node, the position in `order` of the predecessor that released it.
    pub parent: Seq<int>,
    /// For each other node, its position among the successors of that predecessor.
    pub slot: Seq<int>,
}

impl<N> Schedule<N> {
    /// The `j`-th node was released by its parent, which is the last of its
    /// predecessors, at the last place where the parent lists it.
    pub open spec fn released(self, g: spec_fn(N) -> Seq<N>, j: int) -> bool {
        &&& 0 <= self.parent[j] < j
        &&& 0 <= self.slot[j] < g(self.order[self.parent[j]]).len()
        &&& g(self.order[self.parent[j]])[self.slot[j]] == self.order[j]
        &&& forall|x: N| #[trigger]
            edge(g, x, self.order[j]) ==> self.order.take(self.parent[j] + 1).contains(x)
        &&& forall|m: int|
            self.slot[j] < m < g(self.order[self.parent[j]]).len() ==> #[trigger] g(
                self.order[self.parent[j]],
            )[m] != self.order[j]
    }

    /// The `i`-th node was released strictly before the `j`-th one: by an earlier
    /// parent, or by the same parent at an earlier place.
    pub open spec fn released_before(self, i: int, j: int) -> bool {
        ||| self.parent[i] < self.parent[j]
        ||| self.parent[i] == self.parent[j] && self.slot[i] < self.slot[j]
    }

    /// The order so far is one of nodes that may be released.
    pub open spec fn sound(self, g: spec_fn(N) -> Seq<N>) -> bool {
        &&& self.order.no_duplicates()
        &&& self.parent.len() == self.order.len()
        &&& self.slot.len() == self.order.len()
        &&& 0 <= self.sources <= self.order.len()
        &&& forall|i: int, x: N| 0 <= i < self.sources ==> !#[trigger] edge(g, x, self.order[i])
        &&& forall|j: int| self.sources <= j < self.order.len() ==> #[trigger] self.released(g, j)
        &&& forall|i: int, j: int|
            self.sources <= i < j < self.order.len() ==> #[trigger] self.released_before(i, j)
    }

    /// This is a schedule of all of `nodes`.
    pub open spec fn valid(self, g: spec_fn(N) -> Seq<N>, nodes: Set<N>) -> bool {
        &&& self.sound(g)
        &&& forall|x: N| #[trigger] self.order.contains(x) <==> nodes.contains(x)
    }

    /// Every edge leads forward in the order.
    pub proof fn lemma_edges_lead_forward(self, g: spec_fn(N) -> Seq<N>, i: int, j: int)
        requires
            self.sound(g),
            0 <= i < self.order.len(),
            0 <= j < self.order.len(),
            edge(g, self.order[i], self.order[j]),
        ensures
            i < j,
    {
        if j >= self.sources {
            assert(self.released(g, j));
            let before = self.order.take(self.parent[j] + 1);
            assert(before.contains(self.order[i]));
            let k = choose|k: int| 0 <= k < before.len() && before[k] == self.order[i];
            assert(self.order[k] == self.order[i]);
        }
    }

    /// A graph with a schedule has no cycle.
    pub proof fn lemma_acyclic(self, g: spec_fn(N) -> Seq<N>, nodes: Set<N>)
        requires
            self.valid(g, nodes),
            forall|x: N, y: N| #[trigger] edge(g, x, y) ==> nodes.contains(x) && nodes.contains(y),
        ensures
            !cyclic(g),
    {
        if cyclic(g) {
            let a = choose|a: N| #[trigger] follows(g, a, a);
            let p = choose|p: Seq<N>| #[trigger] connects(g, p, a, a) && p.len() >= 2;
            assert(step(g, p, 1));
            assert(self.order.contains(a));
            let i = choose|i: int| 0 <= i < self.order.len() && self.order[i] == a;
            self.lemma_walk_leads_forward(g, nodes, p, i);
        }
    }

    /// A walk with at least one edge ends after its beginning in the order.
    proof fn lemma_walk_leads_forward(
        self,
        g: spec_fn(N) -> Seq<N>,
        nodes: Set<N>,
        p: Seq<N>,
        i: int,
    ) -> (j: int)
        requires
            self.valid(g, nodes),
            forall|x: N, y: N| #[trigger] edge(g, x, y) ==> nodes.contains(x) && nodes.contains(y),
            walk(g, p),
            p.len() >= 2,
            0 <= i < self.order.len(),
            self.order[i] == p[0],
        ensures
            i < j < self.order.len(),
            self.order[j] == p.last(),
        decreases p.len(),
    {
        let n = p.len() as int;
        assert(step(g, p, n - 1));
        assert(self.order.contains(p[n - 1]));
        let j = choose|j: int| 0 <= j < self.order.len() && self.order[j] == p[n - 1];
        let k = if n == 2 {
            i
        } else {
            lemma_walk_drop_last(g, p);
            self.lemma_walk_leads_forward(g, nodes, p.drop_last(), i)
        };
        self.lemma_edges_lead_forward(g, k, j);
        j
    }
}

} // verus!
