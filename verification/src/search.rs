//! Breadth-first search of a graph over the integers below a bound.
use vstd::prelude::*;
use crate::renaming::numbered;
use crate::components::{lemma_distinct_below, listed, well_listed};
use crate::digraph::{connects, edge, follows, lemma_follows_edge, lemma_walk_drop_last, step, walk,
    Discovery};

verus! {

/// The outcome of a breadth-first search.
pub struct Search {
    /// The nodes in the order in which they were met, the root first.
    pub order: Vec<usize>,
    /// The distance of each of them from the root.
    pub depth: Vec<usize>,
    /// The position in `order` of the node that each was met from.
    pub parent: Vec<usize>,
    /// The position of each among the successors of that node.
    pub slot: Ghost<Seq<int>>,
    /// The number of nodes whose successors were looked at.
    pub expanded: usize,
}

impl Search {
    pub open spec fn discovery(self) -> Discovery<usize> {
        Discovery {
            order: self.order@,
            parent: self.parent@.map_values(|p: usize| p as int),
            slot: self.slot@,
            depth: self.depth@.map_values(|d: usize| d as nat),
            expanded: self.expanded as int,
        }
    }
}

/// Searches from `root` until a node at depth `limit` or the node `target` is the
/// next to be expanded, or until no node is left.
pub fn breadth_first(
    adjacency: &Vec<Vec<usize>>,
    root: usize,
    limit: usize,
    target: Option<usize>,
) -> (res: Search)
    requires
        well_listed(adjacency@),
        root < adjacency.len(),
    ensures
        res.discovery().valid(listed(adjacency@), root),
        forall|i: int| 0 <= i < res.order.len() ==> #[trigger] res.order@[i] < adjacency.len(),
        res.depth.len() == res.order.len(),
        res.parent.len() == res.order.len(),
        forall|i: int|
            0 <= i < res.expanded ==> #[trigger] res.depth@[i] < limit && target != Some(
                res.order@[i],
            ),
        res.expanded < res.order.len() ==> res.depth@[res.expanded as int] >= limit || target
            == Some(res.order@[res.expanded as int]),
{
    let n: usize = adjacency.len();
    let ghost g = listed(adjacency@);
    let mut met: Vec<bool> = Vec::new();
    let mut v: usize = 0;
    while v < n
        invariant
            v <= n,
            met.len() == v,
            forall|u: usize| u < v ==> (#[trigger] met@[u as int] <==> u == root),
        decreases n - v,
    {
        met.push(v == root);
        v = v + 1;
    }
    let mut s = Search {
        order: Vec::new(),
        depth: Vec::new(),
        parent: Vec::new(),
        slot: Ghost(Seq::empty().push(0int)),
        expanded: 0,
    };
    s.order.push(root);
    s.depth.push(0);
    s.parent.push(0);
    proof {
        assert forall|u: usize| u < n implies (#[trigger] met@[u as int] <==> s.order@.contains(u)) by {
            assert(s.order@[0] == root);
        }
    }
    while s.expanded < s.order.len()
        invariant
            n == adjacency.len(),
            n == met.len(),
            g == listed(adjacency@),
            well_listed(adjacency@),
            s.discovery().valid(g, root),
            forall|i: int| 0 <= i < s.order.len() ==> #[trigger] s.order@[i] < n,
            forall|u: usize| u < n ==> (#[trigger] met@[u as int] <==> s.order@.contains(u)),
            forall|i: int|
                0 <= i < s.expanded ==> #[trigger] s.depth@[i] < limit && target != Some(s.order@[i]),
        ensures
            s.expanded < s.order.len() ==> s.depth@[s.expanded as int] >= limit || target == Some(
                s.order@[s.expanded as int],
            ),
        decreases n - s.expanded,
    {
        let head: usize = s.expanded;
        let u: usize = s.order[head];
        let d: usize = s.depth[head];
        if d >= limit {
            break ;
        }
        if let Some(t) = target {
            if t == u {
                break ;
            }
        }
        let ghost after_u = adjacency@[u as int]@;
        proof {
            lemma_distinct_below(s.order@, n as nat);
        }
        let ghost before = s.discovery();
        s.expanded = head + 1;
        proof {
            let now = s.discovery();
            assert forall|j: int| 0 < j < now.order.len() implies #[trigger] now.found(g, j) by {
                assert(before.found(g, j));
            }
            assert forall|i: int, j: int| 0 < i < j < now.order.len() implies #[trigger] now.met_before(
                i,
                j,
            ) by {
                assert(before.met_before(i, j));
            }
            assert forall|j: int| 0 < j < now.order.len() implies #[trigger] now.parent[j] < head by {
                assert(before.found(g, j));
            }
        }
        let mut k: usize = 0;
        while k < adjacency[u].len()
            invariant
                n == adjacency.len(),
                n == met.len(),
                g == listed(adjacency@),
                well_listed(adjacency@),
                head < s.order.len(),
                s.expanded == head + 1,
                u == s.order@[head as int],
                d == s.depth@[head as int],
                d < limit,
                u < n,
                after_u == adjacency@[u as int]@,
                k <= after_u.len(),
                target != Some(u),
                s.discovery().sound(g, root),
                forall|i: int| 0 <= i < s.order.len() ==> #[trigger] s.order@[i] < n,
                forall|w: usize| w < n ==> (#[trigger] met@[w as int] <==> s.order@.contains(w)),
                forall|i: int|
                    0 <= i < s.expanded ==> #[trigger] s.depth@[i] < limit && target != Some(
                        s.order@[i],
                    ),
                forall|q: int, x: usize|
                    0 <= q < head && #[trigger] edge(g, s.order@[q], x) ==> s.order@.contains(x),
                forall|m: int| 0 <= m < k ==> s.order@.contains(#[trigger] after_u[m]),
                forall|j: int| 0 < j < s.order.len() ==> #[trigger] s.discovery().parent[j] <= head,
                forall|j: int|
                    0 < j < s.order.len() && s.discovery().parent[j] == head
                        ==> #[trigger] s.discovery().slot[j] < k,
            decreases after_u.len() - k,
        {
            let w: usize = adjacency[u][k];
            proof {
                assert(adjacency@[u as int]@[k as int] < n);
            }
            let ghost was = s.discovery();
            if !met[w] {
                met.set(w, true);
                s.order.push(w);
                s.depth.push(d + 1);
                s.parent.push(head);
                s.slot = Ghost(s.slot@.push(k as int));
                proof {
                    let now = s.discovery();
                    let last = was.order.len() as int;
                    assert(!was.order.contains(w));
                    assert forall|i: int| 0 <= i < last implies now.order[i] == was.order[i]
                        && now.parent[i] == was.parent[i] && now.slot[i] == was.slot[i]
                        && now.depth[i] == was.depth[i] by {}
                    assert(now.found(g, last)) by {
                        assert(g(u)[k as int] == w);
                        assert forall|q: int| 0 <= q < head implies !#[trigger] edge(
                            g,
                            now.order[q],
                            w,
                        ) by {
                            if edge(g, now.order[q], w) {
                                assert(edge(g, was.order[q], w));
                            }
                        }
                        assert forall|m: int| 0 <= m < k implies #[trigger] g(u)[m] != w by {
                            assert(was.order.contains(after_u[m]));
                        }
                    }
                    assert forall|j: int| 0 < j < now.order.len() implies #[trigger] now.found(
                        g,
                        j,
                    ) by {
                        if j < last {
                            assert(was.found(g, j));
                            assert forall|q: int| 0 <= q < now.parent[j] implies !#[trigger] edge(
                                g,
                                now.order[q],
                                now.order[j],
                            ) by {
                                assert(!edge(g, was.order[q], was.order[j]));
                            }
                        }
                    }
                    assert forall|i: int, j: int|
                        0 < i < j < now.order.len() implies #[trigger] now.met_before(i, j) by {
                        if j < last {
                            assert(was.met_before(i, j));
                        } else {
                            assert(was.parent[i] <= head);
                            assert(was.parent[i] == head ==> was.slot[i] < k);
                        }
                    }
                    assert(now.order[last] == w);
                }
            }
            proof {
                let now = s.discovery();
                assert forall|x: usize| was.order.contains(x) implies #[trigger] now.order.contains(
                    x,
                ) by {
                    let i = choose|i: int| 0 <= i < was.order.len() && was.order[i] == x;
                    assert(now.order[i] == x);
                }
                assert forall|x: usize| #[trigger] now.order.contains(x) implies x == w
                    || was.order.contains(x) by {
                    let i = choose|i: int| 0 <= i < now.order.len() && now.order[i] == x;
                    if i < was.order.len() {
                        assert(was.order[i] == x);
                    }
                }
                assert(s.order@.contains(w));
                assert forall|q: int, x: usize|
                    0 <= q < head && #[trigger] edge(g, s.order@[q], x) implies s.order@.contains(
                    x,
                ) by {
                    assert(edge(g, was.order[q], x));
                    assert(was.order.contains(x));
                }
                assert forall|m: int| 0 <= m < k + 1 implies s.order@.contains(
                    #[trigger] after_u[m],
                ) by {
                    if m < k {
                        assert(was.order.contains(after_u[m]));
                    }
                }
            }
            k = k + 1;
        }
        proof {
            let now = s.discovery();
            assert(now.closed_under(g)) by {
                assert forall|q: int, x: usize|
                    0 <= q < now.expanded && #[trigger] edge(g, now.order[q], x) implies now.order.contains(
                    x,
                ) by {
                    if q == head {
                        assert(after_u.contains(x));
                        let m = choose|m: int| 0 <= m < after_u.len() && after_u[m] == x;
                        assert(s.order@.contains(after_u[m]));
                    } else {
                        assert(edge(g, s.order@[q], x));
                    }
                }
            }
        }
    }
    s
}

/// Adds to `found` the successors of `u` that are not in it.
fn collect(adjacency: &Vec<Vec<usize>>, u: usize, met: &mut Vec<bool>, found: &mut Vec<usize>)
    requires
        well_listed(adjacency@),
        u < adjacency.len(),
        old(met).len() == adjacency.len(),
        old(found)@.no_duplicates(),
        numbered(old(found)@, adjacency.len() as nat),
        forall|v: usize|
            v < adjacency.len() ==> (#[trigger] old(met)@[v as int] <==> old(found)@.contains(v)),
    ensures
        final(met).len() == adjacency.len(),
        final(found)@.no_duplicates(),
        numbered(final(found)@, adjacency.len() as nat),
        forall|v: usize|
            v < adjacency.len() ==> (#[trigger] final(met)@[v as int] <==> final(found)@.contains(v)),
        old(found).len() <= final(found).len(),
        final(found)@.take(old(found).len() as int) == old(found)@,
        forall|v: usize| #[trigger]
            final(found)@.contains(v) <==> old(found)@.contains(v) || edge(
                listed(adjacency@),
                u,
                v,
            ),
{
    let ghost g = listed(adjacency@);
    let ghost n = adjacency.len() as nat;
    let ghost entry = found@;
    let ghost after_u = adjacency@[u as int]@;
    let mut k: usize = 0;
    proof {
        assert(found@.take(entry.len() as int) =~= entry);
    }
    while k < adjacency[u].len()
        invariant
            n == adjacency.len(),
            well_listed(adjacency@),
            u < adjacency.len(),
            after_u == adjacency@[u as int]@,
            k <= after_u.len(),
            met.len() == n,
            found@.no_duplicates(),
            numbered(found@, n),
            forall|v: usize| v < n ==> (#[trigger] met@[v as int] <==> found@.contains(v)),
            entry.len() <= found.len(),
            found@.take(entry.len() as int) == entry,
            forall|v: usize| #[trigger]
                found@.contains(v) <==> entry.contains(v) || after_u.take(k as int).contains(v),
        decreases after_u.len() - k,
    {
        let w: usize = adjacency[u][k];
        proof {
            assert(adjacency@[u as int]@[k as int] < n);
        }
        let ghost was = found@;
        if !met[w] {
            met.set(w, true);
            found.push(w);
        }
        proof {
            let former = after_u.take(k as int);
            let now = after_u.take(k as int + 1);
            assert(now =~= former.push(w));
            assert(found@.take(entry.len() as int) =~= entry) by {
                assert(found@.take(entry.len() as int) =~= was.take(entry.len() as int));
            }
            assert forall|v: usize| #[trigger] found@.contains(v) <==> was.contains(v) || v == w by {
                if was.contains(v) {
                    let i = choose|i: int| 0 <= i < was.len() && was[i] == v;
                    assert(found@[i] == v);
                }
                if !was.contains(w) {
                    assert(found@[was.len() as int] == w);
                }
            }
            assert forall|v: usize| #[trigger] now.contains(v) <==> former.contains(v) || v == w by {
                if former.contains(v) {
                    let i = choose|i: int| 0 <= i < former.len() && former[i] == v;
                    assert(now[i] == v);
                }
                assert(now[k as int] == w);
            }
        }
        k = k + 1;
    }
    proof {
        assert(after_u.take(k as int) =~= after_u);
    }
}

/// Returns the nodes that are reached from `start` over one or more edges, each once.
pub fn reached_by_edges(adjacency: &Vec<Vec<usize>>, start: usize) -> (found: Vec<usize>)
    requires
        well_listed(adjacency@),
        start < adjacency.len(),
    ensures
        found@.no_duplicates(),
        numbered(found@, adjacency.len() as nat),
        forall|v: usize| #[trigger]
            found@.contains(v) <==> follows(listed(adjacency@), start, v),
{
    let n: usize = adjacency.len();
    let ghost g = listed(adjacency@);
    let mut met: Vec<bool> = Vec::new();
    let mut v: usize = 0;
    while v < n
        invariant
            v <= n,
            met.len() == v,
            forall|u: usize| u < v ==> !#[trigger] met@[u as int],
        decreases n - v,
    {
        met.push(false);
        v = v + 1;
    }
    let mut found: Vec<usize> = Vec::new();
    collect(adjacency, start, &mut met, &mut found);
    proof {
        assert forall|x: usize| #[trigger] found@.contains(x) implies follows(g, start, x) by {
            lemma_follows_edge(g, start, start, x);
        }
    }
    let mut head: usize = 0;
    while head < found.len()
        invariant
            n == adjacency.len(),
            well_listed(adjacency@),
            g == listed(adjacency@),
            start < n,
            met.len() == n,
            head <= found.len(),
            found@.no_duplicates(),
            numbered(found@, n as nat),
            forall|x: usize| x < n ==> (#[trigger] met@[x as int] <==> found@.contains(x)),
            forall|x: usize| #[trigger] found@.contains(x) ==> follows(g, start, x),
            forall|x: usize| #[trigger] edge(g, start, x) ==> found@.contains(x),
            forall|i: int, x: usize|
                0 <= i < head && #[trigger] edge(g, found@[i], x) ==> found@.contains(x),
        decreases n - head,
    {
        let u: usize = found[head];
        let ghost was = found@;
        proof {
            lemma_distinct_below(found@, n as nat);
            assert(was.contains(u));
        }
        collect(adjacency, u, &mut met, &mut found);
        proof {
            assert forall|i: int| 0 <= i < was.len() implies #[trigger] found@[i] == was[i] by {
                assert(found@.take(was.len() as int)[i] == was[i]);
            }
            assert forall|x: usize| #[trigger] found@.contains(x) implies follows(g, start, x) by {
                if !was.contains(x) {
                    lemma_follows_edge(g, start, u, x);
                }
            }
            assert forall|i: int, x: usize|
                0 <= i < head + 1 && #[trigger] edge(g, found@[i], x) implies found@.contains(x) by {
                if i < head {
                    assert(edge(g, was[i], x));
                }
            }
        }
        head = head + 1;
    }
    proof {
        assert forall|x: usize| follows(g, start, x) implies #[trigger] found@.contains(x) by {
            let p = choose|p: Seq<usize>| #[trigger] connects(g, p, start, x) && p.len() >= 2;
            lemma_walk_collected(g, found@, p);
        }
    }
    found
}

/// A list that holds the successors of a node and those of its own members holds the
/// end of every walk from that node that has an edge.
proof fn lemma_walk_collected(g: spec_fn(usize) -> Seq<usize>, found: Seq<usize>, p: Seq<usize>)
    requires
        walk(g, p),
        p.len() >= 2,
        forall|x: usize| #[trigger] edge(g, p[0], x) ==> found.contains(x),
        forall|i: int, x: usize|
            0 <= i < found.len() && #[trigger] edge(g, found[i], x) ==> found.contains(x),
    ensures
        found.contains(p.last()),
    decreases p.len(),
{
    let m = p.len() - 1;
    assert(step(g, p, m));
    if m > 1 {
        lemma_walk_drop_last(g, p);
        lemma_walk_collected(g, found, p.drop_last());
        let i = choose|i: int| 0 <= i < found.len() && found[i] == p[m - 1];
        assert(edge(g, found[i], p[m]));
    }
}

} // verus!
