//! Laws of the symbol graph that relate several of its operations.
use vstd::prelude::*;
use crate::digraph::{connects, cyclic, decomposes, edge, follows, hops, lemma_hops_unique,
    lemma_mutual_is_cyclic, lemma_reaches_edge, lemma_reaches_self,
    lemma_reaches_transitive, lemma_walk_stretch, lemma_components_are_maximal, reaches, step, walk, Discovery, Schedule};
use crate::multi_hop::{calls, neighbours, predecessors, successors, symbols, EdgeView,
    TraversalDirection};

verus! {

/// Two breadth-first searches from the same root meet the same nodes in the same
/// order, as far as both go.
pub proof fn search_is_deterministic<N>(
    g: spec_fn(N) -> Seq<N>,
    root: N,
    a: Discovery<N>,
    b: Discovery<N>,
    j: int,
)
    requires
        a.valid(g, root),
        b.valid(g, root),
        0 <= j < a.order.len(),
        j < b.order.len(),
    ensures
        a.order[j] == b.order[j],
        a.depth[j] == b.depth[j],
        j > 0 ==> a.parent[j] == b.parent[j] && a.slot[j] == b.slot[j],
    decreases j,
{
    if j > 0 {
        assert forall|i: int| 0 <= i < j implies #[trigger] a.order[i] == b.order[i] && a.depth[i]
            == b.depth[i] by {
            search_is_deterministic(g, root, a, b, i);
        }
        assert(a.found(g, j));
        assert(b.found(g, j));
        lemma_not_before(g, root, a, b, j);
        lemma_not_before(g, root, b, a, j);
    }
}

/// Where two searches agree up to a place, neither meets its next node before the other.
proof fn lemma_not_before<N>(
    g: spec_fn(N) -> Seq<N>,
    root: N,
    a: Discovery<N>,
    b: Discovery<N>,
    j: int,
)
    requires
        a.valid(g, root),
        b.valid(g, root),
        0 < j < a.order.len(),
        j < b.order.len(),
        forall|i: int| 0 <= i < j ==> #[trigger] a.order[i] == b.order[i],
    ensures
        a.parent[j] >= b.parent[j],
        a.parent[j] == b.parent[j] ==> a.slot[j] >= b.slot[j],
{
    if a.parent[j] < b.parent[j] || a.parent[j] == b.parent[j] && a.slot[j] < b.slot[j] {
        assert(a.found(g, j));
        assert(b.found(g, j));
        let x = a.order[j];
        let p = a.parent[j];
        assert(g(a.order[p])[a.slot[j]] == x);
        assert(edge(g, a.order[p], x));
        assert(edge(g, b.order[p], x));
        assert(b.order.contains(x));
        let m = choose|m: int| 0 <= m < b.order.len() && b.order[m] == x;
        if m < j {
            assert(a.order[m] == b.order[m]);
        }
        assert(b.found(g, m));
        let q = b.parent[m];
        if q > p {
            assert(!edge(g, b.order[p], b.order[m]));
        }
        if q < p {
            assert(!edge(g, a.order[q], a.order[j]));
            assert(g(b.order[q])[b.slot[m]] == x);
            assert(edge(g, b.order[q], x));
        }
        assert(q == p);
        if b.slot[m] > a.slot[j] {
            assert(g(b.order[p])[a.slot[j]] != b.order[m]);
        }
        if b.slot[m] < a.slot[j] {
            assert(g(a.order[p])[b.slot[m]] != a.order[j]);
        }
        if m > j {
            assert(b.met_before(j, m));
        }
    }
}

/// A traversal to a smaller depth is a prefix of one to a greater depth.
pub proof fn deeper_traversal_extends<N>(
    g: spec_fn(N) -> Seq<N>,
    root: N,
    a: Discovery<N>,
    b: Discovery<N>,
    shallow: nat,
    deep: nat,
)
    requires
        a.valid(g, root),
        a.bounded_by(shallow),
        b.valid(g, root),
        b.bounded_by(deep),
        shallow <= deep,
    ensures
        a.met().len() <= b.met().len(),
        a.met() == b.met().take(a.met().len() as int),
{
    if b.order.len() < a.order.len() {
        let j = b.order.len() as int;
        assert(a.found(g, j));
        a.lemma_met_within(g, root, shallow);
        b.lemma_met_within(g, root, deep);
        assert(a.met()[j - 1] == (a.order[j], a.depth[j]));
        assert(a.met().contains((a.order[j], a.depth[j])));
        assert(b.met().contains((a.order[j], a.depth[j])));
        let k = choose|k: int| 0 <= k < b.met().len() && b.met()[k] == (a.order[j], a.depth[j]);
        search_is_deterministic(g, root, a, b, k + 1);
    }
    assert forall|i: int| 0 <= i < a.met().len() implies a.met()[i] == b.met()[i] by {
        search_is_deterministic(g, root, a, b, i + 1);
    }
    assert(a.met() =~= b.met().take(a.met().len() as int));
}

/// The edges with their ends exchanged.
pub open spec fn reversed(edges: Seq<EdgeView>) -> Seq<EdgeView> {
    edges.map_values(|e: EdgeView| EdgeView { from: e.to, to: e.from, kind: e.kind })
}

/// Following the edges backward is following the reversed edges forward.
pub proof fn incoming_is_outgoing_of_reversed(edges: Seq<EdgeView>, a: Seq<char>)
    ensures
        neighbours(edges, TraversalDirection::Incoming)(a) == neighbours(
            reversed(edges),
            TraversalDirection::Outgoing,
        )(a),
    decreases edges.len(),
{
    reveal(Seq::filter);
    if edges.len() > 0 {
        incoming_is_outgoing_of_reversed(edges.drop_last(), a);
        assert(reversed(edges).drop_last() =~= reversed(edges.drop_last()));
        let rest = edges.drop_last();
        let e = edges.last();
        assert(predecessors(edges, a) =~= if e.to == a {
            predecessors(rest, a).push(e.from)
        } else {
            predecessors(rest, a)
        });
        assert(successors(reversed(edges), a) =~= if e.to == a {
            successors(reversed(rest), a).push(e.from)
        } else {
            successors(reversed(rest), a)
        });
    } else {
        assert(predecessors(edges, a) =~= successors(reversed(edges), a));
    }
}

/// There is an edge from `a` to `b` exactly if one was added, in either direction of
/// looking at it.
pub proof fn edges_are_those_added(edges: Seq<EdgeView>, a: Seq<char>, b: Seq<char>)
    ensures
        edge(neighbours(edges, TraversalDirection::Outgoing), a, b) <==> exists|i: int|
            0 <= i < edges.len() && (#[trigger] edges[i]).from == a && edges[i].to == b,
        edge(neighbours(edges, TraversalDirection::Incoming), b, a) <==> exists|i: int|
            0 <= i < edges.len() && (#[trigger] edges[i]).from == a && edges[i].to == b,
{
    let out = |e: EdgeView| e.from == a;
    let inn = |e: EdgeView| e.to == b;
    let s = successors(edges, a);
    let p = predecessors(edges, b);
    broadcast use vstd::seq_lib::group_filter_ensures;

    if exists|i: int| 0 <= i < edges.len() && (#[trigger] edges[i]).from == a && edges[i].to == b {
        let i = choose|i: int|
            0 <= i < edges.len() && (#[trigger] edges[i]).from == a && edges[i].to == b;
        assert(edges.filter(out).contains(edges[i]));
        let k = choose|k: int|
            0 <= k < edges.filter(out).len() && edges.filter(out)[k] == edges[i];
        assert(s[k] == b);
        assert(edges.filter(inn).contains(edges[i]));
        let m = choose|m: int|
            0 <= m < edges.filter(inn).len() && edges.filter(inn)[m] == edges[i];
        assert(p[m] == a);
    }
    if s.contains(b) {
        let k = choose|k: int| 0 <= k < s.len() && s[k] == b;
        let e = edges.filter(out)[k];
        assert(edges.filter(out).contains(e));
        edges.lemma_filter_contains_rev(out, e);
        let i = choose|i: int| 0 <= i < edges.len() && edges[i] == e;
        assert(edges[i].from == a && edges[i].to == b);
    }
    if p.contains(a) {
        let k = choose|k: int| 0 <= k < p.len() && p[k] == a;
        let e = edges.filter(inn)[k];
        assert(edges.filter(inn).contains(e));
        edges.lemma_filter_contains_rev(inn, e);
        let i = choose|i: int| 0 <= i < edges.len() && edges[i] == e;
        assert(edges[i].from == a && edges[i].to == b);
    }
}

proof fn lemma_walk_reversed(
    edges: Seq<EdgeView>,
    from_dir: TraversalDirection,
    to_dir: TraversalDirection,
    p: Seq<Seq<char>>,
)
    requires
        from_dir != to_dir,
        walk(neighbours(edges, from_dir), p),
    ensures
        walk(neighbours(edges, to_dir), p.reverse()),
{
    let q = p.reverse();
    assert forall|i: int| 0 < i < q.len() implies #[trigger] step(neighbours(edges, to_dir), q, i) by {
        let k = p.len() - i;
        assert(step(neighbours(edges, from_dir), p, k));
        edges_are_those_added(edges, p[k - 1], p[k]);
        edges_are_those_added(edges, p[k], p[k - 1]);
        assert(q[i - 1] == p[k] && q[i] == p[k - 1]);
    }
}

/// A caller is as far from a callee as the callee is from the caller.
pub proof fn distance_is_symmetric(edges: Seq<EdgeView>, a: Seq<char>, b: Seq<char>, k: nat)
    ensures
        hops(neighbours(edges, TraversalDirection::Outgoing), a, b, k) <==> hops(
            neighbours(edges, TraversalDirection::Incoming),
            b,
            a,
            k,
        ),
{
    let out = TraversalDirection::Outgoing;
    let inn = TraversalDirection::Incoming;
    if hops(neighbours(edges, out), a, b, k) {
        lemma_hops_reversed(edges, out, inn, a, b, k);
    }
    if hops(neighbours(edges, inn), b, a, k) {
        lemma_hops_reversed(edges, inn, out, b, a, k);
    }
}

proof fn lemma_hops_reversed(
    edges: Seq<EdgeView>,
    from_dir: TraversalDirection,
    to_dir: TraversalDirection,
    a: Seq<char>,
    b: Seq<char>,
    k: nat,
)
    requires
        from_dir != to_dir,
        hops(neighbours(edges, from_dir), a, b, k),
    ensures
        hops(neighbours(edges, to_dir), b, a, k),
{
    let g = neighbours(edges, from_dir);
    let h = neighbours(edges, to_dir);
    let p = choose|p: Seq<Seq<char>>| #[trigger] connects(g, p, a, b) && p.len() == k + 1;
    lemma_walk_reversed(edges, from_dir, to_dir, p);
    assert(connects(h, p.reverse(), b, a) && p.reverse().len() == k + 1);
    assert forall|q: Seq<Seq<char>>| #[trigger] connects(h, q, b, a) implies q.len() >= k + 1 by {
        lemma_walk_reversed(edges, to_dir, from_dir, q);
        assert(connects(g, q.reverse(), a, b));
    }
}

/// There is a cycle exactly if some component has two members, or one that has an
/// edge to itself.
pub proof fn components_show_cycles(edges: Seq<EdgeView>, sccs: Seq<Seq<Seq<char>>>)
    requires
        decomposes(calls(edges), symbols(edges), sccs),
    ensures
        cyclic(calls(edges)) <==> exists|i: int|
            0 <= i < sccs.len() && ((#[trigger] sccs[i]).len() > 1 || edge(
                calls(edges),
                sccs[i][0],
                sccs[i][0],
            )),
{
    let g = calls(edges);
    let nodes = symbols(edges);
    if cyclic(g) {
        let a = choose|a: Seq<char>| #[trigger] follows(g, a, a);
        let p = choose|p: Seq<Seq<char>>| #[trigger] connects(g, p, a, a) && p.len() >= 2;
        assert(step(g, p, 1));
        let b = p[1];
        assert(edge(g, a, b));
        lemma_reaches_edge(g, a, b);
        lemma_walk_stretch(g, p, 1, p.len() - 1);
        assert(reaches(g, b, a));
        lemma_ends_are_symbols(edges);
        let i = choose|i: int| 0 <= i < sccs.len() && #[trigger] sccs[i].contains(a);
        let j = choose|j: int| 0 <= j < sccs.len() && #[trigger] sccs[j].contains(b);
        lemma_components_are_maximal(g, nodes, sccs, i, j, a, b);
        if sccs[i].len() == 1 {
            assert(sccs[i][0] == a && sccs[i][0] == b);
        }
        assert(sccs[i].len() > 1 || edge(g, sccs[i][0], sccs[i][0]));
    }
    if exists|i: int|
        0 <= i < sccs.len() && ((#[trigger] sccs[i]).len() > 1 || edge(g, sccs[i][0], sccs[i][0])) {
        let i = choose|i: int|
            0 <= i < sccs.len() && ((#[trigger] sccs[i]).len() > 1 || edge(
                g,
                sccs[i][0],
                sccs[i][0],
            ));
        if sccs[i].len() > 1 {
            assert(sccs[i].contains(sccs[i][0]) && sccs[i].contains(sccs[i][1]));
            lemma_mutual_is_cyclic(g, sccs[i][0], sccs[i][1]);
        } else {
            lemma_reaches_edge(g, sccs[i][0], sccs[i][0]);
        }
    }
}

/// Both ends of every edge are symbols of the graph.
proof fn lemma_ends_are_symbols(edges: Seq<EdgeView>)
    ensures
        forall|a: Seq<char>, b: Seq<char>| #[trigger]
            edge(calls(edges), a, b) ==> symbols(edges).contains(a) && symbols(edges).contains(b),
{
    assert forall|a: Seq<char>, b: Seq<char>| #[trigger] edge(calls(edges), a, b) implies symbols(
        edges,
    ).contains(a) && symbols(edges).contains(b) by {
        edges_are_those_added(edges, a, b);
        let i = choose|i: int|
            0 <= i < edges.len() && (#[trigger] edges[i]).from == a && edges[i].to == b;
        assert(edges[i].touches(a) && edges[i].touches(b));
    }
}

/// A topological order exists exactly for the graphs without a cycle: one that has a
/// schedule has none.
pub proof fn scheduled_graphs_are_acyclic(edges: Seq<EdgeView>, s: Schedule<Seq<char>>)
    requires
        s.valid(calls(edges), symbols(edges)),
    ensures
        !cyclic(calls(edges)),
{
    lemma_ends_are_symbols(edges);
    s.lemma_acyclic(calls(edges), symbols(edges));
}

/// The transitive closure of a symbol is what an unbounded traversal from it lists,
/// and the symbol itself if it is on a cycle.
pub proof fn closure_is_unbounded_traversal(edges: Seq<EdgeView>, a: Seq<char>, b: Seq<char>)
    ensures
        a != b ==> (follows(calls(edges), a, b) <==> exists|k: nat|
            k >= 1 && #[trigger] hops(calls(edges), a, b, k)),
        follows(calls(edges), a, a) ==> cyclic(calls(edges)),
{
    let g = calls(edges);
    if a != b && follows(g, a, b) {
        let p = choose|p: Seq<Seq<char>>| #[trigger] connects(g, p, a, b) && p.len() >= 2;
        let k = lemma_shortest(edges, a, b, p);
        let q = choose|q: Seq<Seq<char>>| #[trigger] connects(g, q, a, b) && q.len() == k + 1;
        assert(k >= 1);
    }
    if exists|k: nat| k >= 1 && #[trigger] hops(g, a, b, k) {
        let k = choose|k: nat| k >= 1 && #[trigger] hops(g, a, b, k);
        let q = choose|q: Seq<Seq<char>>| #[trigger] connects(g, q, a, b) && q.len() == k + 1;
        assert(q.len() >= 2);
    }
}

/// A path leads from one symbol to another exactly where they are the same, or the
/// transitive closure of the first holds the second.
pub proof fn paths_lead_into_the_closure(edges: Seq<EdgeView>, a: Seq<char>, b: Seq<char>)
    ensures
        reaches(calls(edges), a, b) <==> a == b || follows(calls(edges), a, b),
{
    let g = calls(edges);
    if reaches(g, a, b) {
        let p = choose|p: Seq<Seq<char>>| #[trigger] connects(g, p, a, b);
        assert(p.len() == 1 ==> a == b);
    }
    if a == b {
        lemma_reaches_self(g, a);
    }
}

/// What an edge adds: `c` can be reached from `a` afterwards exactly where it could
/// before, or where `a` reached the edge's source and its target reached `c`.
pub proof fn added_edge_extends_reach(
    edges: Seq<EdgeView>,
    e: EdgeView,
    a: Seq<char>,
    c: Seq<char>,
)
    ensures
        reaches(calls(edges.push(e)), a, c) <==> reaches(calls(edges), a, c) || (reaches(
            calls(edges),
            a,
            e.from,
        ) && reaches(calls(edges), e.to, c)),
{
    let g = calls(edges);
    let h = calls(edges.push(e));
    if reaches(h, a, c) {
        let p = choose|p: Seq<Seq<char>>| #[trigger] connects(h, p, a, c);
        lemma_walk_over_added(edges, e, p);
    }
    if reaches(g, a, c) {
        lemma_added_reach(edges, e, a, c);
    }
    if reaches(g, a, e.from) && reaches(g, e.to, c) {
        lemma_added_reach(edges, e, a, e.from);
        lemma_added_reach(edges, e, e.to, c);
        edges_are_those_added(edges.push(e), e.from, e.to);
        assert(edges.push(e)[edges.len() as int] == e);
        lemma_reaches_edge(h, e.from, e.to);
        lemma_reaches_transitive(h, a, e.from, e.to);
        lemma_reaches_transitive(h, a, e.to, c);
    }
}

proof fn lemma_added_reach(edges: Seq<EdgeView>, e: EdgeView, a: Seq<char>, b: Seq<char>)
    requires
        reaches(calls(edges), a, b),
    ensures
        reaches(calls(edges.push(e)), a, b),
{
    let p = choose|p: Seq<Seq<char>>| #[trigger] connects(calls(edges), p, a, b);
    added_edges_keep_walks(edges, e, p);
    assert(connects(calls(edges.push(e)), p, a, b));
}

/// A walk that may take the added edge reaches its end without it, or from that
/// edge's target.
proof fn lemma_walk_over_added(edges: Seq<EdgeView>, e: EdgeView, p: Seq<Seq<char>>)
    requires
        walk(calls(edges.push(e)), p),
    ensures
        reaches(calls(edges), p[0], p.last()) || (reaches(calls(edges), p[0], e.from) && reaches(
            calls(edges),
            e.to,
            p.last(),
        )),
    decreases p.len(),
{
    let g = calls(edges);
    let h = calls(edges.push(e));
    let a = p[0];
    let c = p.last();
    if p.len() == 1 {
        lemma_reaches_self(g, a);
    } else {
        let q = p.drop_last();
        assert forall|i: int| 0 < i < q.len() implies #[trigger] step(h, q, i) by {
            assert(step(h, p, i));
        }
        assert(walk(h, q));
        lemma_walk_over_added(edges, e, q);
        let b = q.last();
        assert(step(h, p, p.len() - 1));
        assert(edge(h, b, c));
        edges_are_those_added(edges.push(e), b, c);
        edges_are_those_added(edges, b, c);
        let k = choose|k: int|
            0 <= k < edges.push(e).len() && (#[trigger] edges.push(e)[k]).from == b
                && edges.push(e)[k].to == c;
        if k < edges.len() {
            assert(edges[k].from == b && edges[k].to == c);
            lemma_reaches_edge(g, b, c);
            if reaches(g, a, b) {
                lemma_reaches_transitive(g, a, b, c);
            } else {
                lemma_reaches_transitive(g, e.to, b, c);
            }
        } else {
            lemma_reaches_self(g, e.to);
        }
    }
}

/// Where there is a walk, there is a shortest one.
proof fn lemma_shortest(
    edges: Seq<EdgeView>,
    a: Seq<char>,
    b: Seq<char>,
    p: Seq<Seq<char>>,
) -> (k: nat)
    requires
        connects(calls(edges), p, a, b),
    ensures
        hops(calls(edges), a, b, k),
        k < p.len(),
    decreases p.len(),
{
    let g = calls(edges);
    if exists|q: Seq<Seq<char>>| #[trigger] connects(g, q, a, b) && q.len() < p.len() {
        let q = choose|q: Seq<Seq<char>>| #[trigger] connects(g, q, a, b) && q.len() < p.len();
        lemma_shortest(edges, a, b, q)
    } else {
        (p.len() - 1) as nat
    }
}

/// The shortest path to a symbol has as many edges as a traversal gives hops.
pub proof fn shortest_path_matches_traversal(
    edges: Seq<EdgeView>,
    start: Seq<char>,
    target: Seq<char>,
    path: Seq<Seq<char>>,
    d: Discovery<Seq<char>>,
    limit: nat,
    k: nat,
)
    requires
        connects(calls(edges), path, start, target),
        forall|p: Seq<Seq<char>>| #[trigger]
            connects(calls(edges), p, start, target) ==> path.len() <= p.len(),
        d.valid(calls(edges), start),
        d.bounded_by(limit),
        d.met().contains((target, k)),
    ensures
        path.len() == k + 1,
{
    d.lemma_met_within(calls(edges), start, limit);
    assert(hops(calls(edges), start, target, (path.len() - 1) as nat));
    lemma_hops_unique(calls(edges), start, target, k, (path.len() - 1) as nat);
}

/// Adding an edge never takes away a walk.
pub proof fn added_edges_keep_walks(edges: Seq<EdgeView>, e: EdgeView, p: Seq<Seq<char>>)
    requires
        walk(calls(edges), p),
    ensures
        walk(calls(edges.push(e)), p),
{
    let more = edges.push(e);
    assert forall|i: int| 0 < i < p.len() implies #[trigger] step(calls(more), p, i) by {
        assert(step(calls(edges), p, i));
        edges_are_those_added(edges, p[i - 1], p[i]);
        edges_are_those_added(more, p[i - 1], p[i]);
        let k = choose|k: int|
            0 <= k < edges.len() && (#[trigger] edges[k]).from == p[i - 1] && edges[k].to == p[i];
        assert(more[k].from == p[i - 1] && more[k].to == p[i]);
    }
}

} // verus!
