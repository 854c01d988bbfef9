//! What the symbol graph answers, in terms of the edges that were added to it.
use vstd::hash_set::StringHashSet;
use vstd::prelude::*;
use crate::digraph::{connects, cyclic, edge, follows, hops, lemma_reaches_earlier, reaches,
    step, walk, Discovery, Schedule};
use crate::graph_laws::{edges_are_those_added, search_is_deterministic};
use crate::multi_hop::{calls, group_texts, hop_texts, neighbours, predecessors, successors,
    symbols, texts, EdgeView, SymbolGraph, TraversalDirection};

verus! {

/// Where the edge is followed from.
pub open spec fn source(e: EdgeView, direction: TraversalDirection) -> Seq<char> {
    match direction {
        TraversalDirection::Outgoing => e.from,
        TraversalDirection::Incoming => e.to,
    }
}

/// Where following the edge leads.
pub open spec fn target(e: EdgeView, direction: TraversalDirection) -> Seq<char> {
    match direction {
        TraversalDirection::Outgoing => e.to,
        TraversalDirection::Incoming => e.from,
    }
}

/// The `i`-th edge that was added leads from `a` to `b`.
pub open spec fn arc_at(
    edges: Seq<EdgeView>,
    direction: TraversalDirection,
    a: Seq<char>,
    b: Seq<char>,
    i: int,
) -> bool {
    &&& 0 <= i < edges.len()
    &&& source(edges[i], direction) == a
    &&& target(edges[i], direction) == b
}

/// An edge that was added leads from `a` to `b`.
pub open spec fn arc(
    edges: Seq<EdgeView>,
    direction: TraversalDirection,
    a: Seq<char>,
    b: Seq<char>,
) -> bool {
    exists|i: int| #[trigger] arc_at(edges, direction, a, b, i)
}

/// An edge leads to the `i`-th symbol of `p` from the one before it.
pub open spec fn link(
    edges: Seq<EdgeView>,
    direction: TraversalDirection,
    p: Seq<Seq<char>>,
    i: int,
) -> bool {
    arc(edges, direction, p[i - 1], p[i])
}

/// `p` goes from `a` to `b` along edges.
pub open spec fn chain(
    edges: Seq<EdgeView>,
    direction: TraversalDirection,
    p: Seq<Seq<char>>,
    a: Seq<char>,
    b: Seq<char>,
) -> bool {
    &&& p.len() > 0
    &&& p[0] == a
    &&& p[p.len() - 1] == b
    &&& forall|i: int| 0 < i < p.len() ==> #[trigger] link(edges, direction, p, i)
}

/// Some chain goes from `a` to `b`.
pub open spec fn chained(edges: Seq<EdgeView>, a: Seq<char>, b: Seq<char>) -> bool {
    exists|p: Seq<Seq<char>>| #[trigger] chain(edges, TraversalDirection::Outgoing, p, a, b)
}

/// Some chain of one edge or more goes from `a` to `b`.
pub open spec fn chained_on(edges: Seq<EdgeView>, a: Seq<char>, b: Seq<char>) -> bool {
    exists|p: Seq<Seq<char>>| #[trigger]
        chain(edges, TraversalDirection::Outgoing, p, a, b) && p.len() >= 2
}

/// The symbol is at an end of an edge.
pub open spec fn known(edges: Seq<EdgeView>, a: Seq<char>) -> bool {
    exists|i: int| 0 <= i < edges.len() && ((#[trigger] edges[i]).from == a || edges[i].to == a)
}

/// The edges of the graph are those that were added.
pub proof fn edges_are_arcs(
    edges: Seq<EdgeView>,
    direction: TraversalDirection,
    a: Seq<char>,
    b: Seq<char>,
)
    ensures
        edge(neighbours(edges, direction), a, b) <==> arc(edges, direction, a, b),
{
    match direction {
        TraversalDirection::Outgoing => {
            edges_are_those_added(edges, a, b);
            if edge(neighbours(edges, direction), a, b) {
                let i = choose|i: int|
                    0 <= i < edges.len() && (#[trigger] edges[i]).from == a && edges[i].to == b;
                assert(arc_at(edges, direction, a, b, i));
            }
            if arc(edges, direction, a, b) {
                let i = choose|i: int| #[trigger] arc_at(edges, direction, a, b, i);
                assert(edges[i].from == a && edges[i].to == b);
            }
        },
        TraversalDirection::Incoming => {
            edges_are_those_added(edges, b, a);
            if edge(neighbours(edges, direction), a, b) {
                let i = choose|i: int|
                    0 <= i < edges.len() && (#[trigger] edges[i]).from == b && edges[i].to == a;
                assert(arc_at(edges, direction, a, b, i));
            }
            if arc(edges, direction, a, b) {
                let i = choose|i: int| #[trigger] arc_at(edges, direction, a, b, i);
                assert(edges[i].from == b && edges[i].to == a);
            }
        },
    }
}

/// The walks of the graph are the chains of edges that were added.
pub proof fn walks_are_chains(
    edges: Seq<EdgeView>,
    direction: TraversalDirection,
    p: Seq<Seq<char>>,
    a: Seq<char>,
    b: Seq<char>,
)
    ensures
        connects(neighbours(edges, direction), p, a, b) <==> chain(edges, direction, p, a, b),
{
    let g = neighbours(edges, direction);
    if connects(g, p, a, b) {
        assert forall|i: int| 0 < i < p.len() implies #[trigger] link(edges, direction, p, i) by {
            assert(step(g, p, i));
            edges_are_arcs(edges, direction, p[i - 1], p[i]);
        }
    }
    if chain(edges, direction, p, a, b) {
        assert forall|i: int| 0 < i < p.len() implies #[trigger] step(g, p, i) by {
            assert(link(edges, direction, p, i));
            edges_are_arcs(edges, direction, p[i - 1], p[i]);
        }
        assert(walk(g, p));
    }
}

/// A symbol can be reached exactly where a chain goes there.
pub proof fn reaching_is_by_chains(edges: Seq<EdgeView>, a: Seq<char>, b: Seq<char>)
    ensures
        reaches(calls(edges), a, b) <==> chained(edges, a, b),
        follows(calls(edges), a, b) <==> chained_on(edges, a, b),
{
    let g = calls(edges);
    let out = TraversalDirection::Outgoing;
    if reaches(g, a, b) {
        let p = choose|p: Seq<Seq<char>>| #[trigger] connects(g, p, a, b);
        walks_are_chains(edges, out, p, a, b);
    }
    if chained(edges, a, b) {
        let p = choose|p: Seq<Seq<char>>| #[trigger] chain(edges, out, p, a, b);
        walks_are_chains(edges, out, p, a, b);
    }
    if follows(g, a, b) {
        let p = choose|p: Seq<Seq<char>>| #[trigger] connects(g, p, a, b) && p.len() >= 2;
        walks_are_chains(edges, out, p, a, b);
    }
    if chained_on(edges, a, b) {
        let p = choose|p: Seq<Seq<char>>| #[trigger] chain(edges, out, p, a, b) && p.len() >= 2;
        walks_are_chains(edges, out, p, a, b);
    }
}

/// The shortest chain from `a` to `b` has `k` edges.
pub open spec fn distance(
    edges: Seq<EdgeView>,
    direction: TraversalDirection,
    a: Seq<char>,
    b: Seq<char>,
    k: nat,
) -> bool {
    &&& exists|p: Seq<Seq<char>>| #[trigger] chain(edges, direction, p, a, b) && p.len() == k + 1
    &&& forall|p: Seq<Seq<char>>| #[trigger] chain(edges, direction, p, a, b) ==> p.len() > k
}

/// How many hops there are is the length of the shortest chain.
pub proof fn hops_are_distances(
    edges: Seq<EdgeView>,
    direction: TraversalDirection,
    a: Seq<char>,
    b: Seq<char>,
    k: nat,
)
    ensures
        hops(neighbours(edges, direction), a, b, k) <==> distance(edges, direction, a, b, k),
{
    let g = neighbours(edges, direction);
    if hops(g, a, b, k) {
        let p = choose|p: Seq<Seq<char>>| #[trigger] connects(g, p, a, b) && p.len() == k + 1;
        walks_are_chains(edges, direction, p, a, b);
        assert forall|q: Seq<Seq<char>>| #[trigger] chain(edges, direction, q, a, b) implies q.len()
            > k by {
            walks_are_chains(edges, direction, q, a, b);
        }
    }
    if distance(edges, direction, a, b, k) {
        let p = choose|p: Seq<Seq<char>>| #[trigger]
            chain(edges, direction, p, a, b) && p.len() == k + 1;
        walks_are_chains(edges, direction, p, a, b);
        assert forall|q: Seq<Seq<char>>| #[trigger] connects(g, q, a, b) implies q.len() >= k
            + 1 by {
            walks_are_chains(edges, direction, q, a, b);
        }
    }
}

/// The root, and the symbols that a traversal lists.
pub open spec fn met_in_order(root: Seq<char>, res: Seq<(String, usize)>) -> Seq<Seq<char>> {
    Seq::new(
        res.len() + 1,
        |i: int|
            if i == 0 {
                root
            } else {
                res[i - 1].0@
            },
    )
}

/// Of the symbols in `list` the one at `p` is the first that leads to the one at `i`.
pub open spec fn first_leads(
    edges: Seq<EdgeView>,
    direction: TraversalDirection,
    list: Seq<Seq<char>>,
    i: int,
    p: int,
) -> bool {
    &&& 0 <= p < list.len()
    &&& arc(edges, direction, list[p], list[i])
    &&& forall|q: int| 0 <= q < p ==> !#[trigger] arc(edges, direction, list[q], list[i])
}

/// The `e`-th edge is the first that was added from `a` to `b`.
pub open spec fn first_arc(
    edges: Seq<EdgeView>,
    direction: TraversalDirection,
    a: Seq<char>,
    b: Seq<char>,
    e: int,
) -> bool {
    &&& arc_at(edges, direction, a, b, e)
    &&& forall|f: int| f < e ==> !#[trigger] arc_at(edges, direction, a, b, f)
}

/// A traversal lists each symbol that is one hop or more away, and at most as many as
/// are allowed, once and with its distance.
pub proof fn outcome_of_traversing(
    graph: &SymbolGraph,
    root: &str,
    direction: TraversalDirection,
    max_depth: usize,
    res: Vec<(String, usize)>,
    a: Seq<char>,
    k: nat,
)
    requires
        call_ensures(SymbolGraph::traverse, (graph, root, direction, max_depth), res),
    ensures
        (exists|j: int| 0 <= j < res.len() && (#[trigger] res@[j]).0@ == a && res@[j].1 == k) <==> (
        1 <= k <= max_depth && distance(graph@, direction, root@, a, k)),
        forall|i: int, j: int|
            0 <= i < j < res.len() ==> (#[trigger] res@[i]).0@ != (#[trigger] res@[j]).0@,
{
    hops_are_distances(graph@, direction, root@, a, k);
    let listed = hop_texts(res@);
    assert(listed.contains((a, k)) <==> 1 <= k <= max_depth && hops(
        neighbours(graph@, direction),
        root@,
        a,
        k,
    ));
    if listed.contains((a, k)) {
        let j = choose|j: int| 0 <= j < listed.len() && listed[j] == (a, k);
        assert(res@[j].0@ == a && res@[j].1 == k);
    }
    if exists|j: int| 0 <= j < res.len() && (#[trigger] res@[j]).0@ == a && res@[j].1 == k {
        let j = choose|j: int| 0 <= j < res.len() && (#[trigger] res@[j]).0@ == a && res@[j].1 == k;
        assert(listed[j] == (a, k));
    }
}

/// The order of a traversal: a symbol stands before another where the first symbol
/// listed that leads to it stands before the first that leads to the other, or where
/// that is the same one and its first edge there was added earlier.
pub proof fn order_of_traversing(
    graph: &SymbolGraph,
    root: &str,
    direction: TraversalDirection,
    max_depth: usize,
    res: Vec<(String, usize)>,
    i: int,
    j: int,
    p: int,
    q: int,
    e: int,
    f: int,
)
    requires
        call_ensures(SymbolGraph::traverse, (graph, root, direction, max_depth), res),
        0 < i < j <= res.len(),
        ({
            let list = met_in_order(root@, res@);
            &&& first_leads(graph@, direction, list, i, p)
            &&& first_leads(graph@, direction, list, j, q)
            &&& first_arc(graph@, direction, list[p], list[i], e)
            &&& first_arc(graph@, direction, list[q], list[j], f)
        }),
    ensures
        p <= q,
        p == q ==> e < f,
        p < i,
        q < j,
{
    let g = neighbours(graph@, direction);
    let d = choose|d: Discovery<Seq<char>>| #[trigger]
        d.valid(g, root@) && d.bounded_by(max_depth as nat) && hop_texts(res@) == d.met();
    let list = met_in_order(root@, res@);
    assert(hop_texts(res@).len() == res.len());
    assert(d.order =~= list) by {
        assert(d.order.len() == list.len());
        assert forall|k: int| 0 <= k < list.len() implies d.order[k] == list[k] by {
            if k > 0 {
                assert(hop_texts(res@)[k - 1] == d.met()[k - 1]);
            }
        }
    }
    lemma_parent(graph@, direction, d, root@, i, p);
    lemma_parent(graph@, direction, d, root@, j, q);
    assert(d.met_before(i, j));
    if p == q {
        lemma_slots(graph@, direction, d, root@, i, j, e, f);
    }
}

proof fn lemma_parent(
    edges: Seq<EdgeView>,
    direction: TraversalDirection,
    d: Discovery<Seq<char>>,
    root: Seq<char>,
    i: int,
    p: int,
)
    requires
        d.valid(neighbours(edges, direction), root),
        0 < i < d.order.len(),
        first_leads(edges, direction, d.order, i, p),
    ensures
        d.parent[i] == p,
        p < i,
{
    let g = neighbours(edges, direction);
    assert(d.found(g, i));
    let k = d.parent[i];
    assert(edge(g, d.order[k], d.order[i]));
    edges_are_arcs(edges, direction, d.order[k], d.order[i]);
    edges_are_arcs(edges, direction, d.order[p], d.order[i]);
    if p < k {
        assert(!edge(g, d.order[p], d.order[i]));
    }
}

/// Where the elements that a filter keeps stand.
proof fn lemma_kept_places<T>(s: Seq<T>, pred: spec_fn(T) -> bool) -> (at: Seq<int>)
    ensures
        at.len() == s.filter(pred).len(),
        forall|k: int|
            0 <= k < at.len() ==> 0 <= #[trigger] at[k] < s.len() && s[at[k]] == s.filter(pred)[k]
                && pred(s[at[k]]),
        forall|j: int, k: int| 0 <= j < k < at.len() ==> #[trigger] at[j] < #[trigger] at[k],
        forall|i: int| 0 <= i < s.len() && pred(#[trigger] s[i]) ==> at.contains(i),
    decreases s.len(),
{
    reveal(Seq::filter);
    if s.len() == 0 {
        Seq::empty()
    } else {
        let rest = s.drop_last();
        let last = s.len() - 1;
        let before = lemma_kept_places(rest, pred);
        let at = if pred(s.last()) {
            before.push(last)
        } else {
            before
        };
        assert forall|k: int| 0 <= k < at.len() implies 0 <= #[trigger] at[k] < s.len() && s[at[k]]
            == s.filter(pred)[k] && pred(s[at[k]]) by {
            if k < before.len() {
                assert(at[k] == before[k]);
                assert(rest[before[k]] == s[before[k]]);
            }
        }
        assert forall|j: int, k: int| 0 <= j < k < at.len() implies #[trigger] at[j]
            < #[trigger] at[k] by {
            assert(at[j] == before[j]);
            if k < before.len() {
                assert(at[k] == before[k]);
            }
        }
        assert forall|i: int| 0 <= i < s.len() && pred(#[trigger] s[i]) implies at.contains(i) by {
            if i < last {
                assert(rest[i] == s[i]);
                assert(before.contains(i));
                let k = choose|k: int| 0 <= k < before.len() && before[k] == i;
                assert(at[k] == i);
            } else {
                assert(at[at.len() - 1] == i);
            }
        }
        at
    }
}

/// The places of the edges from `a`, in the order in which its neighbours are listed.
proof fn lemma_arc_places(
    edges: Seq<EdgeView>,
    direction: TraversalDirection,
    a: Seq<char>,
) -> (at: Seq<int>)
    ensures
        ({
            let next = neighbours(edges, direction)(a);
            &&& at.len() == next.len()
            &&& forall|k: int|
                0 <= k < at.len() ==> arc_at(edges, direction, a, next[k], #[trigger] at[k])
            &&& forall|j: int, k: int| 0 <= j < k < at.len() ==> #[trigger] at[j] < #[trigger] at[k]
            &&& forall|b: Seq<char>, i: int| #[trigger]
                arc_at(edges, direction, a, b, i) ==> at.contains(i)
        }),
{
    match direction {
        TraversalDirection::Outgoing => {
            let pred = |e: EdgeView| e.from == a;
            let at = lemma_kept_places(edges, pred);
            assert(neighbours(edges, direction)(a) == successors(edges, a));
            assert forall|k: int| 0 <= k < at.len() implies arc_at(
                edges,
                direction,
                a,
                neighbours(edges, direction)(a)[k],
                #[trigger] at[k],
            ) by {
                assert(pred(edges[at[k]]));
            }
            assert forall|b: Seq<char>, i: int| #[trigger]
                arc_at(edges, direction, a, b, i) implies at.contains(i) by {
                assert(pred(edges[i]));
            }
            at
        },
        TraversalDirection::Incoming => {
            let pred = |e: EdgeView| e.to == a;
            let at = lemma_kept_places(edges, pred);
            assert(neighbours(edges, direction)(a) == predecessors(edges, a));
            assert forall|k: int| 0 <= k < at.len() implies arc_at(
                edges,
                direction,
                a,
                neighbours(edges, direction)(a)[k],
                #[trigger] at[k],
            ) by {
                assert(pred(edges[at[k]]));
            }
            assert forall|b: Seq<char>, i: int| #[trigger]
                arc_at(edges, direction, a, b, i) implies at.contains(i) by {
                assert(pred(edges[i]));
            }
            at
        },
    }
}

proof fn lemma_slots(
    edges: Seq<EdgeView>,
    direction: TraversalDirection,
    d: Discovery<Seq<char>>,
    root: Seq<char>,
    i: int,
    j: int,
    e: int,
    f: int,
)
    requires
        d.valid(neighbours(edges, direction), root),
        0 < i < j < d.order.len(),
        d.parent[i] == d.parent[j],
        first_arc(edges, direction, d.order[d.parent[i]], d.order[i], e),
        first_arc(edges, direction, d.order[d.parent[i]], d.order[j], f),
    ensures
        e < f,
{
    let g = neighbours(edges, direction);
    assert(d.found(g, i));
    assert(d.found(g, j));
    assert(d.met_before(i, j));
    let a = d.order[d.parent[i]];
    let at = lemma_arc_places(edges, direction, a);
    lemma_first_slot(edges, direction, a, d.order[i], at, d.slot[i], e);
    lemma_first_slot(edges, direction, a, d.order[j], at, d.slot[j], f);
}

proof fn lemma_first_slot(
    edges: Seq<EdgeView>,
    direction: TraversalDirection,
    a: Seq<char>,
    b: Seq<char>,
    at: Seq<int>,
    slot: int,
    e: int,
)
    requires
        ({
            let next = neighbours(edges, direction)(a);
            &&& at.len() == next.len()
            &&& forall|k: int|
                0 <= k < at.len() ==> arc_at(edges, direction, a, next[k], #[trigger] at[k])
            &&& forall|j: int, k: int| 0 <= j < k < at.len() ==> #[trigger] at[j] < #[trigger] at[k]
            &&& forall|c: Seq<char>, i: int| #[trigger]
                arc_at(edges, direction, a, c, i) ==> at.contains(i)
            &&& 0 <= slot < next.len()
            &&& next[slot] == b
            &&& forall|m: int| 0 <= m < slot ==> #[trigger] next[m] != b
        }),
        first_arc(edges, direction, a, b, e),
    ensures
        e == at[slot],
{
    let next = neighbours(edges, direction)(a);
    assert(arc_at(edges, direction, a, b, at[slot]));
    assert(at.contains(e));
    let m = choose|m: int| 0 <= m < at.len() && at[m] == e;
    assert(arc_at(edges, direction, a, next[m], at[m]));
    assert(next[m] == b);
    if m < slot {
        assert(next[m] != b);
    } else if m > slot {
        assert(at[slot] < at[m]);
    }
}

/// The shortest path is a chain from start to target, no chain is shorter, and there is
/// one exactly where there is a chain.
pub proof fn outcome_of_finding_a_path(
    graph: &SymbolGraph,
    start: &str,
    goal: &str,
    res: Option<Vec<String>>,
)
    requires
        call_ensures(SymbolGraph::find_shortest_path, (graph, start, goal), res),
    ensures
        res is Some <==> chained(graph@, start@, goal@),
        res matches Some(path) ==> {
            let names = Seq::new(path@.len(), |i: int| path@[i]@);
            &&& chain(graph@, TraversalDirection::Outgoing, names, start@, goal@)
            &&& forall|p: Seq<Seq<char>>| #[trigger]
                chain(graph@, TraversalDirection::Outgoing, p, start@, goal@) ==> path@.len()
                    <= p.len()
        },
{
    let out = TraversalDirection::Outgoing;
    reaching_is_by_chains(graph@, start@, goal@);
    if res is Some {
        let path = res->0;
        let names = Seq::new(path@.len(), |i: int| path@[i]@);
        assert(names =~= texts(path@));
        walks_are_chains(graph@, out, names, start@, goal@);
        assert forall|p: Seq<Seq<char>>| #[trigger]
            chain(graph@, out, p, start@, goal@) implies path@.len() <= p.len() by {
            walks_are_chains(graph@, out, p, start@, goal@);
        }
    }
}

/// Which of the shortest paths is found: it enters each of its symbols from the first
/// symbol that leads there, in the order in which a traversal from the start lists them.
pub proof fn path_follows_the_traversal(
    graph: &SymbolGraph,
    start: &str,
    goal: &str,
    res: Option<Vec<String>>,
    max_depth: usize,
    list: Vec<(String, usize)>,
    t: int,
    i: int,
    p: int,
)
    requires
        call_ensures(SymbolGraph::find_shortest_path, (graph, start, goal), res),
        call_ensures(
            SymbolGraph::traverse,
            (graph, start, TraversalDirection::Outgoing, max_depth),
            list,
        ),
        res is Some,
        res->0.len() <= max_depth + 1,
        0 < t < res->0.len(),
        ({
            let met = met_in_order(start@, list@);
            &&& 0 <= i < met.len()
            &&& met[i] == res->0@[t]@
            &&& first_leads(graph@, TraversalDirection::Outgoing, met, i, p)
        }),
    ensures
        res->0@[t - 1]@ == met_in_order(start@, list@)[p],
{
    let out = TraversalDirection::Outgoing;
    let g = calls(graph@);
    let path = texts(res->0@);
    let met = met_in_order(start@, list@);
    let (d, j) = choose|d: Discovery<Seq<char>>, j: int|
        d.valid(g, start@) && 0 <= j < d.order.len() && d.order[j] == goal@ && path
            == #[trigger] d.path_to(j);
    let w = choose|w: Discovery<Seq<char>>| #[trigger]
        w.valid(g, start@) && w.bounded_by(max_depth as nat) && hop_texts(list@) == w.met();
    assert(w.order =~= met) by {
        assert(hop_texts(list@).len() == list.len());
        assert forall|k: int| 0 <= k < met.len() implies w.order[k] == met[k] by {
            if k > 0 {
                assert(hop_texts(list@)[k - 1] == w.met()[k - 1]);
            }
        }
    }
    let k = lemma_path_places(g, start@, d, j, t);
    // The symbol at `t` of the path is the `k`-th that its own search met.
    assert(d.order[k] == path[t]);
    assert(path[t] == res->0@[t]@);
    assert(path[t - 1] == res->0@[t - 1]@);
    if i == 0 {
        if k > 0 {
            assert(d.order[0] == d.order[k]);
        }
    } else {
        if i < d.order.len() {
            search_is_deterministic(g, start@, d, w, i);
            assert(d.order[i] == d.order[k]);
        } else {
            search_is_deterministic(g, start@, d, w, k);
            assert(w.order[k] == w.order[i]);
        }
        assert(i == k);
        search_is_deterministic(g, start@, d, w, k);
        assert(d.found(g, k));
        search_is_deterministic(g, start@, d, w, d.parent[k]);
        lemma_parent(graph@, out, w, start@, i, p);
    }
}

/// Where the symbols of a path stand among those that the search met.
proof fn lemma_path_places(
    g: spec_fn(Seq<char>) -> Seq<Seq<char>>,
    root: Seq<char>,
    d: Discovery<Seq<char>>,
    j: int,
    t: int,
) -> (k: int)
    requires
        d.valid(g, root),
        0 <= j < d.order.len(),
        0 <= t < d.path_to(j).len(),
    ensures
        0 <= k < d.order.len(),
        d.order[k] == d.path_to(j)[t],
        t > 0 ==> k > 0 && d.path_to(j)[t - 1] == d.order[d.parent[k]],
        t == 0 ==> k == 0,
    decreases j,
{
    if j == 0 {
        0
    } else {
        assert(d.found(g, j));
        let before = d.path_to(d.parent[j]);
        d.lemma_path_to(g, root, d.parent[j]);
        if t < before.len() {
            lemma_path_places(g, root, d, d.parent[j], t)
        } else {
            assert(before.last() == d.order[d.parent[j]]);
            j
        }
    }
}

/// The components hold each known symbol once; two symbols are in the same one exactly
/// where chains go both ways; and no chain goes from a component to a later one.
pub proof fn outcome_of_finding_components(graph: &SymbolGraph, res: Vec<Vec<String>>)
    requires
        call_ensures(SymbolGraph::strongly_connected_components, (graph,), res),
    ensures
        forall|i: int| 0 <= i < res.len() ==> (#[trigger] res@[i]).len() > 0,
        forall|a: Seq<char>| #[trigger]
            known(graph@, a) <==> exists|i: int, x: int|
                0 <= i < res.len() && 0 <= x < res@[i].len() && #[trigger] res@[i]@[x]@ == a,
        forall|i: int, x: int, j: int, y: int|
            #![trigger res@[i]@[x], res@[j]@[y]]
            0 <= i < res.len() && 0 <= x < res@[i].len() && 0 <= j < res.len() && 0 <= y
                < res@[j].len() ==> {
                &&& res@[i]@[x]@ == res@[j]@[y]@ ==> i == j && x == y
                &&& i == j <==> chained(graph@, res@[i]@[x]@, res@[j]@[y]@) && chained(
                    graph@,
                    res@[j]@[y]@,
                    res@[i]@[x]@,
                )
                &&& i < j ==> !chained(graph@, res@[i]@[x]@, res@[j]@[y]@)
            },
{
    let g = calls(graph@);
    let nodes = symbols(graph@);
    let groups = group_texts(res@);
    assert(groups.len() == res.len());
    assert forall|i: int| 0 <= i < res.len() implies (#[trigger] res@[i]).len() > 0 by {
        assert(groups[i] == texts(res@[i]@));
        assert(groups[i].len() > 0);
    }
    assert forall|a: Seq<char>| #[trigger] known(graph@, a) <==> exists|i: int, x: int|
        0 <= i < res.len() && 0 <= x < res@[i].len() && #[trigger] res@[i]@[x]@ == a by {
        lemma_known(graph@, a);
        if known(graph@, a) {
            assert(nodes.contains(a));
            let i = choose|i: int| 0 <= i < groups.len() && #[trigger] groups[i].contains(a);
            let x = choose|x: int| 0 <= x < groups[i].len() && groups[i][x] == a;
            assert(groups[i] == texts(res@[i]@));
            assert(res@[i]@[x]@ == a);
        }
        if exists|i: int, x: int|
            0 <= i < res.len() && 0 <= x < res@[i].len() && #[trigger] res@[i]@[x]@ == a {
            let (i, x) = choose|i: int, x: int|
                0 <= i < res.len() && 0 <= x < res@[i].len() && #[trigger] res@[i]@[x]@ == a;
            assert(groups[i] == texts(res@[i]@));
            assert(groups[i][x] == a);
            assert(groups[i].contains(a));
        }
    }
    assert forall|i: int, x: int, j: int, y: int|
        #![trigger res@[i]@[x], res@[j]@[y]]
        0 <= i < res.len() && 0 <= x < res@[i].len() && 0 <= j < res.len() && 0 <= y
            < res@[j].len() implies {
        &&& res@[i]@[x]@ == res@[j]@[y]@ ==> i == j && x == y
        &&& i == j <==> chained(graph@, res@[i]@[x]@, res@[j]@[y]@) && chained(
            graph@,
            res@[j]@[y]@,
            res@[i]@[x]@,
        )
        &&& i < j ==> !chained(graph@, res@[i]@[x]@, res@[j]@[y]@)
    } by {
        let a = res@[i]@[x]@;
        let b = res@[j]@[y]@;
        assert(groups[i] == texts(res@[i]@) && groups[j] == texts(res@[j]@));
        assert(groups[i][x] == a && groups[j][y] == b);
        assert(groups[i].contains(a) && groups[j].contains(b));
        assert(texts(res@[i]@).contains(a) && texts(res@[j]@).contains(b));
        reaching_is_by_chains(graph@, a, b);
        reaching_is_by_chains(graph@, b, a);
        if a == b {
            assert(i == j);
            assert(groups[i].no_duplicates());
        }
        if i < j && chained(graph@, a, b) {
            assert forall|c: Seq<char>, e: Seq<char>|
                nodes.contains(c) && #[trigger] edge(g, c, e) implies nodes.contains(e) by {
                edges_are_those_added(graph@, c, e);
                let k = choose|k: int|
                    0 <= k < graph@.len() && (#[trigger] graph@[k]).from == c && graph@[k].to == e;
                assert(graph@[k].touches(e));
            }
            lemma_reaches_earlier(g, nodes, groups, i, j, a, b);
        }
    }
}

proof fn lemma_known(edges: Seq<EdgeView>, a: Seq<char>)
    ensures
        symbols(edges).contains(a) <==> known(edges, a),
{
    if symbols(edges).contains(a) {
        let i = choose|i: int| 0 <= i < edges.len() && #[trigger] edges[i].touches(a);
        assert(edges[i].from == a || edges[i].to == a);
    }
    if known(edges, a) {
        let i = choose|i: int|
            0 <= i < edges.len() && ((#[trigger] edges[i]).from == a || edges[i].to == a);
        assert(edges[i].touches(a));
    }
}

/// A graph has a cycle exactly where a chain of one edge or more comes back.
pub proof fn outcome_of_looking_for_a_cycle(graph: &SymbolGraph, res: bool)
    requires
        call_ensures(SymbolGraph::has_cycle, (graph,), res),
    ensures
        res <==> exists|a: Seq<char>| #[trigger] chained_on(graph@, a, a),
{
    lemma_cyclic(graph@);
}

proof fn lemma_cyclic(edges: Seq<EdgeView>)
    ensures
        cyclic(calls(edges)) <==> exists|a: Seq<char>| #[trigger] chained_on(edges, a, a),
{
    let g = calls(edges);
    if cyclic(g) {
        let a = choose|a: Seq<char>| #[trigger] follows(g, a, a);
        reaching_is_by_chains(edges, a, a);
        assert(chained_on(edges, a, a));
    }
    if exists|a: Seq<char>| #[trigger] chained_on(edges, a, a) {
        let a = choose|a: Seq<char>| #[trigger] chained_on(edges, a, a);
        reaching_is_by_chains(edges, a, a);
        assert(follows(g, a, a));
    }
}

/// The closure of a symbol holds exactly what chains of one edge or more go to.
pub proof fn outcome_of_closing(
    graph: &SymbolGraph,
    start: &str,
    res: StringHashSet,
    a: Seq<char>,
)
    requires
        call_ensures(SymbolGraph::transitive_closure, (graph, start), res),
    ensures
        res@.contains(a) <==> chained_on(graph@, start@, a),
{
    reaching_is_by_chains(graph@, start@, a);
    assert(res@.contains(a) <==> follows(calls(graph@), start@, a));
}

/// Of the symbols in `list` the one at `p` is the last that leads to the one at `i`.
pub open spec fn last_leads(
    edges: Seq<EdgeView>,
    list: Seq<Seq<char>>,
    i: int,
    p: int,
) -> bool {
    let out = TraversalDirection::Outgoing;
    &&& 0 <= p < list.len()
    &&& arc(edges, out, list[p], list[i])
    &&& forall|q: int| p < q < list.len() ==> !#[trigger] arc(edges, out, list[q], list[i])
}

/// The `e`-th edge is the last that was added from `a` to `b`.
pub open spec fn last_arc(edges: Seq<EdgeView>, a: Seq<char>, b: Seq<char>, e: int) -> bool {
    let out = TraversalDirection::Outgoing;
    &&& arc_at(edges, out, a, b, e)
    &&& forall|f: int| f > e ==> !#[trigger] arc_at(edges, out, a, b, f)
}

/// The texts of strings.
pub open spec fn texts_of(names: Seq<String>) -> Seq<Seq<char>> {
    Seq::new(names.len(), |i: int| names[i]@)
}

/// No edge leads to the symbol.
pub open spec fn is_source(edges: Seq<EdgeView>, a: Seq<char>) -> bool {
    forall|x: Seq<char>| !#[trigger] arc(edges, TraversalDirection::Outgoing, x, a)
}

/// `list` holds each known symbol once, every edge leads forward in it, the symbols that
/// no edge leads to come first, and of the others one comes first where the last symbol
/// that leads to it does, or where that is the same one and its last edge there was
/// added earlier.
pub open spec fn in_dependency_order(edges: Seq<EdgeView>, list: Seq<Seq<char>>) -> bool {
    let out = TraversalDirection::Outgoing;
    &&& list.no_duplicates()
    &&& forall|a: Seq<char>| #[trigger] list.contains(a) <==> known(edges, a)
    &&& forall|i: int, j: int|
        0 <= i < list.len() && 0 <= j < list.len() && #[trigger] arc(edges, out, list[i], list[j])
            ==> i < j
    &&& forall|i: int, j: int|
        #![trigger is_source(edges, list[i]), is_source(edges, list[j])]
        0 <= i < list.len() && 0 <= j < list.len() && is_source(edges, list[i]) && !is_source(
            edges,
            list[j],
        ) ==> i < j
    &&& forall|i: int, j: int, p: int, q: int|
        #![trigger last_leads(edges, list, i, p), last_leads(edges, list, j, q)]
        0 <= i < j < list.len() && last_leads(edges, list, i, p) && last_leads(edges, list, j, q)
            ==> p <= q
    &&& forall|i: int, j: int, p: int, e: int, f: int|
        #![trigger last_leads(edges, list, i, p), last_leads(edges, list, j, p), last_arc(edges, list[p], list[i], e), last_arc(edges, list[p], list[j], f)]
        0 <= i < j < list.len() && last_leads(edges, list, i, p) && last_leads(edges, list, j, p)
            && last_arc(edges, list[p], list[i], e) && last_arc(edges, list[p], list[j], f) ==> e
            < f
}

/// There is a topological order exactly where there is no cycle. It holds each known
/// symbol once, and every edge leads forward in it. The symbols that no edge leads to
/// come first; of the others one comes first where the last symbol that leads to it does.
pub proof fn outcome_of_sorting(graph: &SymbolGraph, res: Option<Vec<String>>)
    requires
        call_ensures(SymbolGraph::topological_sort, (graph,), res),
    ensures
        res is None <==> exists|a: Seq<char>| #[trigger] chained_on(graph@, a, a),
        res matches Some(order) ==> in_dependency_order(graph@, texts_of(order@)),
{
    lemma_cyclic(graph@);
    if res is Some {
        let g = calls(graph@);
        let out = TraversalDirection::Outgoing;
        let order = res->0;
        let list = texts_of(order@);
        assert(list =~= texts(order@));
        let s = choose|s: Schedule<Seq<char>>|
            s.order == texts(order@) && #[trigger] s.valid(g, symbols(graph@));
        assert forall|a: Seq<char>| #[trigger] list.contains(a) <==> known(graph@, a) by {
            lemma_known(graph@, a);
        }
        assert forall|i: int, j: int|
            0 <= i < list.len() && 0 <= j < list.len() && #[trigger] arc(
                graph@,
                out,
                list[i],
                list[j],
            ) implies i < j by {
            edges_are_arcs(graph@, out, list[i], list[j]);
            s.lemma_edges_lead_forward(g, i, j);
        }
        assert forall|i: int, j: int|
            #![trigger is_source(graph@, list[i]), is_source(graph@, list[j])]
            0 <= i < list.len() && 0 <= j < list.len() && is_source(graph@, list[i]) && !is_source(
                graph@,
                list[j],
            ) implies i < j by {
            let x = choose|x: Seq<char>| #[trigger] arc(graph@, out, x, list[j]);
            edges_are_arcs(graph@, out, x, list[j]);
            assert(edge(g, x, s.order[j]));
            if i >= s.sources {
                assert(s.released(g, i));
                let y = s.order[s.parent[i]];
                assert(g(y)[s.slot[i]] == s.order[i]);
                assert(edge(g, y, s.order[i]));
                edges_are_arcs(graph@, out, y, list[i]);
                assert(!arc(graph@, out, y, list[i]));
            }
        }
        assert forall|i: int, j: int, p: int, q: int|
            #![trigger last_leads(graph@, list, i, p), last_leads(graph@, list, j, q)]
            0 <= i < j < list.len() && last_leads(graph@, list, i, p) && last_leads(
                graph@,
                list,
                j,
                q,
            ) implies p <= q by {
            lemma_last_leads(graph@, s, i, p);
            lemma_last_leads(graph@, s, j, q);
            assert(s.released_before(i, j));
        }
        assert forall|i: int, j: int, p: int, e: int, f: int|
            #![trigger last_leads(graph@, list, i, p), last_leads(graph@, list, j, p), last_arc(graph@, list[p], list[i], e), last_arc(graph@, list[p], list[j], f)]
            0 <= i < j < list.len() && last_leads(graph@, list, i, p) && last_leads(
                graph@,
                list,
                j,
                p,
            ) && last_arc(graph@, list[p], list[i], e) && last_arc(
                graph@,
                list[p],
                list[j],
                f,
            ) implies e < f by {
            lemma_last_leads(graph@, s, i, p);
            lemma_last_leads(graph@, s, j, p);
            assert(s.released_before(i, j));
            assert(s.released(g, i) && s.released(g, j));
            let at = lemma_arc_places(graph@, out, list[p]);
            lemma_last_slot(graph@, list[p], list[i], at, s.slot[i], e);
            lemma_last_slot(graph@, list[p], list[j], at, s.slot[j], f);
        }
        assert(in_dependency_order(graph@, list));
    }
}

proof fn lemma_last_slot(
    edges: Seq<EdgeView>,
    a: Seq<char>,
    b: Seq<char>,
    at: Seq<int>,
    slot: int,
    e: int,
)
    requires
        ({
            let out = TraversalDirection::Outgoing;
            let next = neighbours(edges, out)(a);
            &&& at.len() == next.len()
            &&& forall|k: int| 0 <= k < at.len() ==> arc_at(edges, out, a, next[k], #[trigger] at[k])
            &&& forall|j: int, k: int| 0 <= j < k < at.len() ==> #[trigger] at[j] < #[trigger] at[k]
            &&& forall|c: Seq<char>, i: int| #[trigger]
                arc_at(edges, out, a, c, i) ==> at.contains(i)
            &&& 0 <= slot < next.len()
            &&& next[slot] == b
            &&& forall|m: int| slot < m < next.len() ==> #[trigger] next[m] != b
        }),
        last_arc(edges, a, b, e),
    ensures
        e == at[slot],
{
    let out = TraversalDirection::Outgoing;
    let next = neighbours(edges, out)(a);
    assert(arc_at(edges, out, a, b, at[slot]));
    assert(at.contains(e));
    let m = choose|m: int| 0 <= m < at.len() && at[m] == e;
    assert(arc_at(edges, out, a, next[m], at[m]));
    assert(next[m] == b);
    if m > slot {
        assert(next[m] != b);
    } else if m < slot {
        assert(at[m] < at[slot]);
    }
}

proof fn lemma_last_leads(edges: Seq<EdgeView>, s: Schedule<Seq<char>>, i: int, p: int)
    requires
        s.valid(calls(edges), symbols(edges)),
        0 <= i < s.order.len(),
        last_leads(edges, s.order, i, p),
    ensures
        i >= s.sources,
        s.parent[i] == p,
{
    let g = calls(edges);
    let out = TraversalDirection::Outgoing;
    edges_are_arcs(edges, out, s.order[p], s.order[i]);
    assert(edge(g, s.order[p], s.order[i]));
    assert(s.released(g, i));
    let k = s.parent[i];
    let front = s.order.take(k + 1);
    assert(front.contains(s.order[p]));
    let m = choose|m: int| 0 <= m < front.len() && front[m] == s.order[p];
    assert(s.order[m] == s.order[p]);
    assert(g(s.order[k])[s.slot[i]] == s.order[i]);
    assert(edge(g, s.order[k], s.order[i]));
    edges_are_arcs(edges, out, s.order[k], s.order[i]);
    if p < k {
        assert(!arc(edges, out, s.order[k], s.order[i]));
    }
}

/// Adding an edge adds it as the last one, whatever it joins, and changes no other.
pub proof fn outcome_of_adding(from: &str, to: &str, kind: &str)
    ensures
        forall|graph: &mut SymbolGraph| #[trigger]
            call_ensures(SymbolGraph::add_edge, (graph, from, to, kind), ()) ==> {
                &&& final(graph)@.len() == (*graph)@.len() + 1
                &&& (*graph)@.is_prefix_of(final(graph)@)
                &&& final(graph)@.last().from == from@
                &&& final(graph)@.last().to == to@
                &&& final(graph)@.last().kind == kind@
            },
{
}

/// A new graph has no edges, and a copy has the same.
pub proof fn outcome_of_making_graphs(
    graph: &SymbolGraph,
    fresh: SymbolGraph,
    made: SymbolGraph,
    copy: SymbolGraph,
)
    requires
        call_ensures(SymbolGraph::new, (), fresh),
        call_ensures(SymbolGraph::default, (), made),
        call_ensures(SymbolGraph::clone, (graph,), copy),
    ensures
        fresh@.len() == 0,
        made@.len() == 0,
        copy@ == graph@,
{
}

} // verus!
