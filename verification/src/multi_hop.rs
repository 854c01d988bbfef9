//! Multi-hop graph traversal and path analysis over code symbol dependencies.
//!
//! Provides bounded, cycle-safe graph traversals to extract:
//! 1. Multi-hop caller and callee dependency chains.
//! 2. Shortest dependency paths between symbols.
//! 3. Cycles, dependency order and reachability of symbols.
use vstd::hash_map::StringHashMap;
use vstd::hash_set::StringHashSet;
use vstd::prelude::*;
use crate::components::{below, listed, strong_components, well_listed};
use crate::digraph::{connects, cyclic, decomposes, edge, follows, hops, reaches, Discovery, Schedule};
use crate::ordering::{in_degree, lemma_in_degree_added, lemma_in_degree_none,
    lemma_in_degree_same, topological_order};
use crate::renaming::{mirrors, named, named_below, named_groups, named_schedule};
use crate::search::{breadth_first, Search};

verus! {

/// Direction of graph edge traversal.
#[derive(Debug, Clone, Copy, PartialEq, Eq, Structural)]
pub enum TraversalDirection {
    /// Outgoing edges: symbol calls or uses dependencies (callees).
    Outgoing,
    /// Incoming edges: symbols that call or depend on this symbol (callers).
    Incoming,
}

/// A directed edge between code entities.
#[derive(Debug, Clone, PartialEq, Eq)]
pub struct SymbolEdge {
    pub from: String,
    pub to: String,
    pub kind: String,
}

/// The text of a [`SymbolEdge`].
pub struct EdgeView {
    pub from: Seq<char>,
    pub to: Seq<char>,
    pub kind: Seq<char>,
}

impl View for SymbolEdge {
    type V = EdgeView;

    open spec fn view(&self) -> EdgeView {
        EdgeView { from: self.from@, to: self.to@, kind: self.kind@ }
    }
}

/// Where the edges from `a` lead, in the order in which they were added.
pub open spec fn successors(edges: Seq<EdgeView>, a: Seq<char>) -> Seq<Seq<char>> {
    edges.filter(|e: EdgeView| e.from == a).map_values(|e: EdgeView| e.to)
}

/// Where the edges to `a` come from, in the order in which they were added.
pub open spec fn predecessors(edges: Seq<EdgeView>, a: Seq<char>) -> Seq<Seq<char>> {
    edges.filter(|e: EdgeView| e.to == a).map_values(|e: EdgeView| e.from)
}

/// The graph of symbols that the edges make, followed in the given direction.
pub open spec fn neighbours(
    edges: Seq<EdgeView>,
    direction: TraversalDirection,
) -> spec_fn(Seq<char>) -> Seq<Seq<char>> {
    match direction {
        TraversalDirection::Outgoing => |a: Seq<char>| successors(edges, a),
        TraversalDirection::Incoming => |a: Seq<char>| predecessors(edges, a),
    }
}

/// The graph of symbols that the edges make, each edge followed forward.
pub open spec fn calls(edges: Seq<EdgeView>) -> spec_fn(Seq<char>) -> Seq<Seq<char>> {
    neighbours(edges, TraversalDirection::Outgoing)
}

impl EdgeView {
    /// The edge starts or ends at `a`.
    pub open spec fn touches(self, a: Seq<char>) -> bool {
        self.from == a || self.to == a
    }
}

/// The symbols at the ends of the edges.
pub open spec fn symbols(edges: Seq<EdgeView>) -> Set<Seq<char>> {
    Set::new(
        |a: Seq<char>| exists|i: int| 0 <= i < edges.len() && #[trigger] edges[i].touches(a),
    )
}

/// In-memory symbol dependency graph for multi-hop structural traversals.
pub struct SymbolGraph {
    /// The edges in the order in which they were added.
    edges: Vec<SymbolEdge>,
    /// The symbols at the ends of the edges, each once.
    names: Vec<String>,
    /// The position of each symbol in `names`.
    index: StringHashMap<usize>,
    /// For each symbol, the positions of the symbols that its edges lead to.
    outgoing: Vec<Vec<usize>>,
    /// For each symbol, the positions of the symbols that the edges to it come from.
    incoming: Vec<Vec<usize>>,
}

impl View for SymbolGraph {
    type V = Seq<EdgeView>;

    /// The edges in the order in which they were added.
    closed spec fn view(&self) -> Seq<EdgeView> {
        self.edges@.map_values(|e: SymbolEdge| e@)
    }
}

proof fn lemma_added(edges: Seq<EdgeView>, e: EdgeView, a: Seq<char>)
    ensures
        successors(edges.push(e), a) == if e.from == a {
            successors(edges, a).push(e.to)
        } else {
            successors(edges, a)
        },
        predecessors(edges.push(e), a) == if e.to == a {
            predecessors(edges, a).push(e.from)
        } else {
            predecessors(edges, a)
        },
{
    reveal(Seq::filter);
    assert(edges.push(e).drop_last() =~= edges);
    assert(successors(edges.push(e), a) =~= if e.from == a {
        successors(edges, a).push(e.to)
    } else {
        successors(edges, a)
    });
    assert(predecessors(edges.push(e), a) =~= if e.to == a {
        predecessors(edges, a).push(e.from)
    } else {
        predecessors(edges, a)
    });
}

proof fn lemma_symbols_added(edges: Seq<EdgeView>, e: EdgeView, x: Seq<char>)
    ensures
        symbols(edges.push(e)).contains(x) <==> symbols(edges).contains(x) || x == e.from || x
            == e.to,
{
    let more = edges.push(e);
    let last = edges.len() as int;
    if symbols(edges).contains(x) {
        let i = choose|i: int| 0 <= i < edges.len() && #[trigger] edges[i].touches(x);
        assert(more[i].touches(x));
    }
    if x == e.from || x == e.to {
        assert(more[last].touches(x));
    }
    if symbols(more).contains(x) {
        let i = choose|i: int| 0 <= i < more.len() && #[trigger] more[i].touches(x);
        if i < last {
            assert(edges[i].touches(x));
        }
    }
}

impl SymbolGraph {
    /// The name of each position.
    spec fn name(self) -> spec_fn(usize) -> Seq<char> {
        |i: usize| self.names@[i as int]@
    }

    /// The positions and the names go with each other.
    spec fn indexed(self) -> bool {
        &&& forall|a: Seq<char>| #[trigger]
            self.index@.contains_key(a) ==> self.index@[a] < self.names.len()
                && self.names@[self.index@[a] as int]@ == a
        &&& forall|i: usize|
            i < self.names.len() ==> self.index@.contains_key(#[trigger] self.names@[i as int]@)
                && self.index@[self.names@[i as int]@] == i
    }

    /// The lists of positions say what the edges say.
    spec fn linked(self) -> bool {
        &&& self.outgoing.len() == self.names.len()
        &&& self.incoming.len() == self.names.len()
        &&& well_listed(self.outgoing@)
        &&& well_listed(self.incoming@)
        &&& forall|i: usize|
            i < self.names.len() ==> (#[trigger] self.outgoing@[i as int])@.map_values(self.name())
                == successors(self@, self.names@[i as int]@)
        &&& forall|i: usize|
            i < self.names.len() ==> (#[trigger] self.incoming@[i as int])@.map_values(self.name())
                == predecessors(self@, self.names@[i as int]@)
        &&& forall|i: usize|
            i < self.names.len() ==> (#[trigger] self.incoming@[i as int])@.len() == in_degree(
                self.outgoing@,
                Set::empty(),
                i,
                self.names.len() as nat,
            )
        &&& forall|a: Seq<char>| #[trigger]
            symbols(self@).contains(a) ==> self.index@.contains_key(a)
    }

    /// The tables hold the symbols of the edges and nothing else.
    pub closed spec fn wf(self) -> bool {
        &&& self.indexed()
        &&& self.linked()
        &&& forall|i: usize|
            i < self.names.len() ==> symbols(self@).contains(#[trigger] self.names@[i as int]@)
    }

    /// A graph without edges.
    pub fn new() -> (graph: Self)
        ensures
            graph.wf(),
            graph@ == Seq::<EdgeView>::empty(),
    {
        SymbolGraph {
            edges: Vec::new(),
            names: Vec::new(),
            index: StringHashMap::new(),
            outgoing: Vec::new(),
            incoming: Vec::new(),
        }
    }

    /// Returns the position of a symbol, which is added if it is new.
    fn intern(&mut self, symbol: &str) -> (id: usize)
        requires
            old(self).indexed(),
            old(self).linked(),
        ensures
            final(self).indexed(),
            final(self).linked(),
            final(self).edges == old(self).edges,
            final(self)@ == old(self)@,
            id < final(self).names.len(),
            final(self).names@[id as int]@ == symbol@,
            old(self).names.len() <= final(self).names.len(),
            forall|i: int|
                0 <= i < old(self).names.len() ==> #[trigger] final(self).names@[i]
                    == old(self).names@[i],
            forall|i: int|
                old(self).names.len() <= i < final(self).names.len()
                    ==> #[trigger] final(self).names@[i]@ == symbol@,
    {
        if let Some(id) = self.index.get(symbol) {
            return *id;
        }
        let ghost before = *self;
        let id: usize = self.names.len();
        self.names.push(symbol.to_owned());
        self.index.insert(symbol.to_owned(), id);
        self.outgoing.push(Vec::new());
        self.incoming.push(Vec::new());
        proof {
            let n = before.names.len() as nat;
            assert(self@ == before@);
            assert(self.indexed()) by {
                assert forall|i: usize| i < self.names.len() implies self.index@.contains_key(
                    #[trigger] self.names@[i as int]@,
                ) && self.index@[self.names@[i as int]@] == i by {
                    if i < n {
                        assert(before.index@.contains_key(before.names@[i as int]@));
                    }
                }
            }
            assert forall|v: int, i: int|
                0 <= v < self.outgoing@.len() && 0 <= i < self.outgoing@[v].len() implies #[trigger] self.outgoing@[v]@[i]
                < self.outgoing@.len() by {
                if v < n {
                    assert(before.outgoing@[v]@[i] < n);
                }
            }
            assert forall|v: int, i: int|
                0 <= v < self.incoming@.len() && 0 <= i < self.incoming@[v].len() implies #[trigger] self.incoming@[v]@[i]
                < self.incoming@.len() by {
                if v < n {
                    assert(before.incoming@[v]@[i] < n);
                }
            }
            assert(!symbols(self@).contains(symbol@));
            assert forall|i: usize| i < self.names.len() implies (#[trigger] self.outgoing@[i as int])@.map_values(
                self.name(),
            ) == successors(self@, self.names@[i as int]@) by {
                if i < n {
                    let s = before.outgoing@[i as int]@;
                    assert forall|k: int| 0 <= k < s.len() implies before.name()(s[k]) == self.name()(
                        s[k],
                    ) by {
                        assert(before.outgoing@[i as int]@[k] < n);
                    }
                    assert(s.map_values(before.name()) =~= s.map_values(self.name()));
                } else {
                    lemma_unknown(self@, symbol@);
                    assert(self.outgoing@[i as int]@.map_values(self.name()) =~= Seq::empty());
                }
            }
            assert forall|i: usize| i < self.names.len() implies (#[trigger] self.incoming@[i as int])@.map_values(
                self.name(),
            ) == predecessors(self@, self.names@[i as int]@) by {
                if i < n {
                    let s = before.incoming@[i as int]@;
                    assert forall|k: int| 0 <= k < s.len() implies before.name()(s[k]) == self.name()(
                        s[k],
                    ) by {
                        assert(before.incoming@[i as int]@[k] < n);
                    }
                    assert(s.map_values(before.name()) =~= s.map_values(self.name()));
                } else {
                    lemma_unknown(self@, symbol@);
                    assert(self.incoming@[i as int]@.map_values(self.name()) =~= Seq::empty());
                }
            }
            assert forall|i: usize| i < self.names.len() implies (#[trigger] self.incoming@[i as int])@.len()
                == in_degree(self.outgoing@, Set::empty(), i, self.names.len() as nat) by {
                lemma_in_degree_same(before.outgoing@, self.outgoing@, Set::empty(), i, n);
                if i == n {
                    assert forall|u: int| 0 <= u < n implies !#[trigger] before.outgoing@[u]@.contains(
                        i,
                    ) by {
                        let s = before.outgoing@[u]@;
                        if s.contains(i) {
                            let k = choose|k: int| 0 <= k < s.len() && s[k] == i;
                            assert(before.outgoing@[u]@[k] < n);
                        }
                    }
                    lemma_in_degree_none(before.outgoing@, Set::empty(), i, n);
                } else {
                    assert(before.incoming@[i as int]@.len() == in_degree(
                        before.outgoing@,
                        Set::empty(),
                        i,
                        n,
                    ));
                }
                assert(self.outgoing@[n as int]@ =~= Seq::empty());
            }
        }
        id
    }

    /// Add a directed dependency edge (e.g. from caller to callee, or struct to implemented trait).
    pub fn add_edge(&mut self, from: &str, to: &str, kind: &str)
        requires
            old(self).wf(),
        ensures
            final(self).wf(),
            final(self)@ == old(self)@.push(EdgeView { from: from@, to: to@, kind: kind@ }),
    {
        let ghost entry = *self;
        let a: usize = self.intern(from);
        let ghost between = *self;
        let b: usize = self.intern(to);
        let ghost before = *self;
        self.edges.push(
            SymbolEdge { from: from.to_owned(), to: to.to_owned(), kind: kind.to_owned() },
        );
        self.outgoing[a].push(b);
        self.incoming[b].push(a);
        proof {
            let e = EdgeView { from: from@, to: to@, kind: kind@ };
            let f = self.name();
            assert(self@ =~= before@.push(e));
            assert(before.names@[a as int] == between.names@[a as int]);
            assert(f == before.name());
            let n = self.names.len();
            assert forall|v: int, i: int|
                0 <= v < self.outgoing@.len() && 0 <= i < self.outgoing@[v].len() implies #[trigger] self.outgoing@[v]@[i]
                < self.outgoing@.len() by {
                if v != a || i < before.outgoing@[v].len() {
                    assert(before.outgoing@[v]@[i] < n);
                }
            }
            assert forall|v: int, i: int|
                0 <= v < self.incoming@.len() && 0 <= i < self.incoming@[v].len() implies #[trigger] self.incoming@[v]@[i]
                < self.incoming@.len() by {
                if v != b || i < before.incoming@[v].len() {
                    assert(before.incoming@[v]@[i] < n);
                }
            }
            assert forall|i: usize, j: usize| i < n && j < n && before.names@[i as int]@
                == before.names@[j as int]@ implies i == j by {
                assert(before.index@[before.names@[i as int]@] == i);
                assert(before.index@[before.names@[j as int]@] == j);
            }
            assert forall|i: usize| i < n implies (#[trigger] self.outgoing@[i as int])@.map_values(
                f,
            ) == successors(self@, self.names@[i as int]@) by {
                lemma_added(before@, e, self.names@[i as int]@);
                let s = before.outgoing@[i as int]@;
                assert(s.map_values(f) == successors(before@, before.names@[i as int]@));
                assert(s.push(b).map_values(f) =~= s.map_values(f).push(to@));
            }
            assert forall|i: usize| i < n implies (#[trigger] self.incoming@[i as int])@.map_values(
                f,
            ) == predecessors(self@, self.names@[i as int]@) by {
                lemma_added(before@, e, self.names@[i as int]@);
                let s = before.incoming@[i as int]@;
                assert(s.map_values(f) == predecessors(before@, before.names@[i as int]@));
                assert(s.push(a).map_values(f) =~= s.map_values(f).push(from@));
            }
            assert forall|i: usize| i < n implies (#[trigger] self.incoming@[i as int])@.len()
                == in_degree(self.outgoing@, Set::empty(), i, n as nat) by {
                lemma_in_degree_added(before.outgoing@, self.outgoing@, a, b, i, n as nat);
                assert(before.incoming@[i as int]@.len() == in_degree(
                    before.outgoing@,
                    Set::empty(),
                    i,
                    n as nat,
                ));
            }
            assert forall|x: Seq<char>| #[trigger] symbols(self@).contains(x) <==> symbols(
                before@,
            ).contains(x) || x == from@ || x == to@ by {
                lemma_symbols_added(before@, e, x);
            }
            assert(self.index@.contains_key(from@)) by {
                assert(before.index@.contains_key(before.names@[a as int]@));
            }
            assert(self.index@.contains_key(to@)) by {
                assert(before.index@.contains_key(before.names@[b as int]@));
            }
            assert forall|i: usize| i < n implies symbols(self@).contains(
                #[trigger] self.names@[i as int]@,
            ) by {
                if i < entry.names.len() {
                    assert(between.names@[i as int] == entry.names@[i as int]);
                    assert(before.names@[i as int] == between.names@[i as int]);
                    assert(symbols(entry@).contains(entry.names@[i as int]@));
                } else if i < between.names.len() {
                    assert(before.names@[i as int] == between.names@[i as int]);
                    assert(between.names@[i as int]@ == from@);
                } else {
                    assert(before.names@[i as int]@ == to@);
                }
            }
            assert(self.indexed()) by {
                assert forall|i: usize| i < n implies self.index@.contains_key(
                    #[trigger] self.names@[i as int]@,
                ) && self.index@[self.names@[i as int]@] == i by {
                    assert(before.index@.contains_key(before.names@[i as int]@));
                }
            }
        }
    }
}

impl Default for SymbolGraph {
    fn default() -> (graph: Self)
        ensures
            graph.wf(),
            graph@ == Seq::<EdgeView>::empty(),
    {
        SymbolGraph::new()
    }
}

impl Clone for SymbolGraph {
    fn clone(&self) -> (graph: Self)
        ensures
            graph.wf(),
            graph@ == self@,
    {
        let mut graph = SymbolGraph::new();
        let mut i: usize = 0;
        while i < self.edges.len()
            invariant
                i <= self.edges.len(),
                graph.wf(),
                graph@ == self@.take(i as int),
            decreases self.edges.len() - i,
        {
            let e: &SymbolEdge = &self.edges[i];
            graph.add_edge(e.from.as_str(), e.to.as_str(), e.kind.as_str());
            proof {
                assert(self@.take(i as int + 1) =~= self@.take(i as int).push(self@[i as int]));
            }
            i = i + 1;
        }
        proof {
            assert(self@.take(i as int) =~= self@);
        }
        graph
    }
}

/// The text of each string.
pub open spec fn texts(s: Seq<String>) -> Seq<Seq<char>> {
    s.map_values(|x: String| x@)
}

/// The text of each group of strings.
pub open spec fn group_texts(groups: Seq<Vec<String>>) -> Seq<Seq<Seq<char>>> {
    groups.map_values(|c: Vec<String>| texts(c@))
}

/// The text and the distance in each entry of a traversal.
pub open spec fn hop_texts(s: Seq<(String, usize)>) -> Seq<(Seq<char>, nat)> {
    s.map_values(|x: (String, usize)| (x.0@, x.1 as nat))
}

impl SymbolGraph {
    /// The lists of positions, followed in the given direction.
    spec fn lists(self, direction: TraversalDirection) -> Seq<Vec<usize>> {
        match direction {
            TraversalDirection::Outgoing => self.outgoing@,
            TraversalDirection::Incoming => self.incoming@,
        }
    }

    /// The lists of positions are the graph of symbols under the names.
    proof fn lemma_mirrors(self, direction: TraversalDirection)
        requires
            self.wf(),
        ensures
            mirrors(
                listed(self.lists(direction)),
                self.names.len() as nat,
                neighbours(self@, direction),
                self.name(),
            ),
            well_listed(self.lists(direction)),
            self.lists(direction).len() == self.names.len(),
            named_below(self.names.len() as nat, self.name()) == symbols(self@),
            forall|i: usize| #[trigger]
                listed(self.lists(direction))(i).len() > 0 ==> i < self.names.len(),
    {
        let g = listed(self.lists(direction));
        let n = self.names.len() as nat;
        let h = neighbours(self@, direction);
        let f = self.name();
        assert forall|i: usize| i < n implies #[trigger] h(f(i)) == g(i).map_values(f) by {
            assert(self.lists(direction)[i as int]@.map_values(f) == h(self.names@[i as int]@));
        }
        assert forall|i: usize, j: usize|
            i < n && j < n && #[trigger] f(i) == #[trigger] f(j) implies i == j by {
            assert(self.index@[self.names@[i as int]@] == i);
            assert(self.index@[self.names@[j as int]@] == j);
        }
        assert forall|i: usize, j: usize| i < n && #[trigger] edge(g, i, j) implies j < n by {
            let s = self.lists(direction)[i as int]@;
            assert(s.contains(j));
            let k = choose|k: int| 0 <= k < s.len() && s[k] == j;
            assert(self.lists(direction)[i as int]@[k] < n);
        }
        assert forall|a: Seq<char>| symbols(self@).contains(a) implies exists|i: usize|
            i < n && a == #[trigger] f(i) by {
            assert(self.index@.contains_key(a));
            assert(f(self.index@[a]) == a);
        }
        assert forall|a: Seq<char>| #[trigger] h(a).len() > 0 implies exists|i: usize|
            i < n && a == #[trigger] f(i) by {
            if !symbols(self@).contains(a) {
                lemma_unknown(self@, a);
            }
        }
        assert forall|a: Seq<char>| #[trigger] named_below(n, f).contains(a) <==> symbols(
            self@,
        ).contains(a) by {
            if named_below(n, f).contains(a) {
                let i = choose|i: usize| i < n && a == #[trigger] f(i);
                assert(symbols(self@).contains(self.names@[i as int]@));
            }
        }
        assert(named_below(n, f) =~= symbols(self@));
    }

    /// Multi-hop traversal starting from `root_symbol` up to `max_depth` hops.
    /// Returns a list of visited symbols paired with their hop distance from the root.
    /// Cycle-safe and strictly bounded by `max_depth`.
    pub fn traverse(
        &self,
        root_symbol: &str,
        direction: TraversalDirection,
        max_depth: usize,
    ) -> (results: Vec<(String, usize)>)
        requires
            self.wf(),
        ensures
            exists|d: Discovery<Seq<char>>| #[trigger]
                d.valid(neighbours(self@, direction), root_symbol@) && d.bounded_by(
                    max_depth as nat,
                ) && hop_texts(results@) == d.met(),
            forall|a: Seq<char>, k: nat| #[trigger]
                hop_texts(results@).contains((a, k)) <==> 1 <= k <= max_depth && hops(
                    neighbours(self@, direction),
                    root_symbol@,
                    a,
                    k,
                ),
            forall|i: int, j: int|
                0 <= i < j < results.len() ==> (#[trigger] results@[i]).0@ != (
                #[trigger] results@[j]).0@,
    {
        let ghost g = neighbours(self@, direction);
        let ghost root = root_symbol@;
        let ghost alone = Discovery {
            order: seq![root],
            parent: seq![0int],
            slot: seq![0int],
            depth: seq![0nat],
            expanded: if max_depth > 0 {
                1
            } else {
                0
            },
        };
        let mut results: Vec<(String, usize)> = Vec::new();
        proof {
            self.lemma_mirrors(direction);
            if max_depth == 0 || !self.index@.contains_key(root) {
                if !self.index@.contains_key(root) {
                    lemma_unknown(self@, root);
                }
                assert(alone.valid(g, root));
                alone.lemma_met_within(g, root, max_depth as nat);
                assert(hop_texts(results@) =~= alone.met());
            }
        }
        if max_depth == 0 {
            return results;
        }
        let id: usize = match self.index.get(root_symbol) {
            Some(id) => *id,
            None => return results,
        };
        let adjacency: &Vec<Vec<usize>> = match direction {
            TraversalDirection::Outgoing => &self.outgoing,
            TraversalDirection::Incoming => &self.incoming,
        };
        let search: Search = breadth_first(adjacency, id, max_depth, None);
        let ghost numbers = search.discovery();
        let ghost d = named(numbers, self.name());
        proof {
            let n = self.names.len() as nat;
            assert(self.name()(id) == root);
            crate::renaming::lemma_discovery_named(
                listed(adjacency@),
                n,
                g,
                self.name(),
                numbers,
                id,
            );
            assert(d.bounded_by(max_depth as nat)) by {
                assert forall|i: int| 0 <= i < d.order.len() implies (i < d.expanded
                    <==> #[trigger] d.depth[i] < max_depth) by {
                    if i < d.expanded {
                        assert(search.depth@[i] < max_depth);
                    } else {
                        d.lemma_depth_grows(g, root, d.expanded, i);
                    }
                }
            }
            d.lemma_met_within(g, root, max_depth as nat);
        }
        let mut i: usize = 1;
        while i < search.order.len()
            invariant
                1 <= i <= search.order.len(),
                search.depth.len() == search.order.len(),
                forall|k: int| 0 <= k < search.order.len() ==> #[trigger] search.order@[k] < self.names.len(),
                d == named(search.discovery(), self.name()),
                results.len() == i - 1,
                forall|k: int|
                    0 <= k < results.len() ==> hop_texts(results@)[k] == #[trigger] d.met()[k],
            decreases search.order.len() - i,
        {
            let v: usize = search.order[i];
            let ghost was = results@;
            results.push((self.names[v].clone(), search.depth[i]));
            proof {
                assert forall|k: int| 0 <= k < results.len() implies hop_texts(results@)[k]
                    == #[trigger] d.met()[k] by {
                    if k < was.len() {
                        assert(hop_texts(was)[k] == d.met()[k]);
                    }
                }
            }
            i = i + 1;
        }
        proof {
            assert(hop_texts(results@) =~= d.met());
            assert forall|i: int, j: int| 0 <= i < j < results.len() implies (
            #[trigger] results@[i]).0@ != (#[trigger] results@[j]).0@ by {
                assert(hop_texts(results@)[i] == d.met()[i]);
                assert(hop_texts(results@)[j] == d.met()[j]);
                assert(d.order[i + 1] != d.order[j + 1]);
            }
        }
        results
    }

    /// Find the shortest directed path between `start_symbol` and `target_symbol` (BFS).
    /// Returns `Some(vec![start, intermediate..., target])` or `None` if unreachable.
    pub fn find_shortest_path(&self, start_symbol: &str, target_symbol: &str) -> (res: Option<
        Vec<String>,
    >)
        requires
            self.wf(),
        ensures
            res is Some <==> reaches(calls(self@), start_symbol@, target_symbol@),
            res matches Some(path) ==> connects(
                calls(self@),
                texts(path@),
                start_symbol@,
                target_symbol@,
            ),
            res matches Some(path) ==> forall|p: Seq<Seq<char>>| #[trigger]
                connects(calls(self@), p, start_symbol@, target_symbol@) ==> path.len() <= p.len(),
            res matches Some(path) ==> exists|d: Discovery<Seq<char>>, j: int|
                d.valid(calls(self@), start_symbol@) && 0 <= j < d.order.len() && d.order[j]
                    == target_symbol@ && texts(path@) == #[trigger] d.path_to(j),
    {
        let ghost g = calls(self@);
        let ghost start = start_symbol@;
        let ghost target = target_symbol@;
        proof {
            self.lemma_mirrors(TraversalDirection::Outgoing);
        }
        if start_symbol.to_owned() == target_symbol.to_owned() {
            let mut path: Vec<String> = Vec::new();
            path.push(start_symbol.to_owned());
            proof {
                let d = Discovery {
                    order: seq![start],
                    parent: seq![0int],
                    slot: seq![0int],
                    depth: seq![0nat],
                    expanded: 0,
                };
                assert(d.valid(g, start));
                assert(texts(path@) =~= d.path_to(0));
                crate::digraph::lemma_reaches_self(g, start);
                d.lemma_path_to(g, start, 0);
            }
            return Some(path);
        }
        let a: usize = match self.index.get(start_symbol) {
            Some(id) => *id,
            None => {
                proof {
                    lemma_unknown(self@, start);
                    lemma_reaches_leaves(g, start, target);
                }
                return None;
            },
        };
        let b: usize = match self.index.get(target_symbol) {
            Some(id) => *id,
            None => {
                proof {
                    lemma_reaches_arrives(g, start, target);
                    if reaches(g, start, target) {
                        self.lemma_edge_ends(start, target);
                    }
                }
                return None;
            },
        };
        let search: Search = breadth_first(&self.outgoing, a, usize::MAX, Some(b));
        let ghost numbers = search.discovery();
        let ghost d = named(numbers, self.name());
        let ghost n = self.names.len() as nat;
        proof {
            assert(self.name()(a) == start);
            assert(self.name()(b) == target);
            crate::renaming::lemma_discovery_named(
                listed(self.outgoing@),
                n,
                g,
                self.name(),
                numbers,
                a,
            );
            crate::components::lemma_distinct_below(search.order@, n);
        }
        if search.expanded == search.order.len() {
            proof {
                if reaches(g, start, target) {
                    let p = choose|p: Seq<Seq<char>>| #[trigger] connects(g, p, start, target);
                    let i = d.lemma_covers(g, start, p.len(), p);
                    assert(self.name()(search.order@[i]) == target);
                    assert(search.order@[i] == b);
                    assert(search.depth@[i] < usize::MAX);
                }
            }
            return None;
        }
        let found: usize = search.expanded;
        proof {
            d.lemma_depth_at_most(g, start, found as int);
            assert(search.order@[found as int] == b);
            d.lemma_path_to(g, start, found as int);
            assert(reaches(g, start, target));
            assert forall|i: int| 0 <= i < d.order.len() && #[trigger] d.depth[i] < d.depth[found as int] implies i
                < d.expanded by {
                if i >= found {
                    d.lemma_depth_grows(g, start, found as int, i);
                }
            }
            d.lemma_depth_is_distance(g, start, d.depth[found as int], found as int);
        }
        // The positions of the nodes on the path, from the target back to the start.
        let mut back: Vec<usize> = Vec::new();
        let mut at: usize = found;
        proof {
            assert(Seq::<Seq<char>>::empty() =~= places(d.order, back@).reverse());
            assert(d.path_to(at as int) + places(d.order, back@).reverse() =~= d.path_to(found as int));
        }
        while at > 0
            invariant
                at <= found < search.order.len(),
                search.parent.len() == search.order.len(),
                d == named(search.discovery(), self.name()),
                d.valid(g, start),
                forall|k: int| 0 <= k < back.len() ==> #[trigger] back@[k] < search.order.len(),
                d.path_to(at as int) + places(d.order, back@).reverse() == d.path_to(found as int),
            decreases at,
        {
            let ghost was = back@;
            let ghost here = at as int;
            back.push(at);
            at = search.parent[at];
            proof {
                assert(d.found(g, here));
                assert(d.path_to(here) == d.path_to(at as int).push(d.order[here]));
                assert(places(d.order, back@) =~= places(d.order, was).push(d.order[here]));
                assert(d.path_to(at as int) + places(d.order, back@).reverse() =~= d.path_to(here)
                    + places(d.order, was).reverse());
            }
        }
        let mut path: Vec<String> = Vec::new();
        let start_id: usize = search.order[0];
        path.push(self.names[start_id].clone());
        let mut left: usize = back.len();
        proof {
            assert(texts(path@) =~= d.path_to(0));
            assert(texts(path@) + places(d.order, back@).reverse() =~= d.path_to(found as int));
            assert(back@.take(left as int) =~= back@);
        }
        while left > 0
            invariant
                left <= back.len(),
                d == named(search.discovery(), self.name()),
                forall|k: int| 0 <= k < back.len() ==> #[trigger] back@[k] < search.order.len(),
                forall|k: int| 0 <= k < search.order.len() ==> #[trigger] search.order@[k] < self.names.len(),
                texts(path@) + places(d.order, back@.take(left as int)).reverse() == d.path_to(
                    found as int,
                ),
            decreases left,
        {
            let ghost was = path@;
            left = left - 1;
            let place: usize = back[left];
            let id: usize = search.order[place];
            path.push(self.names[id].clone());
            proof {
                let rest = back@.take(left as int);
                assert(back@.take(left as int + 1) =~= rest.push(place));
                assert(places(d.order, rest.push(place)) =~= places(d.order, rest).push(
                    d.order[place as int],
                ));
                assert(texts(path@) =~= texts(was).push(d.order[place as int]));
                assert(texts(path@) + places(d.order, rest).reverse() =~= texts(was) + places(
                    d.order,
                    rest.push(place),
                ).reverse());
            }
        }
        proof {
            assert(texts(path@) =~= d.path_to(found as int));
        }
        Some(path)
    }

    /// The strongly connected components as positions.
    fn components(&self) -> (components: Vec<Vec<usize>>)
        requires
            self.wf(),
        ensures
            decomposes(
                listed(self.outgoing@),
                below(self.names.len() as nat),
                components@.map_values(|c: Vec<usize>| c@),
            ),
    {
        strong_components(&self.outgoing)
    }

    /// Compute strongly connected components (SCCs) using Tarjan's linear-time algorithm O(V + E).
    ///
    /// Returns all components. Components with size > 1 (or size 1 with a self-loop) represent cycles.
    pub fn strongly_connected_components(&self) -> (sccs: Vec<Vec<String>>)
        requires
            self.wf(),
        ensures
            decomposes(calls(self@), symbols(self@), group_texts(sccs@)),
            forall|i: int, j: int, a: Seq<char>, b: Seq<char>|
                0 <= i < sccs.len() && 0 <= j < sccs.len() && #[trigger] texts(
                    sccs@[i]@,
                ).contains(a) && #[trigger] texts(sccs@[j]@).contains(b) ==> (i == j <==> reaches(
                    calls(self@),
                    a,
                    b,
                ) && reaches(calls(self@), b, a)),
    {
        let components: Vec<Vec<usize>> = self.components();
        let ghost numbers = components@.map_values(|c: Vec<usize>| c@);
        let ghost n = self.names.len() as nat;
        let ghost f = self.name();
        proof {
            assert forall|i: int, k: int|
                0 <= i < components.len() && 0 <= k < components@[i].len() implies #[trigger] components@[i]@[k]
                < n by {
                assert(numbers[i].contains(components@[i]@[k]));
                assert(below(n).contains(components@[i]@[k]));
            }
        }
        let mut sccs: Vec<Vec<String>> = Vec::new();
        let mut i: usize = 0;
        while i < components.len()
            invariant
                i <= components.len(),
                sccs.len() == i,
                n == self.names.len(),
                f == self.name(),
                forall|c: int, k: int|
                    0 <= c < components.len() && 0 <= k < components@[c].len()
                        ==> #[trigger] components@[c]@[k] < n,
                forall|c: int|
                    0 <= c < i ==> texts(#[trigger] sccs@[c]@) == components@[c]@.map_values(f),
            decreases components.len() - i,
        {
            let mut component: Vec<String> = Vec::new();
            let mut k: usize = 0;
            while k < components[i].len()
                invariant
                    i < components.len(),
                    k <= components@[i as int].len(),
                    component.len() == k,
                    n == self.names.len(),
                    f == self.name(),
                    forall|c: int, m: int|
                        0 <= c < components.len() && 0 <= m < components@[c].len()
                            ==> #[trigger] components@[c]@[m] < n,
                    forall|m: int|
                        0 <= m < k ==> (#[trigger] component@[m])@ == f(components@[i as int]@[m]),
                decreases components@[i as int].len() - k,
            {
                let v: usize = components[i][k];
                proof {
                    assert(components@[i as int]@[k as int] < n);
                }
                component.push(self.names[v].clone());
                k = k + 1;
            }
            proof {
                assert(texts(component@) =~= components@[i as int]@.map_values(f));
            }
            let ghost was = sccs@;
            sccs.push(component);
            proof {
                assert forall|c: int| 0 <= c < i + 1 implies texts(#[trigger] sccs@[c]@)
                    == components@[c]@.map_values(f) by {
                    if c < i {
                        assert(sccs@[c] == was[c]);
                        assert(texts(was[c]@) == components@[c]@.map_values(f));
                    }
                }
            }
            i = i + 1;
        }
        proof {
            let g = calls(self@);
            let groups = group_texts(sccs@);
            self.lemma_mirrors(TraversalDirection::Outgoing);
            crate::renaming::lemma_decomposes_named(listed(self.outgoing@), n, g, f, numbers);
            assert(groups =~= named_groups(numbers, f)) by {
                assert forall|c: int| 0 <= c < groups.len() implies groups[c] == named_groups(
                    numbers,
                    f,
                )[c] by {
                    assert(texts(sccs@[c]@) == components@[c]@.map_values(f));
                }
            }
            self.lemma_edges_stay();
            assert forall|i: int, j: int, a: Seq<char>, b: Seq<char>|
                0 <= i < sccs.len() && 0 <= j < sccs.len() && #[trigger] texts(
                    sccs@[i]@,
                ).contains(a) && #[trigger] texts(sccs@[j]@).contains(b) implies (i == j
                <==> reaches(g, a, b) && reaches(g, b, a)) by {
                assert(groups[i].contains(a) && groups[j].contains(b));
                crate::digraph::lemma_components_are_maximal(g, symbols(self@), groups, i, j, a, b);
            }
        }
        sccs
    }

    /// Both ends of every edge are symbols of the graph.
    proof fn lemma_edges_stay(self)
        requires
            self.wf(),
        ensures
            forall|a: Seq<char>, b: Seq<char>| #[trigger]
                edge(calls(self@), a, b) ==> symbols(self@).contains(a) && symbols(self@).contains(b),
    {
        let g = calls(self@);
        assert forall|a: Seq<char>, b: Seq<char>| #[trigger] edge(g, a, b) implies symbols(
            self@,
        ).contains(a) && symbols(self@).contains(b) by {
            self.lemma_edge_ends(a, b);
            if !symbols(self@).contains(a) {
                lemma_unknown(self@, a);
            }
        }
    }

    /// Returns `true` if the directed graph contains at least one cycle.
    pub fn has_cycle(&self) -> (res: bool)
        requires
            self.wf(),
        ensures
            res == cyclic(calls(self@)),
    {
        let components: Vec<Vec<usize>> = self.components();
        let ghost g = listed(self.outgoing@);
        let ghost n = self.names.len() as nat;
        let ghost numbers = components@.map_values(|c: Vec<usize>| c@);
        proof {
            self.lemma_mirrors(TraversalDirection::Outgoing);
            crate::renaming::lemma_cyclic(g, n, calls(self@), self.name());
        }
        let mut i: usize = 0;
        while i < components.len()
            invariant
                i <= components.len(),
                self.wf(),
                n == self.names.len(),
                g == listed(self.outgoing@),
                self.outgoing.len() == n,
                numbers == components@.map_values(|c: Vec<usize>| c@),
                decomposes(g, below(n), numbers),
                cyclic(g) <==> cyclic(calls(self@)),
                forall|c: int|
                    0 <= c < i ==> (#[trigger] numbers[c]).len() == 1 && !edge(
                        g,
                        numbers[c][0],
                        numbers[c][0],
                    ),
            decreases components.len() - i,
        {
            let component: &Vec<usize> = &components[i];
            proof {
                assert(numbers[i as int].len() > 0);
            }
            if component.len() > 1 {
                proof {
                    let c = numbers[i as int];
                    assert(c.contains(c[0]) && c.contains(c[1]));
                    crate::digraph::lemma_mutual_is_cyclic(g, c[0], c[1]);
                }
                return true;
            }
            let v: usize = component[0];
            proof {
                assert(numbers[i as int].contains(v));
                assert(below(n).contains(v));
            }
            let mut k: usize = 0;
            while k < self.outgoing[v].len()
                invariant
                    v < n,
                    n == self.names.len(),
                    self.outgoing.len() == n,
                    g == listed(self.outgoing@),
                    k <= self.outgoing@[v as int].len(),
                    cyclic(g) <==> cyclic(calls(self@)),
                    forall|m: int| 0 <= m < k ==> #[trigger] self.outgoing@[v as int]@[m] != v,
                decreases self.outgoing@[v as int].len() - k,
            {
                if self.outgoing[v][k] == v {
                    proof {
                        assert(g(v)[k as int] == v);
                        crate::digraph::lemma_reaches_edge(g, v, v);
                    }
                    return true;
                }
                k = k + 1;
            }
            proof {
                if edge(g, v, v) {
                    let s = self.outgoing@[v as int]@;
                    assert(s.contains(v));
                    let m = choose|m: int| 0 <= m < s.len() && s[m] == v;
                    assert(self.outgoing@[v as int]@[m] == v);
                }
            }
            i = i + 1;
        }
        proof {
            if cyclic(g) {
                assert forall|a: usize, b: usize| below(n).contains(a) && #[trigger] edge(g, a, b) implies below(
                    n,
                ).contains(b) by {
                    assert(a < n && edge(g, a, b));
                }
                let a = choose|a: usize| #[trigger] follows(g, a, a);
                let p = choose|p: Seq<usize>| #[trigger] connects(g, p, a, a) && p.len() >= 2;
                assert(crate::digraph::step(g, p, 1));
                assert(g(a).len() > 0);
                let b = p[1];
                assert(edge(g, a, b));
                crate::digraph::lemma_reaches_edge(g, a, b);
                crate::digraph::lemma_walk_stretch(g, p, 1, p.len() - 1);
                assert(reaches(g, b, a));
                assert(below(n).contains(a) && below(n).contains(b));
                let x = choose|x: int| 0 <= x < numbers.len() && #[trigger] numbers[x].contains(a);
                let y = choose|y: int| 0 <= y < numbers.len() && #[trigger] numbers[y].contains(b);
                crate::digraph::lemma_components_are_maximal(g, below(n), numbers, x, y, a, b);
                assert(numbers[x].len() == 1);
            }
        }
        false
    }

    /// Compute a topological sort of the graph nodes if acyclic.
    /// Returns `Some(Vec<String>)` in dependency execution order (sources before sinks),
    /// or `None` if the graph contains cycles (using Kahn's algorithm).
    pub fn topological_sort(&self) -> (res: Option<Vec<String>>)
        requires
            self.wf(),
        ensures
            res is None <==> cyclic(calls(self@)),
            res matches Some(order) ==> exists|s: Schedule<Seq<char>>|
                s.order == texts(order@) && #[trigger] s.valid(calls(self@), symbols(self@)),
            res matches Some(order) ==> texts(order@).no_duplicates() && forall|a: Seq<char>| #[trigger]
                texts(order@).contains(a) <==> symbols(self@).contains(a),
            res matches Some(order) ==> forall|i: int, j: int|
                0 <= i < order.len() && 0 <= j < order.len() && #[trigger] edge(
                    calls(self@),
                    order@[i]@,
                    order@[j]@,
                ) ==> i < j,
    {
        if self.has_cycle() {
            return None;
        }
        proof {
            self.lemma_mirrors(TraversalDirection::Outgoing);
            crate::renaming::lemma_cyclic(
                listed(self.outgoing@),
                self.names.len() as nat,
                calls(self@),
                self.name(),
            );
            assert forall|v: usize| v < self.outgoing.len() implies #[trigger] self.incoming@[v as int]@.len()
                == in_degree(self.outgoing@, Set::empty(), v, self.outgoing.len() as nat) by {
                assert(self.incoming@[v as int]@.len() == in_degree(
                    self.outgoing@,
                    Set::empty(),
                    v,
                    self.names.len() as nat,
                ));
            }
        }
        match topological_order(&self.outgoing, &self.incoming) {
            None => None,
            Some(ids) => {
                let ghost n = self.names.len() as nat;
                let ghost f = self.name();
                let ghost numbers = choose|s: Schedule<usize>|
                    s.order == ids@ && #[trigger] s.valid(
                        listed(self.outgoing@),
                        below(self.outgoing.len() as nat),
                    );
                let mut order: Vec<String> = Vec::new();
                let mut i: usize = 0;
                proof {
                    assert forall|k: int| 0 <= k < ids.len() implies #[trigger] ids@[k] < n by {
                        assert(numbers.order.contains(ids@[k]));
                    }
                }
                while i < ids.len()
                    invariant
                        i <= ids.len(),
                        order.len() == i,
                        n == self.names.len(),
                        f == self.name(),
                        forall|k: int| 0 <= k < ids.len() ==> #[trigger] ids@[k] < n,
                        forall|k: int| 0 <= k < i ==> (#[trigger] order@[k])@ == f(ids@[k]),
                    decreases ids.len() - i,
                {
                    let v: usize = ids[i];
                    order.push(self.names[v].clone());
                    i = i + 1;
                }
                proof {
                    let g = calls(self@);
                    crate::renaming::lemma_schedule_named(
                        listed(self.outgoing@),
                        n,
                        g,
                        f,
                        numbers,
                    );
                    let s = named_schedule(numbers, f);
                    assert(s.order =~= texts(order@));
                    assert forall|i: int, j: int|
                        0 <= i < order.len() && 0 <= j < order.len() && #[trigger] edge(
                            g,
                            order@[i]@,
                            order@[j]@,
                        ) implies i < j by {
                        assert(s.order[i] == order@[i]@ && s.order[j] == order@[j]@);
                        s.lemma_edges_lead_forward(g, i, j);
                    }
                }
                Some(order)
            },
        }
    }

    /// Compute the full transitive closure of reachable symbols from a given start symbol.
    pub fn transitive_closure(&self, start_symbol: &str) -> (closure: StringHashSet)
        requires
            self.wf(),
        ensures
            forall|a: Seq<char>| #[trigger]
                closure@.contains(a) <==> follows(calls(self@), start_symbol@, a),
    {
        let ghost g = calls(self@);
        let mut closure: StringHashSet = StringHashSet::new();
        let id: usize = match self.index.get(start_symbol) {
            Some(id) => *id,
            None => {
                proof {
                    lemma_unknown(self@, start_symbol@);
                    assert forall|a: Seq<char>| !follows(g, start_symbol@, a) by {
                        if follows(g, start_symbol@, a) {
                            let p = choose|p: Seq<Seq<char>>| #[trigger]
                                connects(g, p, start_symbol@, a) && p.len() >= 2;
                            assert(crate::digraph::step(g, p, 1));
                        }
                    }
                }
                return closure;
            },
        };
        let ghost n = self.names.len() as nat;
        let ghost f = self.name();
        proof {
            self.lemma_mirrors(TraversalDirection::Outgoing);
        }
        let found: Vec<usize> = crate::search::reached_by_edges(&self.outgoing, id);
        let mut i: usize = 0;
        while i < found.len()
            invariant
                i <= found.len(),
                n == self.names.len(),
                f == self.name(),
                crate::renaming::numbered(found@, n),
                forall|a: Seq<char>| #[trigger]
                    closure@.contains(a) <==> exists|k: int| 0 <= k < i && f(#[trigger] found@[k]) == a,
            decreases found.len() - i,
        {
            let v: usize = found[i];
            let ghost was = closure@;
            closure.insert(self.names[v].clone());
            proof {
                assert forall|a: Seq<char>| #[trigger] closure@.contains(a) <==> exists|k: int|
                    0 <= k < i + 1 && f(#[trigger] found@[k]) == a by {
                    if was.contains(a) {
                        let k = choose|k: int| 0 <= k < i && f(#[trigger] found@[k]) == a;
                        assert(0 <= k < i + 1 && f(found@[k]) == a);
                    }
                    if closure@.contains(a) && !was.contains(a) {
                        assert(f(found@[i as int]) == a);
                    }
                    if exists|k: int| 0 <= k < i + 1 && f(#[trigger] found@[k]) == a {
                        let k = choose|k: int| 0 <= k < i + 1 && f(#[trigger] found@[k]) == a;
                        if k < i {
                            assert(was.contains(a));
                        }
                    }
                }
            }
            i = i + 1;
        }
        proof {
            let h = listed(self.outgoing@);
            assert forall|a: Seq<char>| #[trigger] closure@.contains(a) <==> follows(
                g,
                start_symbol@,
                a,
            ) by {
                assert(f(id) == start_symbol@);
                if closure@.contains(a) {
                    let k = choose|k: int| 0 <= k < found.len() && f(#[trigger] found@[k]) == a;
                    assert(found@.contains(found@[k]));
                    crate::renaming::lemma_reaches(h, n, g, f, id, found@[k]);
                }
                if follows(g, start_symbol@, a) {
                    let q = choose|q: Seq<Seq<char>>| #[trigger]
                        connects(g, q, start_symbol@, a) && q.len() >= 2;
                    let p = crate::renaming::lemma_walk_numbered(h, n, g, f, q, id);
                    assert(p.map_values(f).last() == q.last());
                    assert(connects(h, p, id, p.last()));
                    assert(found@.contains(p.last()));
                    let k = choose|k: int| 0 <= k < found.len() && found@[k] == p.last();
                    assert(f(found@[k]) == a);
                }
            }
        }
        closure
    }

    /// A symbol that an edge leads to is at the end of an edge.
    proof fn lemma_edge_ends(self, start: Seq<char>, target: Seq<char>)
        requires
            self.wf(),
            exists|u: Seq<char>| #[trigger] edge(calls(self@), u, target),
        ensures
            symbols(self@).contains(target),
    {
        let g = calls(self@);
        let u = choose|u: Seq<char>| #[trigger] edge(g, u, target);
        self.lemma_mirrors(TraversalDirection::Outgoing);
        assert(g(u).len() > 0);
        let f = self.name();
        let n = self.names.len() as nat;
        let i = choose|i: usize| i < n && u == #[trigger] f(i);
        let j = crate::renaming::lemma_edge_target(listed(self.outgoing@), n, g, f, i, target);
        assert(named_below(n, f).contains(f(j)));
    }
}

/// The nodes at the given places of an order.
spec fn places(order: Seq<Seq<char>>, at: Seq<usize>) -> Seq<Seq<char>> {
    at.map_values(|k: usize| order[k as int])
}

/// A node that is reached from another has an edge from it, or is it.
proof fn lemma_reaches_leaves(g: spec_fn(Seq<char>) -> Seq<Seq<char>>, a: Seq<char>, b: Seq<char>)
    requires
        g(a).len() == 0,
    ensures
        reaches(g, a, b) ==> a == b,
{
    if reaches(g, a, b) {
        let p = choose|p: Seq<Seq<char>>| #[trigger] connects(g, p, a, b);
        if p.len() > 1 {
            assert(crate::digraph::step(g, p, 1));
        }
    }
}

proof fn lemma_reaches_arrives(g: spec_fn(Seq<char>) -> Seq<Seq<char>>, a: Seq<char>, b: Seq<char>)
    ensures
        reaches(g, a, b) && a != b ==> exists|u: Seq<char>| #[trigger] edge(g, u, b),
{
    if reaches(g, a, b) && a != b {
        let p = choose|p: Seq<Seq<char>>| #[trigger] connects(g, p, a, b);
        assert(crate::digraph::step(g, p, p.len() - 1));
        assert(edge(g, p[p.len() - 2], b));
    }
}

/// A symbol at the end of no edge has no neighbours.
proof fn lemma_unknown(edges: Seq<EdgeView>, a: Seq<char>)
    requires
        !symbols(edges).contains(a),
    ensures
        successors(edges, a) == Seq::<Seq<char>>::empty(),
        predecessors(edges, a) == Seq::<Seq<char>>::empty(),
{
    assert forall|i: int| 0 <= i < edges.len() implies (#[trigger] edges[i]).from != a && edges[i].to
        != a by {
        assert(!edges[i].touches(a));
    }
    edges.lemma_all_neg_filter_empty(|e: EdgeView| e.from == a);
    edges.lemma_all_neg_filter_empty(|e: EdgeView| e.to == a);
    assert(successors(edges, a) =~= Seq::empty());
    assert(predecessors(edges, a) =~= Seq::empty());
}

} // verus!
