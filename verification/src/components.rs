//! Strongly connected components of a graph over the integers below a bound, by
//! Tarjan's algorithm.
use vstd::prelude::*;
use crate::digraph::{decomposes, edge, lemma_reaches_edge, lemma_reaches_self, lemma_reaches_stays,
    lemma_reaches_transitive, reaches};

verus! {

/// The graph whose node `v` has the successors `adjacency[v]`.
pub open spec fn listed(adjacency: Seq<Vec<usize>>) -> spec_fn(usize) -> Seq<usize> {
    |v: usize|
        if v < adjacency.len() {
            adjacency[v as int]@
        } else {
            Seq::empty()
        }
}

/// Every successor is itself a node.
pub open spec fn well_listed(adjacency: Seq<Vec<usize>>) -> bool {
    forall|v: int, i: int|
        0 <= v < adjacency.len() && 0 <= i < adjacency[v].len() ==> #[trigger] adjacency[v]@[i]
            < adjacency.len()
}

/// The nodes of a graph with `n` of them.
pub open spec fn below(n: nat) -> Set<usize> {
    Set::new(|v: usize| v < n)
}

/// Distinct numbers below `n` are at most `n` many.
pub proof fn lemma_distinct_below(s: Seq<usize>, n: nat)
    requires
        s.no_duplicates(),
        forall|i: int| 0 <= i < s.len() ==> #[trigger] s[i] < n,
    ensures
        s.len() <= n,
{
    let t = s.map_values(|v: usize| v as int);
    assert(t.no_duplicates());
    t.unique_seq_to_set();
    vstd::set_lib::lemma_int_range(0, n as int);
    assert(t.to_set().subset_of(vstd::set_lib::set_int_range(0, n as int)));
    vstd::set_lib::lemma_len_subset(t.to_set(), vstd::set_lib::set_int_range(0, n as int));
}

/// The state of the search between two visits.
struct Tarjan {
    /// When each node was first visited.
    num: Vec<Option<usize>>,
    /// Whether each node is on the stack.
    on_stack: Vec<bool>,
    /// The visited nodes whose component is not complete, in the order of their visits.
    stack: Vec<usize>,
    /// The complete components.
    components: Vec<Vec<usize>>,
    /// The number of visited nodes.
    count: usize,
    /// The visited nodes in the order of their visits.
    order: Ghost<Seq<usize>>,
}

impl Tarjan {
    spec fn seen(self, v: usize) -> bool {
        v < self.num.len() && self.num@[v as int] is Some
    }

    spec fn time(self, v: usize) -> int {
        self.num@[v as int]->0 as int
    }

    spec fn stacked(self, v: usize) -> bool {
        v < self.on_stack.len() && self.on_stack@[v as int]
    }

    spec fn done(self, v: usize) -> bool {
        self.seen(v) && !self.stacked(v)
    }

    /// The arrays fit the graph, and the visits are numbered from zero.
    spec fn numbered(self, n: nat) -> bool {
        &&& self.num.len() == n
        &&& self.on_stack.len() == n
        &&& self.count == self.order@.len()
        &&& forall|i: int|
            0 <= i < self.order@.len() ==> (#[trigger] self.order@[i]) < n && self.seen(self.order@[i])
                && self.time(self.order@[i]) == i
        &&& forall|v: usize|
            #[trigger] self.seen(v) ==> 0 <= self.time(v) < self.order@.len()
                && self.order@[self.time(v)] == v
    }

    /// The stack holds the nodes marked as being on it, in the order of their visits.
    spec fn ordered(self) -> bool {
        &&& forall|i: int| 0 <= i < self.stack.len() ==> self.stacked(#[trigger] self.stack@[i])
        &&& forall|v: usize| #[trigger] self.stacked(v) ==> self.seen(v) && self.stack@.contains(v)
        &&& forall|i: int, j: int|
            0 <= i < j < self.stack.len() ==> self.time(#[trigger] self.stack@[i]) < self.time(
                #[trigger] self.stack@[j],
            )
    }

    /// Each node on the stack reaches those above it, and reaches back to an open
    /// node at or below it.
    spec fn linked(self, g: spec_fn(usize) -> Seq<usize>, open_nodes: Set<usize>) -> bool {
        &&& forall|i: int, j: int|
            0 <= i <= j < self.stack.len() ==> reaches(
                g,
                #[trigger] self.stack@[i],
                #[trigger] self.stack@[j],
            )
        &&& forall|x: usize| #[trigger] open_nodes.contains(x) ==> self.stacked(x)
        &&& forall|y: usize| self.stacked(y) ==> #[trigger] self.leads_back(g, open_nodes, y)
    }

    spec fn leads_back(self, g: spec_fn(usize) -> Seq<usize>, open_nodes: Set<usize>, y: usize) -> bool {
        exists|x: usize| #[trigger]
            open_nodes.contains(x) && self.time(x) <= self.time(y) && reaches(g, y, x)
    }

    /// The successors of a node that is not open have all been visited.
    spec fn explored(self, g: spec_fn(usize) -> Seq<usize>, open_nodes: Set<usize>) -> bool {
        forall|x: usize, y: usize|
            self.seen(x) && !open_nodes.contains(x) && #[trigger] edge(g, x, y) ==> self.seen(y)
    }

    /// No edge leaves the nodes that are done.
    spec fn sealed(self, g: spec_fn(usize) -> Seq<usize>) -> bool {
        forall|x: usize, y: usize| self.done(x) && #[trigger] edge(g, x, y) ==> self.done(y)
    }

    /// The components so far decompose the nodes that are done.
    #[verifier::opaque]
    spec fn settled(self, g: spec_fn(usize) -> Seq<usize>) -> bool {
        decomposes(g, Set::new(|v: usize| self.done(v)), self.component_views())
    }

    spec fn component_views(self) -> Seq<Seq<usize>> {
        self.components@.map_values(|c: Vec<usize>| c@)
    }

    spec fn inv(self, adjacency: Seq<Vec<usize>>, open_nodes: Set<usize>) -> bool {
        &&& self.numbered(adjacency.len())
        &&& self.ordered()
        &&& self.linked(listed(adjacency), open_nodes)
        &&& self.explored(listed(adjacency), open_nodes)
        &&& self.sealed(listed(adjacency))
        &&& self.settled(listed(adjacency))
    }

    /// What a visit leaves as it was.
    spec fn extends(self, before: Tarjan) -> bool {
        &&& forall|v: usize|
            #[trigger] before.seen(v) ==> self.seen(v) && self.time(v) == before.time(v)
        &&& before.stack@.len() <= self.stack@.len()
        &&& forall|i: int|
            0 <= i < before.stack@.len() ==> #[trigger] self.stack@[i] == before.stack@[i]
        &&& before.count <= self.count
        &&& forall|v: usize| self.seen(v) && !before.seen(v) ==> before.count <= #[trigger] self.time(v)
    }

    /// No edge leads from the stack at or above `from` to a node of the stack below
    /// `base` that was visited before `low`.
    spec fn crossing(
        self,
        g: spec_fn(usize) -> Seq<usize>,
        base: int,
        from: int,
        low: int,
    ) -> bool {
        forall|i: int, j: int|
            from <= i < self.stack.len() && 0 <= j < base && #[trigger] edge(
                g,
                self.stack@[i],
                self.stack@[j],
            ) ==> low <= self.time(self.stack@[j])
    }

    /// `low` is the time of a node of the stack below `base` that `v` reaches.
    spec fn attains(
        self,
        g: spec_fn(usize) -> Seq<usize>,
        base: int,
        v: usize,
        low: int,
    ) -> bool {
        exists|j: int|
            0 <= j < base && self.time(#[trigger] self.stack@[j]) == low && reaches(
                g,
                v,
                self.stack@[j],
            )
    }
}

impl Tarjan {
    /// There are no more visits than nodes.
    proof fn lemma_count(self, n: nat)
        requires
            self.numbered(n),
        ensures
            self.order@.no_duplicates(),
            self.count <= n,
    {
        assert forall|i: int, j: int| 0 <= i < j < self.order@.len() implies self.order@[i]
            != self.order@[j] by {
            assert(self.time(self.order@[i]) == i);
            assert(self.time(self.order@[j]) == j);
        }
        lemma_distinct_below(self.order@, n);
    }
}

/// Opening a node keeps the invariant.
proof fn lemma_opened(
    before: Tarjan,
    after: Tarjan,
    adjacency: Seq<Vec<usize>>,
    open_nodes: Set<usize>,
    v: usize,
)
    requires
        before.inv(adjacency, open_nodes),
        v < adjacency.len(),
        !before.seen(v),
        forall|x: usize| #[trigger] open_nodes.contains(x) ==> reaches(listed(adjacency), x, v),
        after.num@ == before.num@.update(v as int, Some(before.count)),
        after.on_stack@ == before.on_stack@.update(v as int, true),
        after.stack@ == before.stack@.push(v),
        after.components@ == before.components@,
        after.count == before.count + 1,
        after.order@ == before.order@.push(v),
    ensures
        after.inv(adjacency, open_nodes.insert(v)),
        after.extends(before),
{
    let g = listed(adjacency);
    assert(!before.stacked(v));
    assert forall|u: usize| #[trigger] before.seen(u) implies after.seen(u) && after.time(u)
        == before.time(u) by {}
    assert forall|u: usize| #[trigger] after.seen(u) implies u == v || before.seen(u) by {}
    assert(after.time(v) == before.count);
    assert(after.numbered(adjacency.len())) by {
        assert forall|i: int| 0 <= i < after.order@.len() implies (#[trigger] after.order@[i])
            < adjacency.len() && after.seen(after.order@[i]) && after.time(after.order@[i]) == i by {
            if i < before.order@.len() {
                assert(before.seen(before.order@[i]));
            }
        }
    }
    assert(after.ordered()) by {
        assert forall|i: int| 0 <= i < after.stack.len() implies after.stacked(
            #[trigger] after.stack@[i],
        ) by {
            if i < before.stack.len() {
                assert(before.stacked(before.stack@[i]));
            }
        }
        assert forall|u: usize| #[trigger] after.stacked(u) implies after.seen(u)
            && after.stack@.contains(u) by {
            if u == v {
                assert(after.stack@[before.stack@.len() as int] == v);
            } else {
                assert(before.stacked(u));
                let i = choose|i: int| 0 <= i < before.stack@.len() && before.stack@[i] == u;
                assert(after.stack@[i] == u);
            }
        }
        assert forall|i: int, j: int| 0 <= i < j < after.stack.len() implies after.time(
            #[trigger] after.stack@[i],
        ) < after.time(#[trigger] after.stack@[j]) by {
            assert(before.stacked(before.stack@[i]));
            assert(before.seen(before.stack@[i]));
            if j < before.stack.len() {
                assert(before.stacked(before.stack@[j]));
                assert(before.seen(before.stack@[j]));
            }
        }
    }
    let grown = open_nodes.insert(v);
    assert(after.linked(g, grown)) by {
        assert forall|i: int, j: int| 0 <= i <= j < after.stack.len() implies reaches(
            g,
            #[trigger] after.stack@[i],
            #[trigger] after.stack@[j],
        ) by {
            if j == before.stack.len() {
                if i == j {
                    lemma_reaches_self(g, v);
                } else {
                    let y = before.stack@[i];
                    assert(before.stacked(y));
                    assert(before.leads_back(g, open_nodes, y));
                    let x = choose|x: usize| #[trigger]
                        open_nodes.contains(x) && before.time(x) <= before.time(y) && reaches(g, y, x);
                    lemma_reaches_transitive(g, y, x, v);
                }
            } else {
                assert(reaches(g, before.stack@[i], before.stack@[j]));
            }
        }
        assert forall|y: usize| after.stacked(y) implies #[trigger] after.leads_back(g, grown, y) by {
            if y == v {
                lemma_reaches_self(g, v);
                assert(grown.contains(v));
            } else {
                assert(before.stacked(y));
                assert(before.leads_back(g, open_nodes, y));
                let x = choose|x: usize| #[trigger]
                    open_nodes.contains(x) && before.time(x) <= before.time(y) && reaches(g, y, x);
                assert(before.stacked(x) && before.seen(x));
                assert(before.seen(y));
                assert(grown.contains(x));
            }
        }
        assert forall|x: usize| #[trigger] grown.contains(x) implies after.stacked(x) by {
            if x != v {
                assert(open_nodes.contains(x));
            }
        }
    }
    assert(after.explored(g, grown)) by {
        assert forall|x: usize, y: usize|
            after.seen(x) && !grown.contains(x) && #[trigger] edge(g, x, y) implies after.seen(y) by {
            assert(before.seen(x));
            assert(before.seen(y));
        }
    }
    assert(after.settled(g)) by {
        reveal(Tarjan::settled);
        assert(Set::new(|u: usize| after.done(u)) =~= Set::new(|u: usize| before.done(u)));
        assert(after.component_views() =~= before.component_views());
    }
    assert(after.sealed(g)) by {
        assert forall|x: usize, y: usize| after.done(x) && #[trigger] edge(g, x, y) implies after.done(
            y,
        ) by {
            assert(before.done(x));
            assert(before.done(y));
        }
    }
}

/// Closing a node that reaches an older one on the stack keeps the invariant.
proof fn lemma_kept(
    cur: Tarjan,
    adjacency: Seq<Vec<usize>>,
    open_nodes: Set<usize>,
    v: usize,
    base: int,
    low: int,
)
    requires
        cur.inv(adjacency, open_nodes.insert(v)),
        0 <= base < cur.stack.len(),
        cur.stack@[base] == v,
        !open_nodes.contains(v),
        forall|y: usize| #[trigger] edge(listed(adjacency), v, y) ==> cur.seen(y),
        cur.attains(listed(adjacency), base, v, low),
    ensures
        cur.inv(adjacency, open_nodes),
{
    let g = listed(adjacency);
    let grown = open_nodes.insert(v);
    assert forall|x: usize| #[trigger] open_nodes.contains(x) implies cur.stacked(x) by {
        assert(grown.contains(x));
    }
    let j = choose|j: int|
        0 <= j < base && cur.time(#[trigger] cur.stack@[j]) == low && reaches(g, v, cur.stack@[j]);
    let older = cur.stack@[j];
    assert(cur.stacked(older));
    assert(cur.leads_back(g, grown, older));
    let root = choose|x: usize| #[trigger]
        grown.contains(x) && cur.time(x) <= cur.time(older) && reaches(g, older, x);
    assert(cur.time(cur.stack@[j]) < cur.time(cur.stack@[base]));
    assert(open_nodes.contains(root));
    lemma_reaches_transitive(g, v, older, root);
    assert forall|y: usize| cur.stacked(y) implies #[trigger] cur.leads_back(g, open_nodes, y) by {
        assert(cur.leads_back(g, grown, y));
        let x = choose|x: usize| #[trigger]
            grown.contains(x) && cur.time(x) <= cur.time(y) && reaches(g, y, x);
        if x == v {
            lemma_reaches_transitive(g, y, v, root);
            assert(open_nodes.contains(root));
        } else {
            assert(open_nodes.contains(x));
        }
    }
    assert(cur.explored(g, open_nodes)) by {
        assert forall|x: usize, y: usize|
            cur.seen(x) && !open_nodes.contains(x) && #[trigger] edge(g, x, y) implies cur.seen(y) by {
            if x != v {
                assert(!grown.contains(x));
            }
        }
    }
}

/// Where no edge leads from the top of the stack, down to `v`, to the rest of the
/// stack, it leads to the top of the stack or to a node that is done.
proof fn lemma_top_is_closed(
    cur: Tarjan,
    adjacency: Seq<Vec<usize>>,
    open_nodes: Set<usize>,
    v: usize,
    base: int,
    x: usize,
    y: usize,
)
    requires
        cur.inv(adjacency, open_nodes.insert(v)),
        0 <= base < cur.stack.len(),
        cur.stack@[base] == v,
        forall|u: usize| #[trigger]
            open_nodes.contains(u) ==> cur.seen(u) && cur.time(u) < cur.time(v),
        forall|u: usize| #[trigger] edge(listed(adjacency), v, u) ==> cur.seen(u),
        cur.crossing(listed(adjacency), base, base, cur.time(v)),
        cur.stack@.skip(base).contains(x),
        edge(listed(adjacency), x, y),
    ensures
        cur.done(y) || cur.stack@.skip(base).contains(y),
{
    let g = listed(adjacency);
    let top = cur.stack@.skip(base);
    let i = choose|i: int| 0 <= i < top.len() && top[i] == x;
    assert(cur.stack@[base + i] == x);
    assert(cur.stacked(x));
    if x != v {
        assert(cur.time(cur.stack@[base]) < cur.time(cur.stack@[base + i])) by {
            if i == 0 {
                assert(x == v);
            }
        }
        assert(!open_nodes.contains(x));
        assert(!open_nodes.insert(v).contains(x));
    }
    assert(cur.seen(y));
    if cur.stacked(y) {
        let j = choose|j: int| 0 <= j < cur.stack@.len() && cur.stack@[j] == y;
        if j < base {
            assert(edge(g, cur.stack@[base + i], cur.stack@[j]));
            assert(cur.time(cur.stack@[j]) < cur.time(cur.stack@[base]));
        } else {
            assert(top[j - base] == y);
        }
    }
}

/// Taking the top of the stack, down to `v`, as a component keeps the invariant.
proof fn lemma_popped(
    cur: Tarjan,
    after: Tarjan,
    adjacency: Seq<Vec<usize>>,
    open_nodes: Set<usize>,
    v: usize,
    base: int,
)
    requires
        cur.inv(adjacency, open_nodes.insert(v)),
        0 <= base < cur.stack.len(),
        cur.stack@[base] == v,
        forall|x: usize| #[trigger]
            open_nodes.contains(x) ==> cur.seen(x) && cur.time(x) < cur.time(v),
        forall|y: usize| #[trigger] edge(listed(adjacency), v, y) ==> cur.seen(y),
        cur.crossing(listed(adjacency), base, base, cur.time(v)),
        after.num@ == cur.num@,
        after.count == cur.count,
        after.order@ == cur.order@,
        after.stack@ == cur.stack@.take(base),
        after.on_stack@.len() == cur.on_stack@.len(),
        forall|x: usize| #[trigger]
            after.stacked(x) <==> cur.stacked(x) && !cur.stack@.skip(base).contains(x),
        after.components@.len() == cur.components@.len() + 1,
        forall|i: int| 0 <= i < cur.components@.len() ==> after.components@[i] == cur.components@[i],
        after.components@.last()@ == cur.stack@.skip(base).reverse(),
    ensures
        after.inv(adjacency, open_nodes),
{
    let g = listed(adjacency);
    let grown = open_nodes.insert(v);
    let top = cur.stack@.skip(base);
    assert(top[0] == v);
    assert forall|i: int| 0 <= i < top.len() implies cur.stacked(#[trigger] top[i]) && cur.time(v)
        <= cur.time(top[i]) by {
        assert(cur.stacked(cur.stack@[base + i]));
        if i > 0 {
            assert(cur.time(cur.stack@[base]) < cur.time(cur.stack@[base + i]));
        }
    }
    assert forall|x: usize| #[trigger] top.contains(x) implies cur.stacked(x) && cur.seen(x)
        && cur.time(v) <= cur.time(x) by {
        let i = choose|i: int| 0 <= i < top.len() && top[i] == x;
        assert(cur.stacked(top[i]));
    }
    assert forall|x: usize| #[trigger] after.seen(x) == cur.seen(x) by {}
    // Every node of the top reaches `v`.
    assert forall|y: usize| #[trigger] top.contains(y) implies reaches(g, y, v) by {
        assert(cur.leads_back(g, grown, y));
        let x = choose|x: usize| #[trigger]
            grown.contains(x) && cur.time(x) <= cur.time(y) && reaches(g, y, x);
        if x != v {
            assert(open_nodes.contains(x));
            assert(!top.contains(x));
            assert(cur.stacked(x));
            let inside = |u: usize| top.contains(u) || cur.done(u);
            assert forall|a: usize, b: usize| inside(a) && #[trigger] edge(g, a, b) implies inside(
                b,
            ) by {
                if top.contains(a) {
                    lemma_top_is_closed(cur, adjacency, open_nodes, v, base, a, b);
                } else {
                    assert(cur.done(b));
                }
            }
            lemma_reaches_stays(g, inside, y, x);
        }
    }
    assert forall|i: int| 0 <= i < after.stack.len() implies #[trigger] after.stack@[i]
        == cur.stack@[i] by {}
    assert forall|i: int| 0 <= i < after.stack.len() implies !top.contains(
        #[trigger] after.stack@[i],
    ) by {
        if top.contains(after.stack@[i]) {
            assert(cur.time(cur.stack@[i]) < cur.time(cur.stack@[base]));
        }
    }
    assert(after.numbered(adjacency.len()));
    assert(after.ordered()) by {
        assert forall|i: int| 0 <= i < after.stack.len() implies after.stacked(
            #[trigger] after.stack@[i],
        ) by {
            assert(cur.stacked(cur.stack@[i]));
        }
        assert forall|x: usize| #[trigger] after.stacked(x) implies after.seen(x)
            && after.stack@.contains(x) by {
            let i = choose|i: int| 0 <= i < cur.stack@.len() && cur.stack@[i] == x;
            if i >= base {
                assert(top[i - base] == x);
            }
            assert(after.stack@[i] == x);
        }
        assert forall|i: int, j: int| 0 <= i < j < after.stack.len() implies after.time(
            #[trigger] after.stack@[i],
        ) < after.time(#[trigger] after.stack@[j]) by {
            assert(cur.time(cur.stack@[i]) < cur.time(cur.stack@[j]));
        }
    }
    assert(after.linked(g, open_nodes)) by {
        assert forall|i: int, j: int| 0 <= i <= j < after.stack.len() implies reaches(
            g,
            #[trigger] after.stack@[i],
            #[trigger] after.stack@[j],
        ) by {
            assert(reaches(g, cur.stack@[i], cur.stack@[j]));
        }
        assert forall|x: usize| #[trigger] open_nodes.contains(x) implies after.stacked(x) by {
            assert(grown.contains(x));
        }
        assert forall|y: usize| after.stacked(y) implies #[trigger] after.leads_back(
            g,
            open_nodes,
            y,
        ) by {
            assert(cur.leads_back(g, grown, y));
            let x = choose|x: usize| #[trigger]
                grown.contains(x) && cur.time(x) <= cur.time(y) && reaches(g, y, x);
            let i = choose|i: int| 0 <= i < after.stack@.len() && after.stack@[i] == y;
            assert(cur.time(cur.stack@[i]) < cur.time(cur.stack@[base]));
            assert(open_nodes.contains(x));
        }
    }
    assert(after.explored(g, open_nodes)) by {
        assert forall|x: usize, y: usize|
            after.seen(x) && !open_nodes.contains(x) && #[trigger] edge(g, x, y) implies after.seen(
            y,
        ) by {
            if x != v {
                assert(!grown.contains(x));
                assert(cur.seen(y));
            }
        }
    }
    lemma_popped_settles(cur, after, adjacency, open_nodes, v, base);
}

/// The new component extends the decomposition of the nodes that are done.
proof fn lemma_popped_settles(
    cur: Tarjan,
    after: Tarjan,
    adjacency: Seq<Vec<usize>>,
    open_nodes: Set<usize>,
    v: usize,
    base: int,
)
    requires
        cur.inv(adjacency, open_nodes.insert(v)),
        0 <= base < cur.stack.len(),
        cur.stack@[base] == v,
        forall|x: usize| #[trigger]
            open_nodes.contains(x) ==> cur.seen(x) && cur.time(x) < cur.time(v),
        forall|y: usize| #[trigger] edge(listed(adjacency), v, y) ==> cur.seen(y),
        cur.crossing(listed(adjacency), base, base, cur.time(v)),
        forall|y: usize| #[trigger]
            cur.stack@.skip(base).contains(y) ==> reaches(listed(adjacency), y, v),
        after.num@ == cur.num@,
        after.on_stack@.len() == cur.on_stack@.len(),
        forall|x: usize| #[trigger]
            after.stacked(x) <==> cur.stacked(x) && !cur.stack@.skip(base).contains(x),
        after.components@.len() == cur.components@.len() + 1,
        forall|i: int| 0 <= i < cur.components@.len() ==> after.components@[i] == cur.components@[i],
        after.components@.last()@ == cur.stack@.skip(base).reverse(),
    ensures
        after.settled(listed(adjacency)),
        after.sealed(listed(adjacency)),
{
    reveal(Tarjan::settled);
    let g = listed(adjacency);
    let top = cur.stack@.skip(base);
    let old_groups = cur.component_views();
    let groups = after.component_views();
    let n = old_groups.len() as int;
    let last = groups[n];
    assert(last == top.reverse());
    assert forall|x: usize| #[trigger] last.contains(x) <==> top.contains(x) by {
        if last.contains(x) {
            let i = choose|i: int| 0 <= i < last.len() && last[i] == x;
            assert(top[top.len() - 1 - i] == x);
        }
        if top.contains(x) {
            let i = choose|i: int| 0 <= i < top.len() && top[i] == x;
            assert(last[top.len() - 1 - i] == x);
        }
    }
    assert forall|i: int| 0 <= i < n implies #[trigger] groups[i] == old_groups[i] by {}
    assert forall|x: usize| #[trigger] top.contains(x) implies cur.stacked(x) && cur.seen(x)
        && reaches(g, v, x) by {
        let i = choose|i: int| 0 <= i < top.len() && top[i] == x;
        assert(cur.stacked(cur.stack@[base + i]));
        assert(reaches(g, cur.stack@[base], cur.stack@[base + i]));
    }
    let old_done = Set::new(|u: usize| cur.done(u));
    let new_done = Set::new(|u: usize| after.done(u));
    assert forall|x: usize| #[trigger] new_done.contains(x) <==> old_done.contains(x)
        || top.contains(x) by {}
    assert forall|i: int, x: usize| 0 <= i < n && #[trigger] old_groups[i].contains(x) implies cur.done(
        x,
    ) by {
        assert(old_done.contains(x));
    }
    assert(last.no_duplicates()) by {
        assert forall|i: int, j: int| 0 <= i < j < last.len() implies last[i] != last[j] by {
            let a = cur.stack@[base + top.len() - 1 - j];
            let b = cur.stack@[base + top.len() - 1 - i];
            assert(cur.time(a) < cur.time(b));
        }
    }
    assert(last.len() > 0);
    assert forall|x: usize| #[trigger] new_done.contains(x) <==> exists|i: int|
        0 <= i < groups.len() && #[trigger] groups[i].contains(x) by {
        if old_done.contains(x) {
            let i = choose|i: int| 0 <= i < old_groups.len() && #[trigger] old_groups[i].contains(x);
            assert(groups[i].contains(x));
        } else if top.contains(x) {
            assert(groups[n].contains(x));
        }
        if exists|i: int| 0 <= i < groups.len() && #[trigger] groups[i].contains(x) {
            let i = choose|i: int| 0 <= i < groups.len() && #[trigger] groups[i].contains(x);
            if i < n {
                assert(old_groups[i].contains(x));
            }
        }
    }
    assert forall|i: int, j: int, x: usize|
        0 <= i < groups.len() && 0 <= j < groups.len() && #[trigger] groups[i].contains(x)
            && #[trigger] groups[j].contains(x) implies i == j by {
        if i < n {
            assert(old_groups[i].contains(x));
        }
        if j < n {
            assert(old_groups[j].contains(x));
        }
    }
    assert forall|i: int, x: usize, y: usize|
        0 <= i < groups.len() && #[trigger] groups[i].contains(x) && #[trigger] groups[i].contains(
            y,
        ) implies reaches(g, x, y) by {
        if i < n {
            assert(old_groups[i].contains(x) && old_groups[i].contains(y));
        } else {
            lemma_reaches_transitive(g, x, v, y);
        }
    }
    assert forall|i: int, j: int, x: usize, y: usize|
        #![trigger groups[i].contains(x), groups[j].contains(y), edge(g, x, y)]
        0 <= i < groups.len() && 0 <= j < groups.len() && groups[i].contains(x)
            && groups[j].contains(y) && edge(g, x, y) implies j <= i by {
        if i < n {
            assert(old_groups[i].contains(x));
            assert(cur.done(y));
            if j < n {
                assert(old_groups[j].contains(y));
            }
        }
    }
    assert forall|x: usize, y: usize| after.done(x) && #[trigger] edge(g, x, y) implies after.done(
        y,
    ) by {
        if top.contains(x) {
            lemma_top_is_closed(cur, adjacency, open_nodes, v, base, x, y);
        } else {
            assert(cur.done(x));
            assert(cur.done(y));
        }
    }
}

/// What the visit of a successor `w` of `v` adds to what is known of the edges that
/// cross from the top of the stack to the part below `base`.
proof fn lemma_visited(
    before: Tarjan,
    after: Tarjan,
    adjacency: Seq<Vec<usize>>,
    open_nodes: Set<usize>,
    v: usize,
    w: usize,
    base: int,
    low: int,
    low_w: int,
)
    requires
        before.inv(adjacency, open_nodes),
        after.inv(adjacency, open_nodes),
        after.extends(before),
        0 <= base < before.stack.len(),
        before.stack@[base] == v,
        edge(listed(adjacency), v, w),
        low <= before.time(v),
        low < before.time(v) ==> before.attains(listed(adjacency), base, v, low),
        before.crossing(listed(adjacency), base, base + 1, low),
        !before.seen(w),
        after.crossing(listed(adjacency), before.stack.len() as int, before.stack.len() as int, low_w),
        low_w <= after.time(w),
        low_w < after.time(w) ==> after.attains(
            listed(adjacency),
            before.stack.len() as int,
            w,
            low_w,
        ),
        after.seen(w),
    ensures
        ({
            let least = if low_w < low {
                low_w
            } else {
                low
            };
            &&& after.crossing(listed(adjacency), base, base + 1, least)
            &&& least < after.time(v) ==> after.attains(listed(adjacency), base, v, least)
        }),
        after.stack@[base] == v,
        after.time(v) == before.time(v),
{
    let g = listed(adjacency);
    let least = if low_w < low {
        low_w
    } else {
        low
    };
    assert(after.stack@[base] == before.stack@[base]);
    assert forall|i: int| 0 <= i < before.stack.len() implies before.seen(#[trigger] before.stack@[i])
        && after.time(before.stack@[i]) == before.time(before.stack@[i]) by {
        assert(before.stacked(before.stack@[i]));
    }
    assert(before.seen(before.stack@[base]));
    assert(after.crossing(g, base, base + 1, least)) by {
        assert forall|i: int, j: int|
            base + 1 <= i < after.stack.len() && 0 <= j < base && #[trigger] edge(
                g,
                after.stack@[i],
                after.stack@[j],
            ) implies least <= after.time(after.stack@[j]) by {
            assert(after.stack@[j] == before.stack@[j]);
            assert(before.seen(before.stack@[j]));
            if i < before.stack.len() {
                assert(after.stack@[i] == before.stack@[i]);
                assert(edge(g, before.stack@[i], before.stack@[j]));
            }
        }
    }
    if least < after.time(v) {
        if low_w < low {
            assert(before.count <= after.time(w));
            assert(before.time(v) < before.count);
            let j = choose|j: int|
                0 <= j < before.stack.len() && after.time(#[trigger] after.stack@[j]) == low_w
                    && reaches(g, w, after.stack@[j]);
            if j >= base {
                if j > base {
                    assert(after.time(after.stack@[base]) < after.time(after.stack@[j]));
                }
            }
            lemma_reaches_edge(g, v, w);
            lemma_reaches_transitive(g, v, w, after.stack@[j]);
            assert(after.attains(g, base, v, least));
        } else {
            let j = choose|j: int|
                0 <= j < base && before.time(#[trigger] before.stack@[j]) == low && reaches(
                    g,
                    v,
                    before.stack@[j],
                );
            assert(before.seen(before.stack@[j]));
            assert(after.stack@[j] == before.stack@[j]);
            assert(after.attains(g, base, v, least));
        }
    }
}

/// Visits `v` and everything that is reached from it and was not visited before.
///
/// Returns the lowest visiting time known to be reached from `v` within the stack.
fn visit(
    adjacency: &Vec<Vec<usize>>,
    v: usize,
    state: &mut Tarjan,
    Ghost(open_nodes): Ghost<Set<usize>>,
) -> (low: usize)
    requires
        well_listed(adjacency@),
        old(state).inv(adjacency@, open_nodes),
        v < adjacency.len(),
        !old(state).seen(v),
        forall|x: usize| #[trigger] open_nodes.contains(x) ==> reaches(listed(adjacency@), x, v),
    ensures
        final(state).inv(adjacency@, open_nodes),
        final(state).extends(*old(state)),
        final(state).seen(v),
        low <= final(state).time(v),
        final(state).crossing(
            listed(adjacency@),
            old(state).stack.len() as int,
            old(state).stack.len() as int,
            low as int,
        ),
        low < final(state).time(v) ==> final(state).attains(
            listed(adjacency@),
            old(state).stack.len() as int,
            v,
            low as int,
        ),
    decreases adjacency.len() - old(state).count,
{
    let ghost g = listed(adjacency@);
    let ghost entry = *state;
    let base: usize = state.stack.len();
    let time: usize = state.count;
    proof {
        let extended = entry.order@.push(v);
        assert forall|i: int| 0 <= i < entry.order@.len() implies entry.order@[i] != v by {
            assert(entry.seen(entry.order@[i]));
        }
        entry.lemma_count(adjacency.len() as nat);
        assert(extended.no_duplicates());
        lemma_distinct_below(extended, adjacency.len() as nat);
    }
    state.num.set(v, Some(time));
    state.on_stack.set(v, true);
    state.stack.push(v);
    state.count = time + 1;
    state.order = Ghost(entry.order@.push(v));
    let ghost opened = *state;
    let ghost grown = open_nodes.insert(v);
    proof {
        lemma_opened(entry, opened, adjacency@, open_nodes, v);
        assert(opened.seen(v));
    }
    let mut low: usize = time;
    let mut i: usize = 0;
    while i < adjacency[v as usize].len()
        invariant
            well_listed(adjacency@),
            g == listed(adjacency@),
            grown == open_nodes.insert(v),
            v < adjacency.len(),
            i <= adjacency@[v as int].len(),
            state.inv(adjacency@, grown),
            entry.inv(adjacency@, open_nodes),
            entry == *old(state),
            opened.extends(entry),
            state.extends(opened),
            opened.stack@ == entry.stack@.push(v),
            opened.count == entry.count + 1,
            opened.time(v) == time,
            opened.seen(v),
            base == entry.stack.len(),
            base < state.stack.len(),
            state.stack@[base as int] == v,
            state.time(v) == time,
            low <= time,
            low < time ==> state.attains(g, base as int, v, low as int),
            state.crossing(g, base as int, base + 1, low as int),
            forall|k: int| 0 <= k < i ==> state.seen(#[trigger] adjacency@[v as int]@[k]),
            forall|k: int, j: int|
                0 <= k < i && 0 <= j < base && #[trigger] adjacency@[v as int]@[k]
                    == #[trigger] state.stack@[j] ==> low <= state.time(state.stack@[j]),
            forall|x: usize| #[trigger] open_nodes.contains(x) ==> reaches(g, x, v),
        decreases adjacency@[v as int].len() - i,
    {
        let w: usize = adjacency[v][i];
        let ghost before = *state;
        proof {
            before.lemma_count(adjacency.len() as nat);
            assert(g(v)[i as int] == w);
            assert(edge(g, v, w));
            lemma_reaches_edge(g, v, w);
            assert(adjacency@[v as int]@[i as int] < adjacency.len());
        }
        match state.num[w] {
            None => {
                proof {
                    assert forall|x: usize| #[trigger] grown.contains(x) implies reaches(g, x, w) by {
                        if x != v {
                            assert(open_nodes.contains(x));
                            lemma_reaches_transitive(g, x, v, w);
                        }
                    }
                }
                let low_w: usize = visit(adjacency, w, state, Ghost(grown));
                proof {
                    lemma_visited(
                        before,
                        *state,
                        adjacency@,
                        grown,
                        v,
                        w,
                        base as int,
                        low as int,
                        low_w as int,
                    );
                }
                if low_w < low {
                    low = low_w;
                }
            },
            Some(time_w) => {
                if state.on_stack[w] {
                    if time_w < low {
                        low = time_w;
                        proof {
                            assert(state.stacked(w));
                            let j = choose|j: int| 0 <= j < state.stack@.len() && state.stack@[j] == w;
                            if j > base {
                                assert(state.time(state.stack@[base as int]) < state.time(
                                    state.stack@[j],
                                ));
                            }
                            assert(state.attains(g, base as int, v, low as int));
                        }
                    }
                }
            },
        }
        i = i + 1;
    }
    let ghost explored = *state;
    proof {
        assert forall|y: usize| #[trigger] edge(g, v, y) implies explored.seen(y) by {
            let after_v = adjacency@[v as int]@;
            assert(after_v.contains(y));
            let k = choose|k: int| 0 <= k < after_v.len() && after_v[k] == y;
            assert(explored.seen(after_v[k]));
        }
        assert(explored.crossing(g, base as int, base as int, low as int)) by {
            assert forall|a: int, j: int|
                base <= a < explored.stack.len() && 0 <= j < base && #[trigger] edge(
                    g,
                    explored.stack@[a],
                    explored.stack@[j],
                ) implies low <= explored.time(explored.stack@[j]) by {
                if a == base {
                    let after_v = adjacency@[v as int]@;
                    assert(after_v.contains(explored.stack@[j]));
                    let k = choose|k: int|
                        0 <= k < after_v.len() && after_v[k] == explored.stack@[j];
                    assert(adjacency@[v as int]@[k] == explored.stack@[j]);
                }
            }
        }
        assert forall|x: usize| #[trigger] open_nodes.contains(x) implies entry.seen(x)
            && opened.seen(x) && explored.seen(x) && explored.time(x) < explored.time(v) by {
            assert(entry.stacked(x));
            assert(entry.seen(x));
            assert(opened.seen(x));
        }
        assert(explored.seen(v));
    }
    if low == time {
        let mut component: Vec<usize> = Vec::new();
        while state.stack.len() > base
            invariant
                base <= state.stack.len() <= explored.stack.len(),
                explored.inv(adjacency@, grown),
                state.num@ == explored.num@,
                state.count == explored.count,
                state.order@ == explored.order@,
                state.components@ == explored.components@,
                state.stack@ == explored.stack@.take(state.stack.len() as int),
                component@ == explored.stack@.skip(state.stack.len() as int).reverse(),
                state.on_stack.len() == explored.on_stack.len(),
                forall|x: usize| #[trigger]
                    state.stacked(x) <==> explored.stacked(x) && !explored.stack@.skip(
                        state.stack.len() as int,
                    ).contains(x),
            decreases state.stack.len(),
        {
            let ghost held = state.stack.len() as int;
            let ghost former = *state;
            match state.stack.pop() {
                Some(w) => {
                    proof {
                        assert(w == explored.stack@[held - 1]);
                        assert(explored.stacked(explored.stack@[held - 1]));
                    }
                    state.on_stack.set(w, false);
                    component.push(w);
                    proof {
                        let rest = explored.stack@.skip(held);
                        let more = explored.stack@.skip(held - 1);
                        assert(component@ =~= more.reverse());
                        assert forall|x: usize| #[trigger] more.contains(x) <==> x == w
                            || rest.contains(x) by {
                            assert(more[0] == w);
                            if rest.contains(x) {
                                let k = choose|k: int| 0 <= k < rest.len() && rest[k] == x;
                                assert(more[k + 1] == x);
                            }
                            if more.contains(x) {
                                let k = choose|k: int| 0 <= k < more.len() && more[k] == x;
                                if k > 0 {
                                    assert(rest[k - 1] == x);
                                }
                            }
                        }
                        assert forall|x: usize| #[trigger]
                            state.stacked(x) <==> explored.stacked(x) && !more.contains(x) by {
                            assert(former.stacked(x) <==> explored.stacked(x) && !rest.contains(x));
                        }
                    }
                },
                None => {},
            }
        }
        let ghost popped = *state;
        state.components.push(component);
        proof {
            assert forall|x: usize| #[trigger]
                state.stacked(x) <==> explored.stacked(x) && !explored.stack@.skip(
                    base as int,
                ).contains(x) by {
                assert(state.stacked(x) == popped.stacked(x));
            }
            lemma_popped(explored, *state, adjacency@, open_nodes, v, base as int);
        }
    } else {
        proof {
            assert(!open_nodes.contains(v)) by {
                if open_nodes.contains(v) {
                    assert(entry.stacked(v));
                }
            }
            lemma_kept(explored, adjacency@, open_nodes, v, base as int, low as int);
        }
    }
    low
}

/// Returns the strongly connected components of the graph, in reverse topological order.
pub fn strong_components(adjacency: &Vec<Vec<usize>>) -> (components: Vec<Vec<usize>>)
    requires
        well_listed(adjacency@),
    ensures
        decomposes(
            listed(adjacency@),
            below(adjacency.len() as nat),
            components@.map_values(|c: Vec<usize>| c@),
        ),
{
    let n: usize = adjacency.len();
    let mut num: Vec<Option<usize>> = Vec::new();
    let mut on_stack: Vec<bool> = Vec::new();
    let mut i: usize = 0;
    while i < n
        invariant
            i <= n,
            num.len() == i,
            on_stack.len() == i,
            forall|k: int| 0 <= k < i ==> #[trigger] num@[k] is None,
            forall|k: int| 0 <= k < i ==> !#[trigger] on_stack@[k],
        decreases n - i,
    {
        num.push(None);
        on_stack.push(false);
        i = i + 1;
    }
    let mut state = Tarjan {
        num,
        on_stack,
        stack: Vec::new(),
        components: Vec::new(),
        count: 0,
        order: Ghost(Seq::empty()),
    };
    let ghost g = listed(adjacency@);
    proof {
        assert(state.settled(g)) by {
            reveal(Tarjan::settled);
        }
    }
    let mut v: usize = 0;
    while v < n
        invariant
            v <= n,
            n == adjacency.len(),
            g == listed(adjacency@),
            well_listed(adjacency@),
            state.inv(adjacency@, Set::empty()),
            forall|x: usize| x < v ==> #[trigger] state.seen(x),
        decreases n - v,
    {
        let ghost before = state;
        if state.num[v].is_none() {
            visit(adjacency, v, &mut state, Ghost(Set::empty()));
        }
        proof {
            assert forall|x: usize| x < v + 1 implies #[trigger] state.seen(x) by {
                if x < v {
                    assert(before.seen(x));
                }
            }
        }
        v = v + 1;
    }
    proof {
        assert forall|x: usize| #[trigger] below(n as nat).contains(x) <==> state.done(x) by {
            if state.stacked(x) {
                assert(state.leads_back(g, Set::empty(), x));
            }
        }
        reveal(Tarjan::settled);
        assert(below(n as nat) =~= Set::new(|x: usize| state.done(x)));
    }
    state.components
}

} // verus!
