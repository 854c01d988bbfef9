//! Topological order of a graph over the integers below a bound, by Kahn's algorithm.
use vstd::prelude::*;
use crate::components::{below, lemma_distinct_below, listed, well_listed};
use crate::digraph::{connects, cyclic, edge, follows, lemma_walk_stretch, step, walk, Schedule};

verus! {

/// How often `v` occurs in `s`.
pub open spec fn occurrences(s: Seq<usize>, v: usize) -> nat
    decreases s.len(),
{
    if s.len() == 0 {
        0
    } else {
        occurrences(s.drop_last(), v) + if s.last() == v {
            1nat
        } else {
            0nat
        }
    }
}

/// How many edges lead to `v` from the nodes below `m` that are not in `placed`.
pub open spec fn in_degree(
    adjacency: Seq<Vec<usize>>,
    placed: Set<usize>,
    v: usize,
    m: nat,
) -> nat
    decreases m,
{
    if m == 0 {
        0
    } else {
        in_degree(adjacency, placed, v, (m - 1) as nat) + if placed.contains((m - 1) as usize) {
            0
        } else {
            occurrences(adjacency[m - 1]@, v)
        }
    }
}

pub proof fn lemma_occurrences(s: Seq<usize>, v: usize)
    ensures
        occurrences(s, v) > 0 <==> s.contains(v),
        occurrences(s, v) <= s.len(),
    decreases s.len(),
{
    if s.len() > 0 {
        lemma_occurrences(s.drop_last(), v);
        if s.contains(v) && s.last() != v {
            let i = choose|i: int| 0 <= i < s.len() && s[i] == v;
            assert(s.drop_last()[i] == v);
        }
        if s.drop_last().contains(v) {
            let i = choose|i: int| 0 <= i < s.drop_last().len() && s.drop_last()[i] == v;
            assert(s[i] == v);
        }
        if s.last() == v {
            assert(s[s.len() - 1] == v);
        }
    }
}

/// The occurrences up to a place and after it are all there are.
proof fn lemma_occurrences_split(s: Seq<usize>, v: usize, k: int)
    requires
        0 <= k <= s.len(),
    ensures
        occurrences(s.take(k), v) + occurrences(s.skip(k), v) == occurrences(s, v),
    decreases s.len(),
{
    if k == s.len() {
        assert(s.take(k) =~= s);
        assert(s.skip(k) =~= Seq::empty());
    } else {
        lemma_occurrences_split(s.drop_last(), v, k);
        assert(s.drop_last().take(k) =~= s.take(k));
        assert(s.drop_last().skip(k) =~= s.skip(k).drop_last());
    }
}

/// An edge that counts is an edge from a node that is not placed.
proof fn lemma_in_degree_source(
    adjacency: Seq<Vec<usize>>,
    placed: Set<usize>,
    v: usize,
    m: nat,
) -> (u: usize)
    requires
        m <= adjacency.len(),
        m <= usize::MAX,
        in_degree(adjacency, placed, v, m) > 0,
    ensures
        u < m,
        !placed.contains(u),
        edge(listed(adjacency), u, v),
    decreases m,
{
    let last = (m - 1) as usize;
    lemma_occurrences(adjacency[m - 1]@, v);
    if !placed.contains(last) && occurrences(adjacency[m - 1]@, v) > 0 {
        last
    } else {
        lemma_in_degree_source(adjacency, placed, v, (m - 1) as nat)
    }
}

/// The edges from one node that is not placed are among those that count.
proof fn lemma_in_degree_at_least(
    adjacency: Seq<Vec<usize>>,
    placed: Set<usize>,
    v: usize,
    m: nat,
    u: usize,
)
    requires
        u < m <= adjacency.len(),
        m <= usize::MAX,
        !placed.contains(u),
    ensures
        occurrences(adjacency[u as int]@, v) <= in_degree(adjacency, placed, v, m),
    decreases m,
{
    if u < m - 1 {
        lemma_in_degree_at_least(adjacency, placed, v, (m - 1) as nat, u);
    }
}

/// Placing a node takes its edges out of the count.
proof fn lemma_in_degree_placed(
    adjacency: Seq<Vec<usize>>,
    placed: Set<usize>,
    v: usize,
    m: nat,
    u: usize,
)
    requires
        m <= adjacency.len(),
        m <= usize::MAX,
        !placed.contains(u),
    ensures
        in_degree(adjacency, placed.insert(u), v, m) + (if u < m {
            occurrences(adjacency[u as int]@, v)
        } else {
            0
        }) == in_degree(adjacency, placed, v, m),
    decreases m,
{
    if m > 0 {
        lemma_in_degree_placed(adjacency, placed, v, (m - 1) as nat, u);
    }
}

/// A node that no list mentions has no edge to it.
pub proof fn lemma_in_degree_none(adjacency: Seq<Vec<usize>>, placed: Set<usize>, v: usize, m: nat)
    requires
        m <= adjacency.len(),
        forall|u: int| 0 <= u < m ==> !#[trigger] adjacency[u]@.contains(v),
    ensures
        in_degree(adjacency, placed, v, m) == 0,
    decreases m,
{
    if m > 0 {
        lemma_in_degree_none(adjacency, placed, v, (m - 1) as nat);
        lemma_occurrences(adjacency[m - 1]@, v);
    }
}

/// Adding an edge from `u` to `w` adds one to the count for `w`, and to no other.
pub proof fn lemma_in_degree_added(
    before: Seq<Vec<usize>>,
    after: Seq<Vec<usize>>,
    u: usize,
    w: usize,
    v: usize,
    m: nat,
)
    requires
        m <= before.len(),
        after.len() == before.len(),
        u < before.len(),
        after[u as int]@ == before[u as int]@.push(w),
        forall|i: int| 0 <= i < before.len() && i != u ==> #[trigger] after[i] == before[i],
    ensures
        in_degree(after, Set::empty(), v, m) == in_degree(before, Set::empty(), v, m) + if u < m
            && v == w {
            1nat
        } else {
            0nat
        },
    decreases m,
{
    if m > 0 {
        lemma_in_degree_added(before, after, u, w, v, (m - 1) as nat);
        if m - 1 == u {
            assert(after[u as int]@.drop_last() =~= before[u as int]@);
        }
    }
}

/// The count only looks at the lists of the nodes below the bound.
pub proof fn lemma_in_degree_same(
    before: Seq<Vec<usize>>,
    after: Seq<Vec<usize>>,
    placed: Set<usize>,
    v: usize,
    m: nat,
)
    requires
        forall|i: int| 0 <= i < m ==> #[trigger] after[i] == before[i],
    ensures
        in_degree(after, placed, v, m) == in_degree(before, placed, v, m),
    decreases m,
{
    if m > 0 {
        lemma_in_degree_same(before, after, placed, v, (m - 1) as nat);
    }
}

/// From a set of nodes in which each one has a predecessor, walks of any length lead
/// to a given member.
proof fn lemma_walk_within(
    g: spec_fn(usize) -> Seq<usize>,
    members: Set<usize>,
    v: usize,
    n: nat,
) -> (p: Seq<usize>)
    requires
        members.contains(v),
        n > 0,
        forall|x: usize| #[trigger]
            members.contains(x) ==> exists|y: usize| members.contains(y) && #[trigger] edge(g, y, x),
    ensures
        walk(g, p),
        p.len() == n,
        forall|i: int| 0 <= i < p.len() ==> members.contains(#[trigger] p[i]),
    decreases n,
{
    if n == 1 {
        seq![v]
    } else {
        let q = lemma_walk_within(g, members, v, (n - 1) as nat);
        assert(members.contains(q[0]));
        let y = choose|y: usize| members.contains(y) && #[trigger] edge(g, y, q[0]);
        let p = seq![y] + q;
        assert forall|i: int| 0 < i < p.len() implies #[trigger] step(g, p, i) by {
            if i > 1 {
                assert(step(g, q, i - 1));
            } else {
                assert(p[0] == y && p[1] == q[0]);
            }
        }
        assert forall|i: int| 0 <= i < p.len() implies members.contains(#[trigger] p[i]) by {
            if i > 0 {
                assert(p[i] == q[i - 1]);
            }
        }
        p
    }
}

/// Among the nodes below `n`, a set in which each one has a predecessor holds a cycle.
proof fn lemma_all_preceded_is_cyclic(
    g: spec_fn(usize) -> Seq<usize>,
    members: Set<usize>,
    n: nat,
    v: usize,
)
    requires
        members.contains(v),
        forall|x: usize| #[trigger] members.contains(x) ==> x < n,
        forall|x: usize| #[trigger]
            members.contains(x) ==> exists|y: usize| members.contains(y) && #[trigger] edge(g, y, x),
    ensures
        cyclic(g),
{
    let p = lemma_walk_within(g, members, v, n + 1);
    if p.no_duplicates() {
        lemma_distinct_below(p, n);
    }
    let (i, j) = choose|i: int, j: int|
        0 <= i < p.len() && 0 <= j < p.len() && i != j && p[i] == p[j];
    let (a, b) = if i < j {
        (i, j)
    } else {
        (j, i)
    };
    lemma_walk_stretch(g, p, a, b);
    let c = p.subrange(a, b + 1);
    assert(connects(g, c, p[a], p[a]) && c.len() >= 2);
    assert(follows(g, p[a], p[a]));
}

/// Where the count of edges to `v` from nodes that are not placed is zero, all
/// predecessors of `v` are placed.
proof fn lemma_all_placed(adjacency: Seq<Vec<usize>>, placed: Set<usize>, v: usize, x: usize)
    requires
        adjacency.len() <= usize::MAX,
        in_degree(adjacency, placed, v, adjacency.len()) == 0,
        edge(listed(adjacency), x, v),
    ensures
        x < adjacency.len(),
        placed.contains(x),
{
    lemma_occurrences(adjacency[x as int]@, v);
    if !placed.contains(x) {
        lemma_in_degree_at_least(adjacency, placed, v, adjacency.len(), x);
    }
}

/// Returns the nodes in an order in which every edge leads forward, or `None` if
/// there is a cycle.
///
/// `incoming` has, for each node, as many entries as there are edges to it.
pub fn topological_order(adjacency: &Vec<Vec<usize>>, incoming: &Vec<Vec<usize>>) -> (res: Option<
    Vec<usize>,
>)
    requires
        well_listed(adjacency@),
        incoming.len() == adjacency.len(),
        forall|v: usize|
            v < adjacency.len() ==> #[trigger] incoming@[v as int]@.len() == in_degree(
                adjacency@,
                Set::empty(),
                v,
                adjacency.len() as nat,
            ),
    ensures
        match res {
            Some(order) => exists|s: Schedule<usize>|
                s.order == order@ && #[trigger] s.valid(
                    listed(adjacency@),
                    below(adjacency.len() as nat),
                ),
            None => cyclic(listed(adjacency@)),
        },
{
    let n: usize = adjacency.len();
    let ghost g = listed(adjacency@);
    let mut degree: Vec<usize> = Vec::new();
    let mut order: Vec<usize> = Vec::new();
    let mut v: usize = 0;
    while v < n
        invariant
            v <= n,
            n == adjacency.len(),
            n == incoming.len(),
            g == listed(adjacency@),
            degree.len() == v,
            forall|u: usize| u < v ==> #[trigger] degree@[u as int] == incoming@[u as int]@.len(),
            order@.no_duplicates(),
            forall|i: int| 0 <= i < order.len() ==> #[trigger] order@[i] < v,
            forall|u: usize| u < v ==> (#[trigger] order@.contains(u) <==> degree@[u as int] == 0),
        decreases n - v,
    {
        let d: usize = incoming[v].len();
        degree.push(d);
        let ghost former = order@;
        if d == 0 {
            order.push(v);
        }
        proof {
            assert forall|u: usize| u < v + 1 implies (#[trigger] order@.contains(u)
                <==> degree@[u as int] == 0) by {
                if d == 0 && u == v {
                    assert(order@[former.len() as int] == v);
                }
                if former.contains(u) {
                    let i = choose|i: int| 0 <= i < former.len() && former[i] == u;
                    assert(order@[i] == u);
                }
            }
        }
        v = v + 1;
    }
    let ghost mut schedule = Schedule {
        order: order@,
        sources: order@.len() as int,
        parent: Seq::new(order@.len(), |i: int| 0int),
        slot: Seq::new(order@.len(), |i: int| 0int),
    };
    let ghost mut placed: Set<usize> = Set::empty();
    proof {
        assert forall|i: int, x: usize| 0 <= i < schedule.sources implies !#[trigger] edge(
            g,
            x,
            order@[i],
        ) by {
            if edge(g, x, order@[i]) {
                assert(order@.contains(order@[i]));
                assert(degree@[order@[i] as int] == 0);
                lemma_all_placed(adjacency@, placed, order@[i], x);
            }
        }
    }
    let mut head: usize = 0;
    while head < order.len()
        invariant
            n == adjacency.len(),
            n == degree.len(),
            g == listed(adjacency@),
            well_listed(adjacency@),
            head <= order.len(),
            forall|i: int| 0 <= i < order.len() ==> #[trigger] order@[i] < n,
            schedule.order == order@,
            schedule.sound(g),
            placed == order@.take(head as int).to_set(),
            forall|u: usize|
                u < n ==> #[trigger] degree@[u as int] == in_degree(adjacency@, placed, u, n as nat),
            forall|u: usize| u < n ==> (#[trigger] order@.contains(u) <==> degree@[u as int] == 0),
            forall|j: int|
                schedule.sources <= j < order.len() ==> #[trigger] schedule.parent[j] < head,
        decreases n - head,
    {
        let u: usize = order[head];
        let ghost after_u = adjacency@[u as int]@;
        proof {
            if placed.contains(u) {
                let taken = order@.take(head as int);
                let i = choose|i: int| 0 <= i < taken.len() && taken[i] == u;
                assert(order@[i] == order@[head as int]);
            }
            lemma_distinct_below(order@, n as nat);
            assert(after_u.take(0) =~= Seq::empty());
        }
        let mut k: usize = 0;
        while k < adjacency[u].len()
            invariant
                n == adjacency.len(),
                n == degree.len(),
                g == listed(adjacency@),
                well_listed(adjacency@),
                head < order.len(),
                u == order@[head as int],
                u < n,
                after_u == adjacency@[u as int]@,
                k <= after_u.len(),
                forall|i: int| 0 <= i < order.len() ==> #[trigger] order@[i] < n,
                schedule.order == order@,
                schedule.sound(g),
                placed == order@.take(head as int).to_set(),
                !placed.contains(u),
                forall|w: usize|
                    w < n ==> #[trigger] degree@[w as int] + occurrences(after_u.take(k as int), w)
                        == in_degree(adjacency@, placed, w, n as nat),
                forall|w: usize| w < n ==> (#[trigger] order@.contains(w) <==> degree@[w as int] == 0),
                forall|j: int|
                    schedule.sources <= j < order.len() ==> #[trigger] schedule.parent[j] <= head,
                forall|j: int|
                    schedule.sources <= j < order.len() && schedule.parent[j] == head
                        ==> #[trigger] schedule.slot[j] < k,
            decreases after_u.len() - k,
        {
            let w: usize = adjacency[u][k];
            proof {
                assert(adjacency@[u as int]@[k as int] < n);
                assert(after_u.take(k as int + 1).drop_last() =~= after_u.take(k as int));
                lemma_in_degree_at_least(adjacency@, placed, w, n as nat, u);
                lemma_occurrences_split(after_u, w, k as int + 1);
                assert(occurrences(after_u.take(k as int + 1), w) == occurrences(
                    after_u.take(k as int),
                    w,
                ) + 1);
                assert(degree@[w as int] > 0);
                assert(!order@.contains(w));
            }
            let d: usize = degree[w] - 1;
            degree.set(w, d);
            let ghost former = order@;
            if d == 0 {
                order.push(w);
            }
            proof {
                let all = placed.insert(u);
                lemma_in_degree_placed(adjacency@, placed, w, n as nat, u);
                assert(order@.take(head as int) =~= former.take(head as int));
                assert forall|x: usize| x < n implies #[trigger] degree@[x as int] + occurrences(
                    after_u.take(k as int + 1),
                    x,
                ) == in_degree(adjacency@, placed, x, n as nat) by {}
                assert forall|x: usize| x < n implies (#[trigger] order@.contains(x)
                    <==> degree@[x as int] == 0) by {
                    if d == 0 && x == w {
                        assert(order@[former.len() as int] == w);
                    }
                    if former.contains(x) {
                        let i = choose|i: int| 0 <= i < former.len() && former[i] == x;
                        assert(order@[i] == x);
                    }
                    if order@.contains(x) && x != w {
                        let i = choose|i: int| 0 <= i < order@.len() && order@[i] == x;
                        assert(former[i] == x);
                    }
                }
                if d == 0 {
                    let next = Schedule {
                        order: order@,
                        sources: schedule.sources,
                        parent: schedule.parent.push(head as int),
                        slot: schedule.slot.push(k as int),
                    };
                    let last = former.len() as int;
                    assert(next.released(g, last)) by {
                        assert(g(u)[k as int] == w);
                        assert forall|x: usize| #[trigger] edge(g, x, order@[last]) implies order@.take(
                            head as int + 1,
                        ).contains(x) by {
                            lemma_all_placed(adjacency@, all, w, x);
                            if x == u {
                                assert(order@.take(head as int + 1)[head as int] == u);
                            } else {
                                let taken = order@.take(head as int);
                                let i = choose|i: int| 0 <= i < taken.len() && taken[i] == x;
                                assert(order@.take(head as int + 1)[i] == x);
                            }
                        }
                        assert forall|m: int| k < m < after_u.len() implies #[trigger] g(u)[m] != w by {
                            lemma_occurrences(after_u.skip(k as int + 1), w);
                            if after_u[m] == w {
                                assert(after_u.skip(k as int + 1)[m - k - 1] == w);
                            }
                        }
                    }
                    assert forall|j: int| next.sources <= j < order@.len() implies #[trigger] next.released(
                        g,
                        j,
                    ) by {
                        if j < last {
                            assert(schedule.released(g, j));
                            let p = schedule.parent[j];
                            assert(order@.take(p + 1) =~= former.take(p + 1));
                        }
                    }
                    assert forall|i: int, j: int|
                        next.sources <= i < j < order@.len() implies #[trigger] next.released_before(
                        i,
                        j,
                    ) by {
                        if j < last {
                            assert(schedule.released_before(i, j));
                        } else {
                            assert(schedule.parent[i] <= head);
                            assert(schedule.parent[i] == head ==> schedule.slot[i] < k);
                        }
                    }
                    assert forall|i: int, x: usize| 0 <= i < next.sources implies !#[trigger] edge(
                        g,
                        x,
                        next.order[i],
                    ) by {
                        assert(!edge(g, x, schedule.order[i]));
                    }
                    schedule = next;
                }
            }
            k = k + 1;
        }
        proof {
            let all = placed.insert(u);
            assert(after_u.take(k as int) =~= after_u);
            assert(order@.take(head as int + 1).to_set() =~= all) by {
                let taken = order@.take(head as int);
                let more = order@.take(head as int + 1);
                assert(more =~= taken.push(u));
                assert forall|x: usize| more.contains(x) <==> taken.contains(x) || x == u by {
                    if taken.contains(x) {
                        let i = choose|i: int| 0 <= i < taken.len() && taken[i] == x;
                        assert(more[i] == x);
                    }
                    assert(more[head as int] == u);
                }
            }
            assert forall|w: usize| w < n implies #[trigger] degree@[w as int] == in_degree(
                adjacency@,
                all,
                w,
                n as nat,
            ) by {
                lemma_in_degree_placed(adjacency@, placed, w, n as nat, u);
            }
            placed = all;
        }
        head = head + 1;
    }
    proof {
        assert(order@.take(head as int) =~= order@);
    }
    if order.len() == n {
        proof {
            assert forall|x: usize| #[trigger] order@.contains(x) <==> below(n as nat).contains(x) by {
                if x < n && !order@.contains(x) {
                    lemma_distinct_below(order@.push(x), n as nat);
                }
            }
            assert(schedule.valid(g, below(n as nat)));
        }
        Some(order)
    } else {
        proof {
            let members = Set::new(|x: usize| x < n && !order@.contains(x));
            assert(exists|x: usize| members.contains(x)) by {
                if forall|x: usize| !members.contains(x) {
                    let everything = Seq::new(n as nat, |i: int| i as usize);
                    assert(everything.to_set().subset_of(order@.to_set())) by {
                        assert forall|x: usize| everything.contains(x) implies order@.contains(x) by {
                            assert(!members.contains(x));
                        }
                    }
                    everything.unique_seq_to_set();
                    order@.unique_seq_to_set();
                    vstd::set_lib::lemma_len_subset(everything.to_set(), order@.to_set());
                    lemma_distinct_below(order@, n as nat);
                }
            }
            let v = choose|x: usize| members.contains(x);
            assert forall|x: usize| #[trigger] members.contains(x) implies exists|y: usize|
                members.contains(y) && #[trigger] edge(g, y, x) by {
                let y = lemma_in_degree_source(adjacency@, placed, x, n as nat);
                assert(members.contains(y));
            }
            lemma_all_preceded_is_cyclic(g, members, n as nat, v);
        }
        None
    }
}

} // verus!
