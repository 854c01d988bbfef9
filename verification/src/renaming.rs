//! Carrying what holds of a graph over numbers to the same graph over other names.
use vstd::prelude::*;
use crate::components::below;
use crate::digraph::{connects, cyclic, decomposes, edge, follows, reaches, step, walk, Discovery,
    Schedule};

verus! {

/// `names` is the graph over the numbers below `n` in `numbers`, with `f` for the
/// names of the nodes.
pub open spec fn mirrors<N>(
    numbers: spec_fn(usize) -> Seq<usize>,
    n: nat,
    names: spec_fn(N) -> Seq<N>,
    f: spec_fn(usize) -> N,
) -> bool {
    &&& forall|i: usize| i < n ==> #[trigger] names(f(i)) == numbers(i).map_values(f)
    &&& forall|i: usize, j: usize| i < n && j < n && #[trigger] f(i) == #[trigger] f(j) ==> i == j
    &&& forall|i: usize, j: usize| i < n && #[trigger] edge(numbers, i, j) ==> j < n
    &&& forall|a: N| #[trigger] names(a).len() > 0 ==> exists|i: usize| i < n && a == #[trigger] f(i)
}

/// The members of `s` are numbers of nodes.
pub open spec fn numbered(s: Seq<usize>, n: nat) -> bool {
    forall|i: int| 0 <= i < s.len() ==> #[trigger] s[i] < n
}

pub proof fn lemma_edge<N>(
    numbers: spec_fn(usize) -> Seq<usize>,
    n: nat,
    names: spec_fn(N) -> Seq<N>,
    f: spec_fn(usize) -> N,
    i: usize,
    j: usize,
)
    requires
        mirrors(numbers, n, names, f),
        i < n,
        j < n,
    ensures
        edge(numbers, i, j) <==> edge(names, f(i), f(j)),
{
    let s = numbers(i);
    let t = names(f(i));
    assert(t == s.map_values(f));
    if s.contains(j) {
        let k = choose|k: int| 0 <= k < s.len() && s[k] == j;
        assert(t[k] == f(j));
    }
    if t.contains(f(j)) {
        let k = choose|k: int| 0 <= k < t.len() && t[k] == f(j);
        assert(s.contains(s[k]));
        assert(edge(numbers, i, s[k]));
        assert(f(s[k]) == f(j));
    }
}

/// What a name leads to is the name of a number that its number leads to.
pub proof fn lemma_edge_target<N>(
    numbers: spec_fn(usize) -> Seq<usize>,
    n: nat,
    names: spec_fn(N) -> Seq<N>,
    f: spec_fn(usize) -> N,
    i: usize,
    b: N,
) -> (j: usize)
    requires
        mirrors(numbers, n, names, f),
        i < n,
        edge(names, f(i), b),
    ensures
        j < n,
        f(j) == b,
        edge(numbers, i, j),
{
    let s = numbers(i);
    let t = names(f(i));
    assert(t == s.map_values(f));
    let k = choose|k: int| 0 <= k < t.len() && t[k] == b;
    assert(s.contains(s[k]));
    assert(edge(numbers, i, s[k]));
    s[k]
}

/// A walk over numbers is one over their names.
pub proof fn lemma_walk_named<N>(
    numbers: spec_fn(usize) -> Seq<usize>,
    n: nat,
    names: spec_fn(N) -> Seq<N>,
    f: spec_fn(usize) -> N,
    p: Seq<usize>,
)
    requires
        mirrors(numbers, n, names, f),
        walk(numbers, p),
        p[0] < n,
    ensures
        numbered(p, n),
        walk(names, p.map_values(f)),
    decreases p.len(),
{
    if p.len() > 1 {
        let q = p.drop_last();
        crate::digraph::lemma_walk_drop_last(numbers, p);
        lemma_walk_named(numbers, n, names, f, q);
        let m = p.len() - 1;
        assert(step(numbers, p, m));
        assert(p[m - 1] == q[m - 1]);
        lemma_edge(numbers, n, names, f, p[m - 1], p[m]);
        crate::digraph::lemma_walk_push(names, q.map_values(f), f(p[m]));
        assert(p.map_values(f) =~= q.map_values(f).push(f(p[m])));
        assert forall|i: int| 0 <= i < p.len() implies #[trigger] p[i] < n by {
            if i < m {
                assert(q[i] < n);
            }
        }
    }
}

/// A walk over names is one over their numbers.
pub proof fn lemma_walk_numbered<N>(
    numbers: spec_fn(usize) -> Seq<usize>,
    n: nat,
    names: spec_fn(N) -> Seq<N>,
    f: spec_fn(usize) -> N,
    q: Seq<N>,
    i: usize,
) -> (p: Seq<usize>)
    requires
        mirrors(numbers, n, names, f),
        walk(names, q),
        i < n,
        q[0] == f(i),
    ensures
        walk(numbers, p),
        p[0] == i,
        numbered(p, n),
        p.map_values(f) =~= q,
    decreases q.len(),
{
    if q.len() == 1 {
        seq![i]
    } else {
        let m = q.len() - 1;
        crate::digraph::lemma_walk_drop_last(names, q);
        let p = lemma_walk_numbered(numbers, n, names, f, q.drop_last(), i);
        assert(step(names, q, m));
        assert(p.map_values(f)[m - 1] == q.drop_last()[m - 1]);
        assert(f(p.last()) == q[m - 1]);
        assert(p.last() < n);
        let j = lemma_edge_target(numbers, n, names, f, p.last(), q[m]);
        crate::digraph::lemma_walk_push(numbers, p, j);
        let r = p.push(j).map_values(f);
        assert forall|k: int| 0 <= k < r.len() implies r[k] == q[k] by {
            if k < m {
                assert(p.map_values(f)[k] == q.drop_last()[k]);
            }
        }
        p.push(j)
    }
}

pub proof fn lemma_reaches<N>(
    numbers: spec_fn(usize) -> Seq<usize>,
    n: nat,
    names: spec_fn(N) -> Seq<N>,
    f: spec_fn(usize) -> N,
    i: usize,
    j: usize,
)
    requires
        mirrors(numbers, n, names, f),
        i < n,
        j < n,
    ensures
        reaches(numbers, i, j) <==> reaches(names, f(i), f(j)),
        follows(numbers, i, j) <==> follows(names, f(i), f(j)),
{
    assert forall|p: Seq<usize>| #[trigger] connects(numbers, p, i, j) implies connects(
        names,
        p.map_values(f),
        f(i),
        f(j),
    ) by {
        lemma_walk_named(numbers, n, names, f, p);
    }
    assert forall|q: Seq<N>| #[trigger] connects(names, q, f(i), f(j)) implies exists|p: Seq<usize>|
        p.len() == q.len() && #[trigger] connects(numbers, p, i, j) by {
        let p = lemma_walk_numbered(numbers, n, names, f, q, i);
        assert(p.map_values(f).last() == q.last());
        assert(f(p.last()) == f(j));
        assert(connects(numbers, p, i, j));
    }
    if reaches(numbers, i, j) {
        let p = choose|p: Seq<usize>| #[trigger] connects(numbers, p, i, j);
        assert(connects(names, p.map_values(f), f(i), f(j)));
    }
    if follows(numbers, i, j) {
        let p = choose|p: Seq<usize>| #[trigger] connects(numbers, p, i, j) && p.len() >= 2;
        assert(connects(names, p.map_values(f), f(i), f(j)));
    }
}

pub proof fn lemma_cyclic<N>(
    numbers: spec_fn(usize) -> Seq<usize>,
    n: nat,
    names: spec_fn(N) -> Seq<N>,
    f: spec_fn(usize) -> N,
)
    requires
        mirrors(numbers, n, names, f),
        forall|i: usize| #[trigger] numbers(i).len() > 0 ==> i < n,
    ensures
        cyclic(numbers) <==> cyclic(names),
{
    if cyclic(numbers) {
        let i = choose|i: usize| #[trigger] follows(numbers, i, i);
        let p = choose|p: Seq<usize>| #[trigger] connects(numbers, p, i, i) && p.len() >= 2;
        assert(step(numbers, p, 1));
        assert(numbers(i).len() > 0);
        lemma_reaches(numbers, n, names, f, i, i);
    }
    if cyclic(names) {
        let a = choose|a: N| #[trigger] follows(names, a, a);
        let q = choose|q: Seq<N>| #[trigger] connects(names, q, a, a) && q.len() >= 2;
        assert(step(names, q, 1));
        assert(names(a).len() > 0);
        let i = choose|i: usize| i < n && a == #[trigger] f(i);
        lemma_reaches(numbers, n, names, f, i, i);
    }
}

/// A search over numbers, by name.
pub open spec fn named<N>(d: Discovery<usize>, f: spec_fn(usize) -> N) -> Discovery<N> {
    Discovery {
        order: d.order.map_values(f),
        parent: d.parent,
        slot: d.slot,
        depth: d.depth,
        expanded: d.expanded,
    }
}

proof fn lemma_names_distinct<N>(s: Seq<usize>, n: nat, f: spec_fn(usize) -> N)
    requires
        s.no_duplicates(),
        numbered(s, n),
        forall|i: usize, j: usize| i < n && j < n && #[trigger] f(i) == #[trigger] f(j) ==> i == j,
    ensures
        s.map_values(f).no_duplicates(),
{
    let t = s.map_values(f);
    assert forall|i: int, j: int| 0 <= i < j < t.len() implies t[i] != t[j] by {
        assert(s[i] != s[j]);
        assert(f(s[i]) != f(s[j]));
    }
}

pub proof fn lemma_discovery_named<N>(
    numbers: spec_fn(usize) -> Seq<usize>,
    n: nat,
    names: spec_fn(N) -> Seq<N>,
    f: spec_fn(usize) -> N,
    d: Discovery<usize>,
    root: usize,
)
    requires
        mirrors(numbers, n, names, f),
        d.valid(numbers, root),
        numbered(d.order, n),
    ensures
        named(d, f).valid(names, f(root)),
{
    let e = named(d, f);
    lemma_names_distinct(d.order, n, f);
    assert forall|j: int| 0 < j < e.order.len() implies #[trigger] e.found(names, j) by {
        assert(d.found(numbers, j));
        let p = d.parent[j];
        assert(d.order[p] < n && d.order[j] < n);
        let s = numbers(d.order[p]);
        assert(names(f(d.order[p])) == s.map_values(f));
        assert forall|q: int| 0 <= q < p implies !#[trigger] edge(names, e.order[q], e.order[j]) by {
            assert(d.order[q] < n);
            assert(!edge(numbers, d.order[q], d.order[j]));
            lemma_edge(numbers, n, names, f, d.order[q], d.order[j]);
        }
        assert forall|m: int| 0 <= m < e.slot[j] implies #[trigger] names(e.order[p])[m]
            != e.order[j] by {
            assert(numbers(d.order[p])[m] != d.order[j]);
            assert(s.contains(s[m]));
            assert(edge(numbers, d.order[p], s[m]));
            assert(names(e.order[p])[m] == f(s[m]));
        }
    }
    assert forall|i: int, j: int| 0 < i < j < e.order.len() implies #[trigger] e.met_before(i, j) by {
        assert(d.met_before(i, j));
    }
    assert forall|q: int, x: N|
        0 <= q < e.expanded && #[trigger] edge(names, e.order[q], x) implies e.order.contains(x) by {
        assert(d.order[q] < n);
        let y = lemma_edge_target(numbers, n, names, f, d.order[q], x);
        assert(d.order.contains(y));
        let k = choose|k: int| 0 <= k < d.order.len() && d.order[k] == y;
        assert(e.order[k] == x);
    }
}

/// Components over numbers, by name.
pub open spec fn named_groups<N>(groups: Seq<Seq<usize>>, f: spec_fn(usize) -> N) -> Seq<Seq<N>> {
    groups.map_values(|s: Seq<usize>| s.map_values(f))
}

/// The names of the numbers below `n`.
pub open spec fn named_below<N>(n: nat, f: spec_fn(usize) -> N) -> Set<N> {
    Set::new(|a: N| exists|i: usize| i < n && a == #[trigger] f(i))
}

pub proof fn lemma_decomposes_named<N>(
    numbers: spec_fn(usize) -> Seq<usize>,
    n: nat,
    names: spec_fn(N) -> Seq<N>,
    f: spec_fn(usize) -> N,
    groups: Seq<Seq<usize>>,
)
    requires
        mirrors(numbers, n, names, f),
        decomposes(numbers, below(n), groups),
    ensures
        decomposes(names, named_below(n, f), named_groups(groups, f)),
{
    let named_gs = named_groups(groups, f);
    let nodes = named_below(n, f);
    assert forall|i: int, x: usize| 0 <= i < groups.len() && #[trigger] groups[i].contains(x) implies x
        < n by {
        assert(below(n).contains(x));
    }
    assert forall|i: int, a: N| 0 <= i < groups.len() && #[trigger] named_gs[i].contains(a) implies (
    exists|x: usize| x < n && a == #[trigger] f(x) && groups[i].contains(x)) by {
        let k = choose|k: int| 0 <= k < named_gs[i].len() && named_gs[i][k] == a;
        assert(groups[i].contains(groups[i][k]));
        assert(f(groups[i][k]) == a);
    }
    assert forall|i: int, x: usize| 0 <= i < groups.len() && #[trigger] groups[i].contains(
        x,
    ) implies named_gs[i].contains(f(x)) by {
        let k = choose|k: int| 0 <= k < groups[i].len() && groups[i][k] == x;
        assert(named_gs[i][k] == f(x));
    }
    assert forall|i: int| 0 <= i < named_gs.len() implies #[trigger] named_gs[i].len() > 0
        && named_gs[i].no_duplicates() by {
        assert(groups[i].len() > 0);
        assert forall|k: int| 0 <= k < groups[i].len() implies #[trigger] groups[i][k] < n by {
            assert(groups[i].contains(groups[i][k]));
        }
        lemma_names_distinct(groups[i], n, f);
    }
    assert forall|a: N| #[trigger] nodes.contains(a) <==> exists|i: int|
        0 <= i < named_gs.len() && #[trigger] named_gs[i].contains(a) by {
        if nodes.contains(a) {
            let x = choose|x: usize| x < n && a == #[trigger] f(x);
            assert(below(n).contains(x));
            let i = choose|i: int| 0 <= i < groups.len() && #[trigger] groups[i].contains(x);
            assert(named_gs[i].contains(a));
        }
    }
    assert forall|i: int, j: int, a: N|
        0 <= i < named_gs.len() && 0 <= j < named_gs.len() && #[trigger] named_gs[i].contains(a)
            && #[trigger] named_gs[j].contains(a) implies i == j by {
        let x = choose|x: usize| x < n && a == #[trigger] f(x) && groups[i].contains(x);
        let y = choose|y: usize| y < n && a == #[trigger] f(y) && groups[j].contains(y);
        assert(x == y);
    }
    assert forall|i: int, a: N, b: N|
        0 <= i < named_gs.len() && #[trigger] named_gs[i].contains(a)
            && #[trigger] named_gs[i].contains(b) implies reaches(names, a, b) by {
        let x = choose|x: usize| x < n && a == #[trigger] f(x) && groups[i].contains(x);
        let y = choose|y: usize| y < n && b == #[trigger] f(y) && groups[i].contains(y);
        lemma_reaches(numbers, n, names, f, x, y);
    }
    assert forall|i: int, j: int, a: N, b: N|
        #![trigger named_gs[i].contains(a), named_gs[j].contains(b), edge(names, a, b)]
        0 <= i < named_gs.len() && 0 <= j < named_gs.len() && named_gs[i].contains(a)
            && named_gs[j].contains(b) && edge(names, a, b) implies j <= i by {
        let x = choose|x: usize| x < n && a == #[trigger] f(x) && groups[i].contains(x);
        let y = choose|y: usize| y < n && b == #[trigger] f(y) && groups[j].contains(y);
        lemma_edge(numbers, n, names, f, x, y);
    }
}

/// A schedule over numbers, by name.
pub open spec fn named_schedule<N>(s: Schedule<usize>, f: spec_fn(usize) -> N) -> Schedule<N> {
    Schedule {
        order: s.order.map_values(f),
        sources: s.sources,
        parent: s.parent,
        slot: s.slot,
    }
}

pub proof fn lemma_schedule_named<N>(
    numbers: spec_fn(usize) -> Seq<usize>,
    n: nat,
    names: spec_fn(N) -> Seq<N>,
    f: spec_fn(usize) -> N,
    s: Schedule<usize>,
)
    requires
        mirrors(numbers, n, names, f),
        s.valid(numbers, below(n)),
    ensures
        named_schedule(s, f).valid(names, named_below(n, f)),
{
    let t = named_schedule(s, f);
    let nodes = named_below(n, f);
    assert forall|i: int| 0 <= i < s.order.len() implies #[trigger] s.order[i] < n by {
        assert(s.order.contains(s.order[i]));
    }
    lemma_names_distinct(s.order, n, f);
    assert forall|x: N, j: int| 0 <= j < t.order.len() && #[trigger] edge(names, x, t.order[j]) implies (
    exists|y: usize| y < n && x == #[trigger] f(y) && edge(numbers, y, s.order[j])) by {
        assert(names(x).len() > 0);
        let y = choose|y: usize| y < n && x == #[trigger] f(y);
        lemma_edge(numbers, n, names, f, y, s.order[j]);
    }
    assert forall|i: int, x: N| 0 <= i < t.sources implies !#[trigger] edge(names, x, t.order[i]) by {
        if edge(names, x, t.order[i]) {
            let y = choose|y: usize| y < n && x == #[trigger] f(y) && edge(numbers, y, s.order[i]);
            assert(!edge(numbers, y, s.order[i]));
        }
    }
    assert forall|j: int| t.sources <= j < t.order.len() implies #[trigger] t.released(names, j) by {
        assert(s.released(numbers, j));
        let p = s.parent[j];
        let after = numbers(s.order[p]);
        assert(names(f(s.order[p])) == after.map_values(f));
        assert forall|x: N| #[trigger] edge(names, x, t.order[j]) implies t.order.take(p + 1).contains(
            x,
        ) by {
            let y = choose|y: usize| y < n && x == #[trigger] f(y) && edge(numbers, y, s.order[j]);
            let taken = s.order.take(p + 1);
            assert(taken.contains(y));
            let k = choose|k: int| 0 <= k < taken.len() && taken[k] == y;
            assert(t.order.take(p + 1)[k] == x);
        }
        assert forall|m: int| t.slot[j] < m < names(t.order[p]).len() implies #[trigger] names(
            t.order[p],
        )[m] != t.order[j] by {
            assert(numbers(s.order[p])[m] != s.order[j]);
            assert(after.contains(after[m]));
            assert(edge(numbers, s.order[p], after[m]));
            assert(names(t.order[p])[m] == f(after[m]));
        }
    }
    assert forall|i: int, j: int| t.sources <= i < j < t.order.len() implies #[trigger] t.released_before(
        i,
        j,
    ) by {
        assert(s.released_before(i, j));
    }
    assert forall|a: N| #[trigger] t.order.contains(a) <==> nodes.contains(a) by {
        if t.order.contains(a) {
            let k = choose|k: int| 0 <= k < t.order.len() && t.order[k] == a;
            assert(f(s.order[k]) == a);
        }
        if nodes.contains(a) {
            let x = choose|x: usize| x < n && a == #[trigger] f(x);
            assert(s.order.contains(x));
            let k = choose|k: int| 0 <= k < s.order.len() && s.order[k] == x;
            assert(t.order[k] == a);
        }
    }
}

} // verus!
