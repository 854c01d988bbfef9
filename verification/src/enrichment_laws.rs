//! What holds of context enrichment as a whole.
use vstd::prelude::*;
use crate::context_enrichment::{boundary, breadcrumb, crowded, leaders, leads,
    lemma_container_leader, lemma_gathered_container, lemma_leaders, lemma_merged_absorb,
    lemma_merged_push, lemma_one_leader, lemma_siblings, merged, merged_until, module_scope,
    parent_scope, siblings, symbol_scope, threshold, united, EnrichedView};
use crate::text::{after_first, ends_in, joined, occurs_at, occurs_in, replaced, starts_in,
    trimmed_end};
use crate::types::ResultView;

verus! {

/// A sequence in which `container` occurs once has one sibling of it.
proof fn lemma_single_sibling(
    items: Seq<EnrichedView>,
    container: Option<(Seq<char>, Seq<char>)>,
)
    requires
        forall|j: int, k: int|
            0 <= j < items.len() && 0 <= k < items.len() && (#[trigger] items[j]).container()
                == container && (#[trigger] items[k]).container() == container ==> j == k,
    ensures
        siblings(items, container).len() <= 1,
    decreases items.len(),
{
    if items.len() > 0 {
        let rest = items.drop_last();
        assert forall|j: int, k: int|
            0 <= j < rest.len() && 0 <= k < rest.len() && (#[trigger] rest[j]).container()
                == container && (#[trigger] rest[k]).container() == container implies j == k by {
            assert(items[j] == rest[j]);
            assert(items[k] == rest[k]);
        }
        lemma_single_sibling(rest, container);
        if items.last().container() == container {
            lemma_siblings(rest, container);
            if siblings(rest, container).len() > 0 {
                let k = choose|k: int|
                    0 <= k < rest.len() && (#[trigger] rest[k]).container() == container;
                assert(items[k].container() == container);
                assert(items[items.len() - 1].container() == container);
            }
        }
    }
}

/// How many siblings there are rests on the containers alone.
proof fn lemma_siblings_by_container(
    a: Seq<EnrichedView>,
    b: Seq<EnrichedView>,
    container: Option<(Seq<char>, Seq<char>)>,
)
    requires
        a.len() == b.len(),
        forall|k: int|
            0 <= k < a.len() ==> (#[trigger] a[k]).container() == (#[trigger] b[k]).container(),
    ensures
        siblings(a, container).len() == siblings(b, container).len(),
    decreases a.len(),
{
    if a.len() > 0 {
        assert forall|k: int| 0 <= k < a.len() - 1 implies (#[trigger] a.drop_last()[k]).container()
            == (#[trigger] b.drop_last()[k]).container() by {
            assert(a[k].container() == b[k].container());
        }
        lemma_siblings_by_container(a.drop_last(), b.drop_last(), container);
        assert(a[a.len() - 1].container() == b[b.len() - 1].container());
    }
}

/// Every leader keeps its place and its container in the outcome.
proof fn lemma_outcome_containers(items: Seq<EnrichedView>, min: nat, n: nat)
    requires
        n <= items.len(),
    ensures
        merged_until(items, min, n).len() == leaders(items, min, n).len(),
        forall|j: int|
            0 <= j < leaders(items, min, n).len() ==> (#[trigger] merged_until(
                items,
                min,
                n,
            )[j]).container() == items[leaders(items, min, n)[j]].container(),
{
    lemma_leaders(items, min, n);
    assert forall|j: int| 0 <= j < leaders(items, min, n).len() implies (#[trigger] merged_until(
        items,
        min,
        n,
    )[j]).container() == items[leaders(items, min, n)[j]].container() by {
        lemma_gathered_container(items, min, n, leaders(items, min, n)[j]);
    }
}

/// Merging gives a container no more results than it had.
proof fn lemma_fewer_siblings(
    items: Seq<EnrichedView>,
    min: nat,
    n: nat,
    container: Option<(Seq<char>, Seq<char>)>,
)
    requires
        n <= items.len(),
    ensures
        siblings(merged_until(items, min, n), container).len() <= siblings(
            items.take(n as int),
            container,
        ).len(),
    decreases n,
{
    if n == 0 {
        assert(merged_until(items, min, n) =~= Seq::empty());
    } else {
        let m = (n - 1) as nat;
        lemma_fewer_siblings(items, min, m, container);
        assert(items.take(n as int).drop_last() =~= items.take(m as int));
        assert(items.take(n as int).last() == items[m as int]);
        let was = merged_until(items, min, m);
        if leads(items, min, m as int) {
            lemma_merged_push(items, min, m);
            assert(was.push(items[m as int]).drop_last() =~= was);
        } else {
            lemma_outcome_containers(items, min, m);
            lemma_leaders(items, min, m);
            let l = lemma_container_leader(items, min, n, m as int);
            assert(leaders(items, min, m).contains(l));
            let j = choose|j: int|
                0 <= j < leaders(items, min, m).len() && leaders(items, min, m)[j] == l;
            assert(was[j].container() == items[m as int].container());
            lemma_merged_absorb(items, min, m, j);
            lemma_siblings_by_container(was, merged_until(items, min, n), container);
        }
    }
}

/// Where no container is crowded, nothing is merged.
pub proof fn uncrowded_results_stay(items: Seq<EnrichedView>, min: nat)
    requires
        forall|i: int|
            0 <= i < items.len() ==> !crowded(
                items,
                threshold(min),
                (#[trigger] items[i]).container(),
            ),
    ensures
        merged(items, min) == items,
{
    lemma_uncrowded_until(items, threshold(min), items.len());
    assert(items.take(items.len() as int) =~= items);
}

proof fn lemma_uncrowded_until(items: Seq<EnrichedView>, min: nat, n: nat)
    requires
        n <= items.len(),
        forall|i: int|
            0 <= i < items.len() ==> !crowded(items, min, (#[trigger] items[i]).container()),
    ensures
        merged_until(items, min, n) == items.take(n as int),
    decreases n,
{
    if n == 0 {
        assert(merged_until(items, min, n) =~= items.take(0));
    } else {
        let m = (n - 1) as nat;
        lemma_uncrowded_until(items, min, m);
        assert(!crowded(items, min, items[m as int].container()));
        lemma_merged_push(items, min, m);
        assert(items.take(n as int) =~= items.take(m as int).push(items[m as int]));
    }
}

/// A crowded container has one result in the outcome: wherever two results of the
/// outcome share a container that was crowded, they are the same result.
pub proof fn crowded_containers_are_merged_once(
    items: Seq<EnrichedView>,
    min: nat,
    j: int,
    k: int,
)
    requires
        0 <= j < merged(items, min).len(),
        0 <= k < merged(items, min).len(),
        merged(items, min)[j].container() == merged(items, min)[k].container(),
        crowded(items, threshold(min), merged(items, min)[j].container()),
    ensures
        j == k,
{
    let n = items.len();
    let least = threshold(min);
    let lead = leaders(items, least, n);
    lemma_outcome_containers(items, least, n);
    lemma_leaders(items, least, n);
    assert(merged(items, min)[j].container() == items[lead[j]].container());
    assert(merged(items, min)[k].container() == items[lead[k]].container());
    lemma_one_leader(items, least, lead[j], lead[k]);
    if j < k {
        assert(lead[j] < lead[k]);
    } else if k < j {
        assert(lead[k] < lead[j]);
    }
}

/// Merging a second time changes nothing.
pub proof fn merging_is_idempotent(items: Seq<EnrichedView>, min: nat)
    ensures
        merged(merged(items, min), min) == merged(items, min),
{
    let out = merged(items, min);
    let least = threshold(min);
    let n = items.len();
    assert(items.take(n as int) =~= items);
    assert forall|i: int| 0 <= i < out.len() implies !crowded(
        out,
        least,
        (#[trigger] out[i]).container(),
    ) by {
        let container = out[i].container();
        lemma_fewer_siblings(items, least, n, container);
        if crowded(items, least, container) {
            assert forall|j: int, k: int|
                0 <= j < out.len() && 0 <= k < out.len() && (#[trigger] out[j]).container()
                    == container && (#[trigger] out[k]).container() == container implies j
                == k by {
                crowded_containers_are_merged_once(items, min, j, k);
            }
            lemma_single_sibling(out, container);
        }
    }
    uncrowded_results_stay(out, min);
}

/// Merging adds no result, loses no container and makes up none.
pub proof fn merging_keeps_containers(items: Seq<EnrichedView>, min: nat)
    ensures
        merged(items, min).len() <= items.len(),
        forall|i: int|
            #![trigger items[i]]
            0 <= i < items.len() ==> exists|j: int|
                0 <= j < merged(items, min).len() && (#[trigger] merged(items, min)[j]).container()
                    == items[i].container(),
        forall|j: int|
            #![trigger merged(items, min)[j]]
            0 <= j < merged(items, min).len() ==> exists|i: int|
                0 <= i < items.len() && (#[trigger] items[i]).container() == merged(
                    items,
                    min,
                )[j].container(),
{
    let out = merged(items, min);
    let least = threshold(min);
    let n = items.len();
    let lead = leaders(items, least, n);
    lemma_outcome_containers(items, least, n);
    lemma_leaders(items, least, n);
    assert forall|i: int| #![trigger items[i]] 0 <= i < items.len() implies exists|j: int|
        0 <= j < out.len() && (#[trigger] out[j]).container() == items[i].container() by {
        let l = if crowded(items, least, items[i].container()) {
            lemma_container_leader(items, least, n, i)
        } else {
            i
        };
        assert(leads(items, least, l));
        assert(lead.contains(l));
        let j = choose|j: int| 0 <= j < lead.len() && lead[j] == l;
        assert(out[j].container() == items[i].container());
    }
    assert forall|j: int| #![trigger out[j]] 0 <= j < out.len() implies exists|i: int|
        0 <= i < items.len() && (#[trigger] items[i]).container() == out[j].container() by {
        assert(items[lead[j]].container() == out[j].container());
    }
}

/// The outcome in order: each of its results is one of the results as it was,
/// where its container is not crowded, and else all results of its container
/// united, in the place of the first of them.
pub proof fn outcome_is_made_of_results(items: Seq<EnrichedView>, min: nat, j: int)
    requires
        0 <= j < merged(items, min).len(),
    ensures
        ({
            let lead = leaders(items, threshold(min), items.len());
            let i = lead[j];
            &&& 0 <= i < items.len()
            &&& j > 0 ==> lead[j - 1] < i
            &&& merged(items, min)[j] == if crowded(items, threshold(min), items[i].container()) {
                united(siblings(items, items[i].container()))
            } else {
                items[i]
            }
        }),
{
    lemma_leaders(items, threshold(min), items.len());
    assert(items.take(items.len() as int) =~= items);
}

/// United siblings span exactly the lines of all: no sibling starts earlier or
/// ends later, and one starts and one ends there.
pub proof fn union_spans_siblings(group: Seq<EnrichedView>)
    requires
        group.len() > 0,
    ensures
        forall|k: int|
            0 <= k < group.len() ==> united(group).result.line_start <= (
            #[trigger] group[k]).result.line_start && group[k].result.line_end <= united(
                group,
            ).result.line_end,
        exists|k: int|
            0 <= k < group.len() && (#[trigger] group[k]).result.line_start == united(
                group,
            ).result.line_start,
        exists|k: int|
            0 <= k < group.len() && (#[trigger] group[k]).result.line_end == united(
                group,
            ).result.line_end,
    decreases group.len(),
{
    if group.len() == 1 {
        assert(group[0].result.line_start == united(group).result.line_start);
        assert(group[0].result.line_end == united(group).result.line_end);
    } else {
        let rest = group.drop_last();
        let last = group.len() - 1;
        union_spans_siblings(rest);
        let whole = united(group);
        assert forall|k: int| 0 <= k < group.len() implies whole.result.line_start <= (
        #[trigger] group[k]).result.line_start && group[k].result.line_end
            <= whole.result.line_end by {
            if k < last {
                assert(group[k] == rest[k]);
            }
        }
        let s = choose|k: int|
            0 <= k < rest.len() && (#[trigger] rest[k]).result.line_start == united(
                rest,
            ).result.line_start;
        let e = choose|k: int|
            0 <= k < rest.len() && (#[trigger] rest[k]).result.line_end == united(
                rest,
            ).result.line_end;
        assert(group[s] == rest[s]);
        assert(group[e] == rest[e]);
        assert(group[last].result.line_start == whole.result.line_start
            || group[s].result.line_start == whole.result.line_start);
        assert(group[last].result.line_end == whole.result.line_end || group[e].result.line_end
            == whole.result.line_end);
    }
}

/// United siblings have the score of one of them, and no sibling's score is above
/// it, wherever the first sibling's score is a number.
pub proof fn union_has_best_score(group: Seq<EnrichedView>)
    requires
        group.len() > 0,
        !group[0].result.score.not_a_number(),
    ensures
        !united(group).result.score.not_a_number(),
        forall|k: int|
            0 <= k < group.len() ==> !(#[trigger] group[k]).result.score.above(
                united(group).result.score,
            ),
        exists|k: int|
            0 <= k < group.len() && (#[trigger] group[k]).result.score == united(
                group,
            ).result.score,
    decreases group.len(),
{
    if group.len() == 1 {
        assert(group[0].result.score == united(group).result.score);
    } else {
        let rest = group.drop_last();
        let last = group.len() - 1;
        assert(rest[0] == group[0]);
        union_has_best_score(rest);
        let whole = united(group);
        assert forall|k: int| 0 <= k < group.len() implies !(
        #[trigger] group[k]).result.score.above(whole.result.score) by {
            if k < last {
                assert(group[k] == rest[k]);
            }
        }
        let b = choose|k: int|
            0 <= k < rest.len() && (#[trigger] rest[k]).result.score == united(rest).result.score;
        assert(group[b] == rest[b]);
        assert(group[last].result.score == whole.result.score || group[b].result.score
            == whole.result.score);
    }
}

/// The content of every sibling stands in the content of the union, and so does
/// the boundary where there is more than one.
pub proof fn union_holds_contents(group: Seq<EnrichedView>, k: int)
    requires
        0 <= k < group.len(),
    ensures
        occurs_in(united(group).result.content, group[k].result.content),
        group.len() > 1 ==> occurs_in(united(group).result.content, boundary()),
    decreases group.len(),
{
    let whole = united(group).result.content;
    let own = group[k].result.content;
    if group.len() == 1 {
        assert(whole.subrange(0, own.len() as int) =~= own);
        assert(occurs_at(whole, own, 0));
    } else {
        let rest = group.drop_last();
        let last = group.last().result.content;
        let first = united(rest).result.content;
        assert(whole == first + boundary() + last);
        let at = first.len() as int;
        assert(whole.subrange(at, at + boundary().len()) =~= boundary());
        assert(occurs_at(whole, boundary(), at));
        if k == group.len() - 1 {
            let end = at + boundary().len();
            assert(whole.subrange(end, end + last.len()) =~= own);
            assert(occurs_at(whole, own, end));
        } else {
            assert(rest[k] == group[k]);
            union_holds_contents(rest, k);
            let i = choose|i: int| #[trigger] occurs_at(first, own, i);
            assert(whole.subrange(i, i + own.len()) =~= first.subrange(i, i + own.len()));
            assert(occurs_at(whole, own, i));
        }
    }
}

/// The content of the union is the contents of the siblings in order, joined by the
/// boundary.
pub proof fn union_joins_contents(group: Seq<EnrichedView>)
    requires
        group.len() > 0,
    ensures
        united(group).result.content == joined(
            group.map_values(|e: EnrichedView| e.result.content),
            boundary(),
        ),
    decreases group.len(),
{
    let contents = group.map_values(|e: EnrichedView| e.result.content);
    if group.len() > 1 {
        let rest = group.drop_last();
        union_joins_contents(rest);
        assert(contents.drop_last() =~= rest.map_values(|e: EnrichedView| e.result.content));
    }
}

/// Two or more results that share a container, and as many as are asked for, come
/// out as one: their union.
pub proof fn siblings_are_coalesced(items: Seq<EnrichedView>, min: nat, i: int)
    requires
        0 <= i < items.len(),
        items[i].container() is Some,
        siblings(items, items[i].container()).len() >= 2,
        siblings(items, items[i].container()).len() >= min,
    ensures
        merged(items, min).contains(united(siblings(items, items[i].container()))),
        siblings(merged(items, min), items[i].container()).len() == 1,
{
    let container = items[i].container();
    let least = threshold(min);
    let out = merged(items, min);
    let lead = leaders(items, least, items.len());
    lemma_leaders(items, least, items.len());
    lemma_outcome_containers(items, least, items.len());
    let l = lemma_container_leader(items, least, items.len(), i);
    assert(lead.contains(l));
    let j = choose|j: int| 0 <= j < lead.len() && lead[j] == l;
    outcome_is_made_of_results(items, min, j);
    assert(out[j] == united(siblings(items, container)));
    assert(out[j].container() == container);
    assert forall|a: int, b: int|
        0 <= a < out.len() && 0 <= b < out.len() && (#[trigger] out[a]).container() == container
            && (#[trigger] out[b]).container() == container implies a == b by {
        crowded_containers_are_merged_once(items, min, a, b);
    }
    lemma_single_sibling(out, container);
    lemma_siblings(out, container);
}

/// The formatted content ends in the content itself, starts with the breadcrumbs,
/// and is the content alone where there is no context.
pub proof fn formatted_content_keeps_content(item: EnrichedView)
    ensures
        ends_in(item.formatted(), item.result.content),
        starts_in(
            item.formatted(),
            breadcrumb("// Scope: "@, item.parent_scope) + breadcrumb(
                "// Enclosing: "@,
                item.enclosing_signature,
            ),
        ),
        item.parent_scope is None && item.enclosing_signature is None ==> item.formatted()
            == item.result.content,
{
    let header = breadcrumb("// Scope: "@, item.parent_scope) + breadcrumb(
        "// Enclosing: "@,
        item.enclosing_signature,
    );
    let whole = item.formatted();
    let content = item.result.content;
    assert(whole == header + content);
    assert(whole.subrange(0, header.len() as int) =~= header);
    assert(whole.subrange(whole.len() - content.len(), whole.len() as int) =~= content);
    if item.parent_scope is None && item.enclosing_signature is None {
        assert(whole =~= content);
    }
}

/// A scope that a symbol's name gives does not depend on the file.
pub proof fn symbol_name_decides_scope(a: ResultView, b: ResultView)
    requires
        a.symbol_name == b.symbol_name,
        a.symbol_name is Some,
        symbol_scope(a.symbol_name->0) is Some,
    ensures
        parent_scope(a) == parent_scope(b),
        parent_scope(a) == symbol_scope(a.symbol_name->0),
{
}

/// A scope that a file's path gives is not empty and holds no slash.
pub proof fn module_scopes_have_no_slash(path: Seq<char>)
    requires
        module_scope(path) is Some,
    ensures
        module_scope(path)->0.len() > 0,
        !module_scope(path)->0.contains('/'),
{
    let rest = after_first(path, "src/"@)->0;
    reveal_strlit("::");
    lemma_replaced(trimmed_end(trimmed_end(rest, ".rs"@), "/mod"@), '/', "::"@);
}

/// A character that was replaced by text without it is gone.
proof fn lemma_replaced(s: Seq<char>, c: char, by: Seq<char>)
    requires
        forall|i: int| 0 <= i < by.len() ==> #[trigger] by[i] != c,
    ensures
        !replaced(s, c, by).contains(c),
    decreases s.len(),
{
    if s.len() > 0 {
        lemma_replaced(s.drop_last(), c, by);
        let head = replaced(s.drop_last(), c, by);
        let tail = if s.last() == c {
            by
        } else {
            seq![s.last()]
        };
        let whole = replaced(s, c, by);
        assert(whole == head + tail);
        if whole.contains(c) {
            let i = choose|i: int| 0 <= i < whole.len() && whole[i] == c;
            if i < head.len() {
                assert(head[i] == c);
            } else {
                assert(tail[i - head.len()] == c);
            }
        }
    }
}

} // verus!
