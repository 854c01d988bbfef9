//! What merging sibling chunks is for, in terms of the results that went in and the
//! results that come out.
use vstd::prelude::*;
use crate::context_enrichment::{absorbed, auto_merge_hierarchical_results, crowded,
    enriched_views, gathered, leaders, leads, lemma_leaders, lemma_siblings, merged,
    siblings, threshold, united, EnrichedSearchResult, EnrichedView};
use crate::enrichment_laws::{union_has_best_score, union_spans_siblings};

verus! {

/// The two results are of one file and have one parent scope, which is known.
pub open spec fn share(a: EnrichedSearchResult, b: EnrichedSearchResult) -> bool {
    &&& a.parent_scope is Some
    &&& b.parent_scope is Some
    &&& a.parent_scope->0@ == b.parent_scope->0@
    &&& a.result.file_path@ == b.result.file_path@
}

/// Two results have the same container exactly if both scopes are known and equal and
/// their whole file paths are equal.
pub proof fn containers_are_file_and_scope(a: EnrichedSearchResult, b: EnrichedSearchResult)
    ensures
        share(a, b) <==> a@.container() is Some && a@.container() == b@.container(),
        a.parent_scope is None <==> a@.container() is None,
{
    if a@.container() is Some && a@.container() == b@.container() {
        assert(a@.container() == Some((a.result.file_path@, a.parent_scope->0@)));
        assert(b@.container() == Some((b.result.file_path@, b.parent_scope->0@)));
    }
}

/// The results that share a container with `x`, in order.
pub open spec fn sharing(
    results: Seq<EnrichedSearchResult>,
    x: EnrichedSearchResult,
) -> Seq<EnrichedSearchResult> {
    results.filter(|e: EnrichedSearchResult| share(x, e))
}

/// Everything but lines, score and content is the same.
pub open spec fn same_chunk(a: EnrichedSearchResult, b: EnrichedSearchResult) -> bool {
    &&& a.result.file_path@ == b.result.file_path@
    &&& a.result.language == b.result.language
    &&& a.result.symbol_name is Some <==> b.result.symbol_name is Some
    &&& a.result.symbol_name is Some ==> a.result.symbol_name->0@ == b.result.symbol_name->0@
    &&& a.result.symbol_type == b.result.symbol_type
    &&& a.result.part_index == b.result.part_index
    &&& a.parent_scope is Some <==> b.parent_scope is Some
    &&& a.parent_scope is Some ==> a.parent_scope->0@ == b.parent_scope->0@
    &&& a.enclosing_signature is Some <==> b.enclosing_signature is Some
    &&& a.enclosing_signature is Some ==> a.enclosing_signature->0@ == b.enclosing_signature->0@
}

/// The result is as it was.
pub open spec fn untouched(a: EnrichedSearchResult, b: EnrichedSearchResult) -> bool {
    &&& same_chunk(a, b)
    &&& a.result.line_start == b.result.line_start
    &&& a.result.line_end == b.result.line_end
    &&& a.result.score == b.result.score
    &&& a.result.content@ == b.result.content@
}

/// `whole` holds what the results of `group` hold: it spans exactly their lines, no
/// score of theirs is above its own, which is one of theirs, and its content is theirs
/// in order with the marker between them.
pub open spec fn holds_all(whole: EnrichedSearchResult, group: Seq<EnrichedSearchResult>) -> bool {
    &&& group.len() > 0
    &&& same_chunk(whole, group[0])
    &&& forall|k: int|
        0 <= k < group.len() ==> whole.result.line_start <= (#[trigger] group[k]).result.line_start
            && group[k].result.line_end <= whole.result.line_end
    &&& exists|k: int|
        0 <= k < group.len() && (#[trigger] group[k]).result.line_start == whole.result.line_start
    &&& exists|k: int|
        0 <= k < group.len() && (#[trigger] group[k]).result.line_end == whole.result.line_end
    &&& group[0].result.score.not_a_number() ==> whole.result.score == group[0].result.score
    &&& !group[0].result.score.not_a_number() ==> {
        &&& forall|k: int|
            0 <= k < group.len() ==> !(#[trigger] group[k]).result.score.above(whole.result.score)
        &&& exists|k: int|
            0 <= k < group.len() && (#[trigger] group[k]).result.score == whole.result.score
    }
    &&& whole.result.content@ == group.drop_first().fold_left(
        group[0].result.content@,
        |text: Seq<char>, e: EnrichedSearchResult|
            text + "\n\n// ── Sibling Chunk ──\n"@ + e.result.content@,
    )
}

/// How many results of a container are needed to unite them.
pub open spec fn enough(results: Seq<EnrichedSearchResult>, min: usize, i: int) -> bool {
    &&& sharing(results, results[i]).len() >= 2
    &&& sharing(results, results[i]).len() >= min
}

/// What merging does, result for result. `at` are the places of the results that
/// stand in the outcome, in order. A result that is alone in its container, or has
/// too few siblings, stands there as it was. The others stand there once for each
/// container, in the place of the first, as one result that holds what all of them
/// hold. No result is left out otherwise.
pub proof fn outcome_of_merging(
    results: Vec<EnrichedSearchResult>,
    min: usize,
    res: Vec<EnrichedSearchResult>,
) -> (at: Seq<int>)
    requires
        call_ensures(auto_merge_hierarchical_results, (results, min), res),
    ensures
        at.len() == res.len(),
        forall|j: int, k: int| 0 <= j < k < at.len() ==> #[trigger] at[j] < #[trigger] at[k],
        forall|k: int| 0 <= k < at.len() ==> 0 <= #[trigger] at[k] < results.len(),
        forall|k: int|
            #![trigger at[k]]
            0 <= k < at.len() && !enough(results@, min, at[k]) ==> untouched(
                res@[k],
                results@[at[k]],
            ),
        forall|k: int|
            #![trigger at[k]]
            0 <= k < at.len() && enough(results@, min, at[k]) ==> holds_all(
                res@[k],
                sharing(results@, results@[at[k]]),
            ),
        forall|i: int|
            0 <= i < results.len() ==> (#[trigger] at.contains(i) <==> !(enough(results@, min, i)
                && exists|j: int| 0 <= j < i && share(results@[i], #[trigger] results@[j]))),
{
    let items = enriched_views(results@);
    let least = threshold(min as nat);
    let n = items.len();
    let at = leaders(items, least, n);
    let out = enriched_views(res@);
    assert(out == merged(items, min as nat));
    assert(items.take(n as int) =~= items);
    lemma_leaders(items, least, n);
    assert(out.len() == at.len());
    assert forall|i: int| 0 <= i < n implies (enough(results@, min, i) <==> crowded(
        items,
        least,
        (#[trigger] items[i]).container(),
    )) && (crowded(items, least, items[i].container()) ==> enriched_views(
        sharing(results@, results@[i]),
    ) == siblings(items, items[i].container())) by {
        lemma_enough(results@, min, i);
    }
    assert forall|k: int|
        #![trigger at[k]]
        0 <= k < at.len() && !enough(results@, min, at[k]) implies untouched(
        res@[k],
        results@[at[k]],
    ) by {
        let i = at[k];
        assert(items[i] == results@[i]@);
        assert(out[k] == gathered(items, least, n, i));
        assert(res@[k]@ == results@[i]@);
        lemma_untouched(res@[k], results@[i]);
    }
    assert forall|k: int|
        #![trigger at[k]]
        0 <= k < at.len() && enough(results@, min, at[k]) implies holds_all(
        res@[k],
        sharing(results@, results@[at[k]]),
    ) by {
        let i = at[k];
        assert(items[i] == results@[i]@);
        assert(out[k] == gathered(items, least, n, i));
        let group = sharing(results@, results@[i]);
        assert(res@[k]@ == united(siblings(items, items[i].container())));
        lemma_holds_all(res@[k], group);
    }
    assert forall|i: int| 0 <= i < results.len() implies (#[trigger] at.contains(i) <==> !(enough(
        results@,
        min,
        i,
    ) && exists|j: int| 0 <= j < i && share(results@[i], #[trigger] results@[j]))) by {
        assert(items[i] == results@[i]@);
        lemma_siblings(items.take(i), items[i].container());
        assert(at.contains(i) <==> leads(items, least, i)) by {
            if at.contains(i) {
                let k = choose|k: int| 0 <= k < at.len() && at[k] == i;
            }
        }
        if enough(results@, min, i) {
            if exists|j: int| 0 <= j < i && share(results@[i], #[trigger] results@[j]) {
                let j = choose|j: int| 0 <= j < i && share(results@[i], #[trigger] results@[j]);
                containers_are_file_and_scope(results@[i], results@[j]);
                assert(items.take(i)[j].container() == items[i].container());
            }
            if siblings(items.take(i), items[i].container()).len() > 0 {
                let j = choose|j: int|
                    0 <= j < items.take(i).len() && (#[trigger] items.take(i)[j]).container()
                        == items[i].container();
                containers_are_file_and_scope(results@[i], results@[j]);
                assert(share(results@[i], results@[j]));
            }
        }
    }
    at
}

/// Every result that is united into an outcome has its file and its parent scope.
pub proof fn united_results_share_file_and_scope(
    results: Vec<EnrichedSearchResult>,
    min: usize,
    res: Vec<EnrichedSearchResult>,
    k: int,
) -> (group: Seq<EnrichedSearchResult>)
    requires
        call_ensures(auto_merge_hierarchical_results, (results, min), res),
        0 <= k < res.len(),
    ensures
        group.len() > 0,
        forall|j: int|
            0 <= j < group.len() ==> results@.contains(#[trigger] group[j])
                && group[j].result.file_path@ == res@[k].result.file_path@ && (group.len() > 1
                ==> share(res@[k], group[j])),
        group.len() == 1 ==> untouched(res@[k], group[0]),
        group.len() > 1 ==> holds_all(res@[k], group),
{
    let at = outcome_of_merging(results, min, res);
    let i = at[k];
    if enough(results@, min, i) {
        let x = results@[i];
        let group = sharing(results@, x);
        let pred = |e: EnrichedSearchResult| share(x, e);
        results@.filter_lemma(pred);
        assert forall|j: int| 0 <= j < group.len() implies results@.contains(#[trigger] group[j])
            && group[j].result.file_path@ == res@[k].result.file_path@ && share(
            res@[k],
            group[j],
        ) by {
            results@.lemma_filter_contains_rev(pred, group[j]);
            assert(pred(group[j]));
            assert(pred(group[0]));
        }
        group
    } else {
        assert(results@.contains(results@[i]));
        seq![results@[i]]
    }
}

proof fn lemma_untouched(a: EnrichedSearchResult, b: EnrichedSearchResult)
    requires
        a@ == b@,
    ensures
        untouched(a, b),
{
    assert(a@.result.symbol_name == b@.result.symbol_name);
    assert(a@.parent_scope == b@.parent_scope);
    assert(a@.enclosing_signature == b@.enclosing_signature);
}

/// The results that share a container with one are its siblings.
proof fn lemma_sharing(results: Seq<EnrichedSearchResult>, x: EnrichedSearchResult)
    requires
        x.parent_scope is Some,
    ensures
        enriched_views(sharing(results, x)) == siblings(enriched_views(results), x@.container()),
    decreases results.len(),
{
    reveal(Seq::filter);
    let items = enriched_views(results);
    if results.len() == 0 {
        assert(enriched_views(sharing(results, x)) =~= siblings(items, x@.container()));
    } else {
        let rest = results.drop_last();
        lemma_sharing(rest, x);
        assert(items.drop_last() =~= enriched_views(rest));
        containers_are_file_and_scope(x, results.last());
        let pred = |e: EnrichedSearchResult| share(x, e);
        assert(sharing(results, x) == if pred(results.last()) {
            sharing(rest, x).push(results.last())
        } else {
            sharing(rest, x)
        });
        assert(enriched_views(sharing(results, x)) =~= siblings(items, x@.container()));
    }
}

proof fn lemma_enough(results: Seq<EnrichedSearchResult>, min: usize, i: int)
    requires
        0 <= i < results.len(),
    ensures
        enough(results, min, i) <==> crowded(
            enriched_views(results),
            threshold(min as nat),
            enriched_views(results)[i].container(),
        ),
        enough(results, min, i) ==> enriched_views(sharing(results, results[i])) == siblings(
            enriched_views(results),
            enriched_views(results)[i].container(),
        ),
{
    let x = results[i];
    assert(enriched_views(results)[i] == x@);
    containers_are_file_and_scope(x, x);
    if x.parent_scope is Some {
        lemma_sharing(results, x);
        assert(enriched_views(sharing(results, x)).len() == sharing(results, x).len());
    } else {
        lemma_none_shares(results, x);
    }
}

proof fn lemma_none_shares(results: Seq<EnrichedSearchResult>, x: EnrichedSearchResult)
    requires
        x.parent_scope is None,
    ensures
        sharing(results, x).len() == 0,
    decreases results.len(),
{
    reveal(Seq::filter);
    if results.len() > 0 {
        lemma_none_shares(results.drop_last(), x);
    }
}

/// The content of a union is the first content, and each later one after a marker.
proof fn lemma_union_content(group: Seq<EnrichedSearchResult>)
    requires
        group.len() > 0,
    ensures
        united(enriched_views(group)).result.content == group.drop_first().fold_left(
            group[0].result.content@,
            |text: Seq<char>, e: EnrichedSearchResult|
                text + "\n\n// ── Sibling Chunk ──\n"@ + e.result.content@,
        ),
    decreases group.len(),
{
    let f = |text: Seq<char>, e: EnrichedSearchResult|
        text + "\n\n// ── Sibling Chunk ──\n"@ + e.result.content@;
    let items = enriched_views(group);
    if group.len() > 1 {
        let rest = group.drop_last();
        lemma_union_content(rest);
        assert(items.drop_last() =~= enriched_views(rest));
        assert(group.drop_first().drop_last() =~= rest.drop_first());
        assert(items.last() == group.last()@);
        assert(united(items) == absorbed(united(items.drop_last()), items.last()));
        assert(group.drop_first().last() == group.last());
        assert(group.drop_first().fold_left(group[0].result.content@, f) == f(
            group.drop_first().drop_last().fold_left(group[0].result.content@, f),
            group.drop_first().last(),
        ));
    } else {
        assert(group.drop_first() =~= Seq::empty());
    }
}

/// A union keeps everything of its first result but lines, score and content, and a
/// first score that is no number.
proof fn lemma_union_keeps(group: Seq<EnrichedView>)
    requires
        group.len() > 0,
    ensures
        ({
            let a = united(group);
            let b = group[0];
            &&& a.result.file_path == b.result.file_path
            &&& a.result.language == b.result.language
            &&& a.result.symbol_name == b.result.symbol_name
            &&& a.result.symbol_type == b.result.symbol_type
            &&& a.result.part_index == b.result.part_index
            &&& a.parent_scope == b.parent_scope
            &&& a.enclosing_signature == b.enclosing_signature
            &&& b.result.score.not_a_number() ==> a.result.score == b.result.score
        }),
    decreases group.len(),
{
    if group.len() > 1 {
        lemma_union_keeps(group.drop_last());
        assert(group.drop_last()[0] == group[0]);
    }
}

proof fn lemma_holds_all(whole: EnrichedSearchResult, group: Seq<EnrichedSearchResult>)
    requires
        group.len() > 0,
        whole@ == united(enriched_views(group)),
    ensures
        holds_all(whole, group),
{
    let items = enriched_views(group);
    lemma_union_content(group);
    lemma_union_keeps(items);
    union_spans_siblings(items);
    assert(items[0] == group[0]@);
    assert forall|k: int| 0 <= k < group.len() implies whole.result.line_start <= (
    #[trigger] group[k]).result.line_start && group[k].result.line_end
        <= whole.result.line_end by {
        assert(items[k] == group[k]@);
    }
    let a = choose|k: int|
        0 <= k < items.len() && (#[trigger] items[k]).result.line_start == united(
            items,
        ).result.line_start;
    let b = choose|k: int|
        0 <= k < items.len() && (#[trigger] items[k]).result.line_end == united(
            items,
        ).result.line_end;
    assert(group[a].result.line_start == whole.result.line_start);
    assert(group[b].result.line_end == whole.result.line_end);
    if !group[0].result.score.not_a_number() {
        union_has_best_score(items);
        assert forall|k: int| 0 <= k < group.len() implies !(
        #[trigger] group[k]).result.score.above(whole.result.score) by {
            assert(items[k] == group[k]@);
        }
        let c = choose|k: int|
            0 <= k < items.len() && (#[trigger] items[k]).result.score == united(
                items,
            ).result.score;
        assert(group[c].result.score == whole.result.score);
    }
    assert(whole@.result.symbol_name == items[0].result.symbol_name);
    assert(whole@.parent_scope == items[0].parent_scope);
    assert(whole@.enclosing_signature == items[0].enclosing_signature);
}

} // verus!
