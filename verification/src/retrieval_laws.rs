//! What the steps around a search give, in terms of what went in.
use vstd::prelude::*;
use crate::retrieval::{accepted, apply_filters, configured_max_file_size_bytes,
    filtered, fuse_and_augment_multi_query, fused_equally, multi_query_candidate_limit,
    normalize_queries, normalized, query_texts, repeats, SavedIndexing};
use crate::score::Score;
use crate::text::{collapsed, lowered, words};
use crate::text_laws::{case_is_folded_by_character, collapsed_texts_are_tidy,
    joining_is_piece_by_piece, small};
use crate::types::{SearchFilters, SearchResult};

verus! {

/// Which results were kept: `at` are their places, and `verdicts` what the filters said
/// of the results from the first on. Every result that was accepted is kept, in order,
/// and no other. All results were judged, unless as many were kept as are allowed.
pub open spec fn kept<F: Fn(&SearchResult) -> bool>(
    results: Seq<SearchResult>,
    filters: &SearchFilters<F>,
    limit: usize,
    res: Seq<SearchResult>,
    verdicts: Seq<bool>,
    at: Seq<int>,
) -> bool {
    &&& verdicts.len() <= results.len()
    &&& forall|i: int|
        0 <= i < verdicts.len() ==> match filters.predicate {
            Some(p) => call_ensures(p, (&results[i],), #[trigger] verdicts[i]),
            None => verdicts[i],
        }
    &&& at.len() == res.len()
    &&& forall|k: int|
        0 <= k < at.len() ==> 0 <= #[trigger] at[k] < verdicts.len() && verdicts[at[k]] && res[k]
            == results[at[k]]
    &&& forall|j: int, k: int| 0 <= j < k < at.len() ==> #[trigger] at[j] < #[trigger] at[k]
    &&& forall|i: int| 0 <= i < verdicts.len() && #[trigger] verdicts[i] ==> at.contains(i)
    &&& res.len() <= limit
    &&& res.len() < limit ==> verdicts.len() == results.len()
}

/// There are no filters exactly where there is no predicate, as by default; a result
/// matches where the predicate says so, and always where there is none.
pub proof fn outcome_of_matching<F: Fn(&SearchResult) -> bool>(
    filters: &SearchFilters<F>,
    result: &SearchResult,
    none: SearchFilters<F>,
    empty: bool,
    matched: bool,
)
    requires
        call_ensures(SearchFilters::<F>::default, (), none),
        call_ensures(SearchFilters::<F>::is_empty, (filters,), empty),
        call_ensures(SearchFilters::<F>::matches, (filters, result), matched),
    ensures
        none.predicate is None,
        empty <==> filters.predicate is None,
        filters.predicate is None ==> matched,
        filters.predicate is Some ==> call_ensures(filters.predicate->0, (result,), matched),
{
}

/// Filtering keeps exactly the results that are accepted, up to the limit.
pub proof fn outcome_of_filtering<F: Fn(&SearchResult) -> bool>(
    results: Vec<SearchResult>,
    filters: &SearchFilters<F>,
    limit: usize,
    res: Vec<SearchResult>,
)
    requires
        call_ensures(apply_filters::<F>, (results, filters, limit), res),
    ensures
        exists|verdicts: Seq<bool>, at: Seq<int>| #[trigger]
            kept(results@, filters, limit, res@, verdicts, at),
        filters.predicate is None ==> res@.is_prefix_of(results@) && (res.len() == limit
            || res.len() == results.len()),
{
    let verdicts = choose|verdicts: Seq<bool>| #[trigger]
        filtered(results@, *filters, limit as nat, verdicts, res@);
    let at = lemma_places(results@, verdicts);
    assert forall|i: int| 0 <= i < verdicts.len() implies match filters.predicate {
        Some(p) => call_ensures(p, (&results@[i],), #[trigger] verdicts[i]),
        None => verdicts[i],
    } by {
        assert(filters.decides(&results@[i], verdicts[i]));
    }
    assert(kept(results@, filters, limit, res@, verdicts, at));
}

proof fn lemma_places<T>(results: Seq<T>, verdicts: Seq<bool>) -> (at: Seq<int>)
    ensures
        at.len() == accepted(results, verdicts).len(),
        forall|k: int|
            0 <= k < at.len() ==> 0 <= #[trigger] at[k] < verdicts.len() && verdicts[at[k]]
                && accepted(results, verdicts)[k] == results[at[k]],
        forall|j: int, k: int| 0 <= j < k < at.len() ==> #[trigger] at[j] < #[trigger] at[k],
        forall|i: int| 0 <= i < verdicts.len() && #[trigger] verdicts[i] ==> at.contains(i),
    decreases verdicts.len(),
{
    if verdicts.len() == 0 {
        Seq::empty()
    } else {
        let rest = verdicts.drop_last();
        let last = verdicts.len() - 1;
        let before = lemma_places(results, rest);
        let kept = accepted(results, rest);
        let at = if verdicts.last() {
            before.push(last)
        } else {
            before
        };
        assert forall|k: int| 0 <= k < at.len() implies 0 <= #[trigger] at[k] < verdicts.len()
            && verdicts[at[k]] && accepted(results, verdicts)[k] == results[at[k]] by {
            if k < before.len() {
                assert(at[k] == before[k]);
                assert(rest[before[k]]);
                assert(kept[k] == results[before[k]]);
            }
        }
        assert forall|j: int, k: int| 0 <= j < k < at.len() implies #[trigger] at[j]
            < #[trigger] at[k] by {
            assert(at[j] == before[j]);
            if k < before.len() {
                assert(at[k] == before[k]);
            }
        }
        assert forall|i: int| 0 <= i < verdicts.len() && #[trigger] verdicts[i] implies at.contains(
            i,
        ) by {
            if i < last {
                assert(rest[i]);
                assert(before.contains(i));
                let k = choose|k: int| 0 <= k < before.len() && before[k] == i;
                assert(at[k] == i);
            } else {
                assert(at[at.len() - 1] == i);
            }
        }
        at
    }
}

/// The texts differ in the case of ASCII letters at most.
pub open spec fn same_but_case(a: Seq<char>, b: Seq<char>) -> bool {
    &&& a.len() == b.len()
    &&& forall|i: int| 0 <= i < a.len() ==> small(#[trigger] a[i]) == small(b[i])
}

/// Texts fold to the same exactly where they differ in case at most.
pub proof fn folding_tells_texts_apart(a: Seq<char>, b: Seq<char>)
    ensures
        lowered(a) == lowered(b) <==> same_but_case(a, b),
{
    case_is_folded_by_character(a);
    case_is_folded_by_character(b);
    if lowered(a) == lowered(b) {
        assert forall|i: int| 0 <= i < a.len() implies small(#[trigger] a[i]) == small(b[i]) by {
            assert(lowered(a)[i] as u32 == small(a[i]));
            assert(lowered(b)[i] as u32 == small(b[i]));
        }
    }
    if same_but_case(a, b) {
        assert forall|i: int| 0 <= i < a.len() implies lowered(a)[i] == lowered(b)[i] by {
            assert(lowered(a)[i] as u32 == small(a[i]));
            assert(lowered(b)[i] as u32 == small(b[i]));
        }
        assert(lowered(a) =~= lowered(b));
    }
}

/// The words of a text, with single spaces between them.
pub open spec fn tidied(s: Seq<char>) -> Seq<char> {
    let ws = words(s);
    if ws.len() == 0 {
        Seq::empty()
    } else {
        ws.drop_first().fold_left(ws[0], |text: Seq<char>, w: Seq<char>| text + seq![' '] + w)
    }
}

/// A query is dropped: it is blank, or an earlier one is the same but for white space
/// and case.
pub open spec fn dropped(queries: Seq<String>, i: int) -> bool {
    ||| words(queries[i]@).len() == 0
    ||| exists|j: int|
        0 <= j < i && same_but_case(tidied((#[trigger] queries[j])@), tidied(queries[i]@))
}

/// Normalizing keeps each query that is not blank and that no earlier one repeats, tidied
/// and in order: `at` are the places of those that are kept.
pub proof fn outcome_of_normalizing(queries: &[String], res: Vec<String>) -> (at: Seq<int>)
    requires
        call_ensures(normalize_queries, (queries,), res),
    ensures
        at.len() == res.len(),
        forall|k: int|
            0 <= k < at.len() ==> 0 <= #[trigger] at[k] < queries@.len() && res@[k]@ == tidied(
                queries@[at[k]]@,
            ),
        forall|j: int, k: int| 0 <= j < k < at.len() ==> #[trigger] at[j] < #[trigger] at[k],
        forall|i: int|
            0 <= i < queries@.len() ==> (#[trigger] at.contains(i) <==> !dropped(queries@, i)),
{
    let texts = query_texts(queries@);
    let at = lemma_kept_queries(queries@, queries@.len());
    assert(texts.take(queries@.len() as int) =~= texts);
    assert forall|k: int| 0 <= k < at.len() implies 0 <= #[trigger] at[k] < queries@.len()
        && res@[k]@ == tidied(queries@[at[k]]@) by {
        assert(query_texts(res@)[k] == res@[k]@);
    }
    at
}

proof fn lemma_tidied(s: Seq<char>)
    ensures
        tidied(s) == collapsed(s),
        words(s).len() == 0 <==> collapsed(s).len() == 0,
{
    joining_is_piece_by_piece(words(s), seq![' ']);
    collapsed_texts_are_tidy(s);
    if collapsed(s).len() == 0 {
        assert(words(collapsed(s)) =~= Seq::empty());
    }
}

proof fn lemma_kept_queries(queries: Seq<String>, n: nat) -> (at: Seq<int>)
    requires
        n <= queries.len(),
    ensures
        ({
            let kept = normalized(query_texts(queries).take(n as int));
            &&& at.len() == kept.len()
            &&& forall|k: int|
                0 <= k < at.len() ==> 0 <= #[trigger] at[k] < n && kept[k] == tidied(
                    queries[at[k]]@,
                )
            &&& forall|j: int, k: int| 0 <= j < k < at.len() ==> #[trigger] at[j] < #[trigger] at[k]
            &&& forall|i: int| 0 <= i < n ==> (#[trigger] at.contains(i) <==> !dropped(queries, i))
        }),
    decreases n,
{
    let texts = query_texts(queries);
    if n == 0 {
        Seq::empty()
    } else {
        let m = (n - 1) as nat;
        let before = lemma_kept_queries(queries, m);
        let prior = texts.take(m as int);
        let now = texts.take(n as int);
        assert(now.drop_last() =~= prior);
        let kept = normalized(prior);
        let q = queries[m as int]@;
        assert(now.last() == q);
        lemma_tidied(q);
        let query = collapsed(q);
        assert forall|k: int| 0 <= k < before.len() implies (lowered(#[trigger] kept[k]) == lowered(
            query,
        ) <==> same_but_case(tidied(queries[before[k]]@), tidied(q))) by {
            folding_tells_texts_apart(kept[k], query);
            assert(0 <= before[k] < m);
        }
        assert(query.len() == 0 || repeats(kept, query) <==> dropped(queries, m as int)) by {
            if query.len() > 0 && repeats(kept, query) {
                let k = choose|k: int|
                    0 <= k < kept.len() && lowered(#[trigger] kept[k]) == lowered(query);
                let j = before[k];
                assert(0 <= j < m);
                assert(same_but_case(tidied(queries[j]@), tidied(q)));
            }
            if query.len() > 0 && dropped(queries, m as int) {
                let j = choose|j: int|
                    0 <= j < m && same_but_case(tidied((#[trigger] queries[j])@), tidied(q));
                let f = lemma_first_like(queries, j);
                assert(same_but_case(tidied(queries[f]@), tidied(q)));
                lemma_tidied(queries[f]@);
                assert(!dropped(queries, f));
                assert(before.contains(f));
                let k = choose|k: int| 0 <= k < before.len() && before[k] == f;
                assert(lowered(kept[k]) == lowered(query));
            }
        }
        let at = if dropped(queries, m as int) {
            before
        } else {
            before.push(m as int)
        };
        let all = normalized(now);
        assert(all == if dropped(queries, m as int) {
            kept
        } else {
            kept.push(query)
        });
        assert forall|k: int| 0 <= k < at.len() implies 0 <= #[trigger] at[k] < n && all[k]
            == tidied(queries[at[k]]@) by {
            if k < before.len() {
                assert(at[k] == before[k]);
                assert(all[k] == kept[k]);
            }
        }
        assert forall|j: int, k: int| 0 <= j < k < at.len() implies #[trigger] at[j]
            < #[trigger] at[k] by {
            assert(at[j] == before[j]);
            if k < before.len() {
                assert(at[k] == before[k]);
            }
        }
        assert forall|i: int| 0 <= i < n implies (#[trigger] at.contains(i) <==> !dropped(
            queries,
            i,
        )) by {
            if i < m {
                assert(before.contains(i) <==> !dropped(queries, i));
                if before.contains(i) {
                    let k = choose|k: int| 0 <= k < before.len() && before[k] == i;
                    assert(at[k] == i);
                }
                if at.contains(i) {
                    let k = choose|k: int| 0 <= k < at.len() && at[k] == i;
                    assert(before[k] == i);
                }
            } else if !dropped(queries, i) {
                assert(at[at.len() - 1] == i);
            } else if at.contains(i) {
                let k = choose|k: int| 0 <= k < at.len() && at[k] == i;
                assert(0 <= before[k] < m);
            }
        }
        at
    }
}

/// Of the queries like one there is a first, and it is not dropped unless it is blank.
proof fn lemma_first_like(queries: Seq<String>, j: int) -> (f: int)
    requires
        0 <= j < queries.len(),
    ensures
        0 <= f <= j,
        same_but_case(tidied(queries[f]@), tidied(queries[j]@)),
        words(queries[j]@).len() > 0 ==> !dropped(queries, f),
    decreases j,
{
    lemma_tidied(queries[j]@);
    if dropped(queries, j) && words(queries[j]@).len() > 0 {
        let i = choose|i: int|
            0 <= i < j && same_but_case(tidied((#[trigger] queries[i])@), tidied(queries[j]@));
        lemma_tidied(queries[i]@);
        let f = lemma_first_like(queries, i);
        lemma_alike(tidied(queries[f]@), tidied(queries[i]@), tidied(queries[j]@));
        f
    } else {
        j
    }
}

proof fn lemma_alike(a: Seq<char>, b: Seq<char>, c: Seq<char>)
    requires
        same_but_case(a, b),
        same_but_case(b, c),
    ensures
        same_but_case(a, c),
{
    folding_tells_texts_apart(a, b);
    folding_tells_texts_apart(b, c);
    folding_tells_texts_apart(a, c);
}

/// The candidates of a subquery are at least twenty, ten more than the limit and twice
/// the limit, as far as a `usize` goes, and no more than one of these asks for.
pub proof fn outcome_of_limiting(limit: usize, res: usize)
    requires
        call_ensures(multi_query_candidate_limit, (limit,), res),
    ensures
        res >= 20,
        res >= limit + 10 || res == usize::MAX,
        res >= 2 * limit || res == usize::MAX,
        res == 20 || res == limit + 10 || res == 2 * limit || (res == usize::MAX && (limit + 10
            >= usize::MAX || 2 * limit >= usize::MAX)),
{
}

/// The cap that was saved is honored, and only where none could be read the default.
pub proof fn outcome_of_reading_the_cap(saved: SavedIndexing, default_max: u64, res: u64)
    requires
        call_ensures(configured_max_file_size_bytes, (saved, default_max), res),
    ensures
        match saved {
            SavedIndexing::Decoded { max_file_size_bytes } => res == max_file_size_bytes,
            SavedIndexing::Undecodable => res == default_max,
            SavedIndexing::Absent => res == default_max,
            SavedIndexing::Unreadable => res == default_max,
        },
{
}

/// All result sets are fused, each with the weight one, up to the fusion limit; what is
/// fused is augmented up to the result limit; and that is the outcome, be it a failure.
pub proof fn outcome_of_fusing<
    F,
    E,
    R: Fn(&[Vec<SearchResult>], &Vec<Score>, Score, usize) -> Vec<SearchResult>,
    A: Fn(&[String], Vec<SearchResult>, &SearchFilters<F>, usize) -> Result<Vec<SearchResult>, E>,
>(
    queries: &[String],
    result_sets: &[Vec<SearchResult>],
    filters: &SearchFilters<F>,
    rrf_k: Score,
    fuse_limit: usize,
    result_limit: usize,
    fuse: R,
    augment: A,
    res: Result<Vec<SearchResult>, E>,
)
    requires
        call_ensures(
            fuse_and_augment_multi_query::<F, E, R, A>,
            (queries, result_sets, filters, rrf_k, fuse_limit, result_limit, fuse, augment),
            res,
        ),
    ensures
        exists|weights: Vec<Score>, fused: Vec<SearchResult>|
            #![trigger call_ensures(fuse, (result_sets, &weights, rrf_k, fuse_limit), fused)]
            {
                &&& weights.len() == result_sets@.len()
                &&& forall|i: int|
                    0 <= i < weights.len() ==> (#[trigger] weights@[i]).bits
                        == 0x3ff0_0000_0000_0000
                &&& call_ensures(fuse, (result_sets, &weights, rrf_k, fuse_limit), fused)
                &&& call_ensures(augment, (queries, fused, filters, result_limit), res)
            },
{
    let fused = choose|fused: Vec<SearchResult>| #[trigger]
        fused_equally(result_sets, rrf_k, fuse_limit, fuse, fused) && call_ensures(
            augment,
            (queries, fused, filters, result_limit),
            res,
        );
    let weights = choose|weights: Vec<Score>|
        weights@ == crate::retrieval::equal_weights(result_sets@.len()) && #[trigger] call_ensures(
            fuse,
            (result_sets, &weights, rrf_k, fuse_limit),
            fused,
        );
    assert(weights.len() == result_sets@.len());
}

} // verus!
