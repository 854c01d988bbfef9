//! Steps around a search: its subqueries, how many candidates each keeps, the
//! filters on what was found, and how much of a source file it may read.
use vstd::hash_set::StringHashSet;
use vstd::prelude::*;
use crate::score::Score;
use crate::text::{characters, collapse, collapsed, collapsing_is_idempotent, lowered, string_of,
    to_lower};
use crate::types::{SearchFilters, SearchResult};

verus! {

/// The texts of strings.
pub open spec fn query_texts(queries: Seq<String>) -> Seq<Seq<char>> {
    queries.map_values(|q: String| q@)
}

/// One of `kept` is `query`, but for the case of ASCII letters.
pub open spec fn repeats(kept: Seq<Seq<char>>, query: Seq<char>) -> bool {
    exists|k: int| 0 <= k < kept.len() && lowered(#[trigger] kept[k]) == lowered(query)
}

/// The queries with their white space collapsed, without those that are empty or
/// repeat an earlier one.
pub open spec fn normalized(queries: Seq<Seq<char>>) -> Seq<Seq<char>>
    decreases queries.len(),
{
    if queries.len() == 0 {
        queries
    } else {
        let kept = normalized(queries.drop_last());
        let query = collapsed(queries.last());
        if query.len() == 0 || repeats(kept, query) {
            kept
        } else {
            kept.push(query)
        }
    }
}

/// Collapse whitespace and drop empty or repeated subqueries.
///
/// Fusion counts every subquery, so the same query arriving twice would
/// otherwise weigh double against the ones it was meant to complement.
pub fn normalize_queries(queries: &[String]) -> (res: Vec<String>)
    ensures
        query_texts(res@) == normalized(query_texts(queries@)),
{
    let ghost all = query_texts(queries@);
    let mut kept: Vec<String> = Vec::new();
    let mut seen = StringHashSet::new();
    let mut i: usize = 0;
    proof {
        assert(all.take(0) =~= Seq::empty());
        assert(query_texts(kept@) =~= Seq::empty());
    }
    while i < queries.len()
        invariant
            i <= queries.len(),
            all == query_texts(queries@),
            query_texts(kept@) == normalized(all.take(i as int)),
            forall|query: Seq<char>| #[trigger]
                repeats(query_texts(kept@), query) <==> seen@.contains(lowered(query)),
        decreases queries.len() - i,
    {
        let query = collapse(&characters(queries[i].as_str()));
        let ghost was = query_texts(kept@);
        proof {
            assert(all.take(i + 1).drop_last() =~= all.take(i as int));
            assert(all.take(i + 1).last() == queries@[i as int]@);
            assert(repeats(was, query@) <==> seen@.contains(lowered(query@)));
        }
        if query.len() > 0 && seen.insert(string_of(&to_lower(&query))) {
            kept.push(string_of(&query));
            proof {
                let now = query_texts(kept@);
                assert(now =~= was.push(query@));
                assert forall|q: Seq<char>| #[trigger] repeats(now, q) <==> seen@.contains(
                    lowered(q),
                ) by {
                    assert(repeats(was, q) ==> repeats(now, q)) by {
                        if repeats(was, q) {
                            let k = choose|k: int|
                                0 <= k < was.len() && lowered(#[trigger] was[k]) == lowered(q);
                            assert(now[k] == was[k]);
                        }
                    }
                    if lowered(q) == lowered(query@) {
                        assert(lowered(now[was.len() as int]) == lowered(q));
                    }
                    if repeats(now, q) && lowered(q) != lowered(query@) {
                        let k = choose|k: int|
                            0 <= k < now.len() && lowered(#[trigger] now[k]) == lowered(q);
                        assert(now[k] == was[k]);
                        assert(repeats(was, q));
                    }
                }
            }
        }
        i = i + 1;
    }
    proof {
        assert(all.take(i as int) =~= all);
    }
    kept
}

/// No normalized query is empty, and no two are the same but for the case of ASCII
/// letters.
pub proof fn normalized_queries_differ(queries: Seq<Seq<char>>)
    ensures
        normalized(queries).len() <= queries.len(),
        forall|k: int|
            0 <= k < normalized(queries).len() ==> (#[trigger] normalized(queries)[k]).len() > 0,
        forall|j: int, k: int|
            0 <= j < k < normalized(queries).len() ==> lowered(#[trigger] normalized(queries)[j])
                != lowered(#[trigger] normalized(queries)[k]),
    decreases queries.len(),
{
    if queries.len() > 0 {
        let rest = queries.drop_last();
        normalized_queries_differ(rest);
        let kept = normalized(rest);
        let all = normalized(queries);
        let query = collapsed(queries.last());
        if query.len() == 0 || repeats(kept, query) {
            assert(all == kept);
        } else {
            assert(all == kept.push(query));
            assert forall|k: int| 0 <= k < all.len() implies (#[trigger] all[k]).len() > 0 by {
                if k < kept.len() {
                    assert(all[k] == kept[k]);
                }
            }
            assert forall|j: int, k: int| 0 <= j < k < all.len() implies lowered(
                #[trigger] all[j],
            ) != lowered(#[trigger] all[k]) by {
                assert(all[j] == kept[j]);
                if k < kept.len() {
                    assert(all[k] == kept[k]);
                }
            }
        }
    }
}

/// Every normalized query is one of the queries, collapsed.
pub proof fn normalized_queries_were_given(queries: Seq<Seq<char>>)
    ensures
        forall|k: int|
            #![trigger normalized(queries)[k]]
            0 <= k < normalized(queries).len() ==> exists|i: int|
                0 <= i < queries.len() && collapsed(#[trigger] queries[i]) == normalized(
                    queries,
                )[k],
    decreases queries.len(),
{
    if queries.len() > 0 {
        let rest = queries.drop_last();
        normalized_queries_were_given(rest);
        let kept = normalized(rest);
        let all = normalized(queries);
        assert forall|k: int| #![trigger all[k]] 0 <= k < all.len() implies exists|i: int|
            0 <= i < queries.len() && collapsed(#[trigger] queries[i]) == all[k] by {
            if k < kept.len() {
                assert(all[k] == kept[k]);
                let i = choose|i: int|
                    0 <= i < rest.len() && collapsed(#[trigger] rest[i]) == kept[k];
                assert(queries[i] == rest[i]);
            } else {
                assert(collapsed(queries[queries.len() - 1]) == all[k]);
            }
        }
    }
}

/// Every query that is not blank is kept, or an earlier one that is the same but for
/// white space and the case of ASCII letters.
pub proof fn queries_stay_represented(queries: Seq<Seq<char>>)
    ensures
        forall|i: int|
            0 <= i < queries.len() && collapsed(#[trigger] queries[i]).len() > 0 ==> repeats(
                normalized(queries),
                collapsed(queries[i]),
            ),
    decreases queries.len(),
{
    if queries.len() > 0 {
        let rest = queries.drop_last();
        queries_stay_represented(rest);
        let kept = normalized(rest);
        let all = normalized(queries);
        let query = collapsed(queries.last());
        assert forall|i: int|
            0 <= i < queries.len() && collapsed(#[trigger] queries[i]).len() > 0 implies repeats(
            all,
            collapsed(queries[i]),
        ) by {
            let c = collapsed(queries[i]);
            if i < rest.len() {
                assert(rest[i] == queries[i]);
                assert(repeats(kept, c));
                let k = choose|k: int|
                    0 <= k < kept.len() && lowered(#[trigger] kept[k]) == lowered(c);
                assert(all[k] == kept[k]);
            } else if !repeats(kept, query) {
                assert(all[kept.len() as int] == c);
            }
        }
    }
}

/// Queries that are collapsed, not empty and all different stay as they are.
proof fn lemma_normal_queries(queries: Seq<Seq<char>>)
    requires
        forall|k: int| 0 <= k < queries.len() ==> (#[trigger] queries[k]).len() > 0,
        forall|k: int| 0 <= k < queries.len() ==> collapsed(#[trigger] queries[k]) == queries[k],
        forall|j: int, k: int|
            0 <= j < k < queries.len() ==> lowered(#[trigger] queries[j]) != lowered(
                #[trigger] queries[k],
            ),
    ensures
        normalized(queries) == queries,
    decreases queries.len(),
{
    if queries.len() > 0 {
        let rest = queries.drop_last();
        let last = queries.len() - 1;
        assert forall|k: int| 0 <= k < rest.len() implies collapsed(#[trigger] rest[k])
            == rest[k] && rest[k].len() > 0 by {
            assert(rest[k] == queries[k]);
        }
        assert forall|j: int, k: int| 0 <= j < k < rest.len() implies lowered(#[trigger] rest[j])
            != lowered(#[trigger] rest[k]) by {
            assert(rest[j] == queries[j]);
            assert(rest[k] == queries[k]);
        }
        lemma_normal_queries(rest);
        assert(collapsed(queries[last]) == queries[last]);
        if repeats(rest, queries.last()) {
            let k = choose|k: int|
                0 <= k < rest.len() && lowered(#[trigger] rest[k]) == lowered(queries.last());
            assert(lowered(queries[k]) != lowered(queries[last]));
        }
        assert(rest.push(queries.last()) =~= queries);
    }
}

/// Normalizing a second time changes nothing.
pub proof fn normalizing_is_idempotent(queries: Seq<Seq<char>>)
    ensures
        normalized(normalized(queries)) == normalized(queries),
{
    let once = normalized(queries);
    normalized_queries_differ(queries);
    normalized_queries_were_given(queries);
    assert forall|k: int| 0 <= k < once.len() implies collapsed(#[trigger] once[k]) == once[k] by {
        let i = choose|i: int|
            0 <= i < queries.len() && collapsed(#[trigger] queries[i]) == once[k];
        collapsing_is_idempotent(queries[i]);
    }
    lemma_normal_queries(once);
}

/// Queries that are blank or repeat what is kept add nothing.
proof fn lemma_nothing_added(queries: Seq<Seq<char>>, more: Seq<Seq<char>>)
    requires
        forall|i: int|
            0 <= i < more.len() ==> collapsed(#[trigger] more[i]).len() == 0 || repeats(
                normalized(queries),
                collapsed(more[i]),
            ),
    ensures
        normalized(queries + more) == normalized(queries),
    decreases more.len(),
{
    if more.len() == 0 {
        assert(queries + more =~= queries);
    } else {
        let rest = more.drop_last();
        assert forall|i: int| 0 <= i < rest.len() implies collapsed(#[trigger] rest[i]).len() == 0
            || repeats(normalized(queries), collapsed(rest[i])) by {
            assert(rest[i] == more[i]);
        }
        lemma_nothing_added(queries, rest);
        assert((queries + more).drop_last() =~= queries + rest);
        assert((queries + more).last() == more[more.len() - 1]);
    }
}

/// A list followed by itself normalizes to what the list does: a query that arrives
/// twice counts once.
pub proof fn repeated_queries_count_once(queries: Seq<Seq<char>>)
    ensures
        normalized(queries + queries) == normalized(queries),
{
    queries_stay_represented(queries);
    lemma_nothing_added(queries, queries);
}

/// `n`, or the largest `usize` where it is larger.
pub open spec fn saturated(n: int) -> int {
    if n > usize::MAX {
        usize::MAX as int
    } else {
        n
    }
}

/// The candidates of a subquery: twice the limit, ten more than the limit, or
/// twenty, whichever is most.
pub open spec fn candidate_limit(result_limit: int) -> int {
    let twice = saturated(2 * result_limit);
    let more = saturated(result_limit + 10);
    let wide = if twice > more {
        twice
    } else {
        more
    };
    if wide > 20 {
        wide
    } else {
        20
    }
}

/// Candidate width each subquery keeps before multi-query fusion.
///
/// A subquery has to over-fetch relative to the caller's limit, or fusion has
/// nothing to merge: the first subquery alone fills the final window and every
/// later one is truncated away.
pub fn multi_query_candidate_limit(result_limit: usize) -> (res: usize)
    ensures
        res == candidate_limit(result_limit as int),
{
    let twice: usize = result_limit.saturating_add(result_limit);
    let more: usize = result_limit.saturating_add(10);
    let wide: usize = if twice > more {
        twice
    } else {
        more
    };
    if wide > 20 {
        wide
    } else {
        20
    }
}

/// A subquery keeps more candidates than the limit, but for a limit that no `usize`
/// exceeds, and no fewer than a smaller limit would give.
pub proof fn candidates_exceed_the_limit(smaller: usize, limit: usize)
    requires
        smaller <= limit,
    ensures
        candidate_limit(limit as int) >= 20,
        limit < usize::MAX ==> candidate_limit(limit as int) > limit,
        candidate_limit(usize::MAX as int) == usize::MAX,
        candidate_limit(smaller as int) <= candidate_limit(limit as int),
{
}

/// The results whose verdict is `true`, in order.
pub open spec fn accepted<T>(results: Seq<T>, verdicts: Seq<bool>) -> Seq<T>
    decreases verdicts.len(),
{
    if verdicts.len() == 0 {
        Seq::empty()
    } else {
        let kept = accepted(results, verdicts.drop_last());
        if verdicts.last() {
            kept.push(results[verdicts.len() - 1])
        } else {
            kept
        }
    }
}

/// `res` is what filters leave of `results`: of those asked about, from the first
/// on, the ones that were accepted. All are asked about, unless `limit` of them
/// were accepted before.
pub open spec fn filtered<F: Fn(&SearchResult) -> bool>(
    results: Seq<SearchResult>,
    filters: SearchFilters<F>,
    limit: nat,
    verdicts: Seq<bool>,
    res: Seq<SearchResult>,
) -> bool {
    &&& verdicts.len() <= results.len()
    &&& forall|i: int|
        0 <= i < verdicts.len() ==> filters.decides(&results[i], #[trigger] verdicts[i])
    &&& res == accepted(results, verdicts)
    &&& res.len() <= limit
    &&& res.len() == limit || verdicts.len() == results.len()
}

/// Apply search filters to a list of results, preserving order and limit.
///
/// Filters are applied post-retrieval: results that don't match all active
/// filters are removed. The `limit` parameter caps the final result count.
pub fn apply_filters<F: Fn(&SearchResult) -> bool>(
    results: Vec<SearchResult>,
    filters: &SearchFilters<F>,
    limit: usize,
) -> (res: Vec<SearchResult>)
    requires
        forall|i: int| 0 <= i < results.len() ==> filters.answers(&#[trigger] results@[i]),
    ensures
        filters.predicate is None ==> res@ == results@.take(
            if limit < results.len() {
                limit as int
            } else {
                results.len() as int
            },
        ),
        exists|verdicts: Seq<bool>| #[trigger]
            filtered(results@, *filters, limit as nat, verdicts, res@),
{
    if filters.is_empty() {
        let mut kept = results;
        let ghost n = if limit < results.len() {
            limit as int
        } else {
            results.len() as int
        };
        kept.truncate(limit);
        proof {
            let verdicts = Seq::new(n as nat, |i: int| true);
            lemma_accepted_all(results@, verdicts);
            assert(kept@ =~= results@.take(n));
            assert(filtered(results@, *filters, limit as nat, verdicts, kept@));
        }
        return kept;
    }
    let mut kept: Vec<SearchResult> = Vec::new();
    let ghost mut verdicts: Seq<bool> = Seq::empty();
    for r in it: results
        invariant
            it.seq() == results@,
            forall|i: int| 0 <= i < results.len() ==> filters.answers(&#[trigger] results@[i]),
            verdicts.len() <= it.index(),
            verdicts.len() <= results.len(),
            forall|i: int|
                0 <= i < verdicts.len() ==> filters.decides(&results@[i], #[trigger] verdicts[i]),
            kept@ == accepted(results@, verdicts),
            kept.len() <= limit,
            kept.len() == limit || verdicts.len() == it.index(),
    {
        if kept.len() < limit {
            let matched = filters.matches(&r);
            if matched {
                kept.push(r);
            }
            proof {
                let was = verdicts;
                verdicts = verdicts.push(matched);
                assert(verdicts.drop_last() =~= was);
            }
        }
    }
    proof {
        assert(filtered(results@, *filters, limit as nat, verdicts, kept@));
    }
    kept
}

proof fn lemma_accepted_all<T>(results: Seq<T>, verdicts: Seq<bool>)
    requires
        verdicts.len() <= results.len(),
        forall|i: int| 0 <= i < verdicts.len() ==> #[trigger] verdicts[i],
    ensures
        accepted(results, verdicts) == results.take(verdicts.len() as int),
    decreases verdicts.len(),
{
    if verdicts.len() > 0 {
        lemma_accepted_all(results, verdicts.drop_last());
        assert(verdicts[verdicts.len() - 1]);
        assert(results.take(verdicts.len() as int) =~= results.take(verdicts.len() - 1).push(
            results[verdicts.len() - 1],
        ));
    } else {
        assert(results.take(0) =~= Seq::empty());
    }
}

/// A result that was accepted keeps its place when more are judged.
proof fn lemma_accepted_extends<T>(results: Seq<T>, verdicts: Seq<bool>, n: int)
    requires
        0 <= n <= verdicts.len(),
    ensures
        accepted(results, verdicts.take(n)).len() <= accepted(results, verdicts).len(),
        accepted(results, verdicts.take(n)) == accepted(results, verdicts).take(
            accepted(results, verdicts.take(n)).len() as int,
        ),
    decreases verdicts.len(),
{
    let part = accepted(results, verdicts.take(n));
    let whole = accepted(results, verdicts);
    if n == verdicts.len() {
        assert(verdicts.take(n) =~= verdicts);
        assert(whole.take(whole.len() as int) =~= whole);
    } else {
        lemma_accepted_extends(results, verdicts.drop_last(), n);
        assert(verdicts.drop_last().take(n) =~= verdicts.take(n));
        let before = accepted(results, verdicts.drop_last());
        assert(whole.take(part.len() as int) =~= before.take(part.len() as int));
    }
}

/// What is left by filters is among the results, in their order, and was accepted.
pub proof fn filtered_results_match<F: Fn(&SearchResult) -> bool>(
    results: Seq<SearchResult>,
    filters: SearchFilters<F>,
    limit: nat,
    verdicts: Seq<bool>,
    res: Seq<SearchResult>,
) -> (at: Seq<int>)
    requires
        filtered(results, filters, limit, verdicts, res),
    ensures
        at.len() == res.len(),
        forall|k: int|
            0 <= k < at.len() ==> 0 <= #[trigger] at[k] < results.len() && res[k] == results[at[k]]
                && filters.decides(&res[k], true),
        forall|j: int, k: int| 0 <= j < k < at.len() ==> #[trigger] at[j] < #[trigger] at[k],
{
    let at = lemma_accepted_places(results, verdicts);
    assert forall|k: int| 0 <= k < at.len() implies 0 <= #[trigger] at[k] < results.len() && res[k]
        == results[at[k]] && filters.decides(&res[k], true) by {
        assert(filters.decides(&results[at[k]], verdicts[at[k]]));
    }
    at
}

proof fn lemma_accepted_places<T>(results: Seq<T>, verdicts: Seq<bool>) -> (at: Seq<int>)
    ensures
        at.len() == accepted(results, verdicts).len(),
        forall|k: int|
            0 <= k < at.len() ==> 0 <= #[trigger] at[k] < verdicts.len() && verdicts[at[k]]
                && accepted(results, verdicts)[k] == results[at[k]],
        forall|j: int, k: int| 0 <= j < k < at.len() ==> #[trigger] at[j] < #[trigger] at[k],
    decreases verdicts.len(),
{
    if verdicts.len() == 0 {
        Seq::empty()
    } else {
        let before = lemma_accepted_places(results, verdicts.drop_last());
        if verdicts.last() {
            let at = before.push(verdicts.len() - 1);
            let kept = accepted(results, verdicts.drop_last());
            assert forall|k: int| 0 <= k < at.len() implies 0 <= #[trigger] at[k] < verdicts.len()
                && verdicts[at[k]] && accepted(results, verdicts)[k] == results[at[k]] by {
                if k < before.len() {
                    assert(at[k] == before[k]);
                    assert(kept[k] == results[before[k]]);
                }
            }
            assert forall|j: int, k: int| 0 <= j < k < at.len() implies #[trigger] at[j]
                < #[trigger] at[k] by {
                assert(at[j] == before[j]);
                if k < before.len() {
                    assert(at[k] == before[k]);
                }
            }
            at
        } else {
            assert forall|k: int| 0 <= k < before.len() implies 0 <= #[trigger] before[k]
                < verdicts.len() && verdicts[before[k]] && accepted(results, verdicts)[k]
                == results[before[k]] by {
                assert(verdicts.drop_last()[before[k]]);
            }
            before
        }
    }
}

/// The filters give a result the same verdict whenever they are asked.
pub open spec fn consistent<F: Fn(&SearchResult) -> bool>(filters: SearchFilters<F>) -> bool {
    forall|r: &SearchResult, a: bool, b: bool|
        #![trigger filters.decides(r, a), filters.decides(r, b)]
        filters.decides(r, a) && filters.decides(r, b) ==> a == b
}

/// A smaller limit cuts off the end of what a larger limit leaves.
pub proof fn smaller_limits_give_prefixes<F: Fn(&SearchResult) -> bool>(
    results: Seq<SearchResult>,
    filters: SearchFilters<F>,
    smaller: nat,
    limit: nat,
    fewer_verdicts: Seq<bool>,
    verdicts: Seq<bool>,
    fewer: Seq<SearchResult>,
    res: Seq<SearchResult>,
)
    requires
        consistent(filters),
        smaller <= limit,
        filtered(results, filters, smaller, fewer_verdicts, fewer),
        filtered(results, filters, limit, verdicts, res),
    ensures
        fewer == res.take(
            if smaller < res.len() {
                smaller as int
            } else {
                res.len() as int
            },
        ),
{
    let v = fewer_verdicts;
    let w = verdicts;
    assert forall|i: int| 0 <= i < v.len() && i < w.len() implies v[i] == w[i] by {
        assert(filters.decides(&results[i], v[i]));
        assert(filters.decides(&results[i], w[i]));
    }
    if v.len() <= w.len() {
        assert(w.take(v.len() as int) =~= v);
        lemma_accepted_extends(results, w, v.len() as int);
        if v.len() == results.len() {
            assert(v =~= w);
            assert(res.take(res.len() as int) =~= res);
        }
    } else {
        assert(v.take(w.len() as int) =~= w);
        lemma_accepted_extends(results, v, w.len() as int);
        assert(fewer.take(fewer.len() as int) =~= fewer);
        assert(res.take(res.len() as int) =~= res);
    }
}

/// Filtering a second time changes nothing.
pub proof fn filtering_is_idempotent<F: Fn(&SearchResult) -> bool>(
    results: Seq<SearchResult>,
    filters: SearchFilters<F>,
    limit: nat,
    verdicts: Seq<bool>,
    again_verdicts: Seq<bool>,
    once: Seq<SearchResult>,
    twice: Seq<SearchResult>,
)
    requires
        consistent(filters),
        filtered(results, filters, limit, verdicts, once),
        filtered(once, filters, limit, again_verdicts, twice),
    ensures
        twice == once,
{
    let at = filtered_results_match(results, filters, limit, verdicts, once);
    assert forall|i: int| 0 <= i < again_verdicts.len() implies #[trigger] again_verdicts[i] by {
        assert(0 <= at[i] < results.len());
        assert(filters.decides(&once[i], true));
        assert(filters.decides(&once[i], again_verdicts[i]));
    }
    lemma_accepted_all(once, again_verdicts);
    assert(once.take(once.len() as int) =~= once);
}

/// The bits of one, the weight of every subquery.
pub const ONE: u64 = 0x3ff0_0000_0000_0000;

/// Equal weights for `n` result sets.
pub open spec fn equal_weights(n: nat) -> Seq<Score> {
    Seq::new(n, |i: int| Score { bits: ONE })
}

/// `fused` is what fusion makes of the result sets when all weigh the same.
pub open spec fn fused_equally<
    R: Fn(&[Vec<SearchResult>], &Vec<Score>, Score, usize) -> Vec<SearchResult>,
>(
    result_sets: &[Vec<SearchResult>],
    rrf_k: Score,
    fuse_limit: usize,
    fuse: R,
    fused: Vec<SearchResult>,
) -> bool {
    exists|weights: Vec<Score>|
        weights@ == equal_weights(result_sets@.len()) && #[trigger] call_ensures(
            fuse,
            (result_sets, &weights, rrf_k, fuse_limit),
            fused,
        )
}

/// Merge per-subquery result sets: equally weighted RRF, then exact-match
/// augmentation, then the cut to `result_limit`.
///
/// `fuse_limit` should be `multi_query_candidate_limit(result_limit)` so
/// augmentation has candidates to displace.
pub fn fuse_and_augment_multi_query<
    F,
    E,
    R: Fn(&[Vec<SearchResult>], &Vec<Score>, Score, usize) -> Vec<SearchResult>,
    A: Fn(&[String], Vec<SearchResult>, &SearchFilters<F>, usize) -> Result<Vec<SearchResult>, E>,
>(
    queries: &[String],
    result_sets: &[Vec<SearchResult>],
    filters: &SearchFilters<F>,
    rrf_k: Score,
    fuse_limit: usize,
    result_limit: usize,
    fuse: R,
    augment: A,
) -> (res: Result<Vec<SearchResult>, E>)
    requires
        forall|weights: &Vec<Score>| #[trigger]
            call_requires(fuse, (result_sets, weights, rrf_k, fuse_limit)),
        forall|fused: Vec<SearchResult>| #[trigger]
            call_requires(augment, (queries, fused, filters, result_limit)),
    ensures
        exists|fused: Vec<SearchResult>| #[trigger]
            fused_equally(result_sets, rrf_k, fuse_limit, fuse, fused) && call_ensures(
                augment,
                (queries, fused, filters, result_limit),
                res,
            ),
{
    let mut weights: Vec<Score> = Vec::new();
    let mut i: usize = 0;
    while i < result_sets.len()
        invariant
            i <= result_sets.len(),
            weights@ == equal_weights(i as nat),
        decreases result_sets.len() - i,
    {
        weights.push(Score::from_bits(ONE));
        i = i + 1;
        proof {
            assert(weights@ =~= equal_weights(i as nat));
        }
    }
    let fused = fuse(result_sets, &weights, rrf_k, fuse_limit);
    let ghost all = fused;
    let res = augment(queries, fused, filters, result_limit);
    proof {
        assert(fused_equally(result_sets, rrf_k, fuse_limit, fuse, all));
    }
    res
}

/// What was found out about the indexing configuration that an index was saved with.
#[derive(Debug, Clone, Copy, PartialEq, Eq, Structural)]
pub enum SavedIndexing {
    /// It was read, and holds this cap.
    Decoded { max_file_size_bytes: u64 },
    /// It was read, but could not be decoded.
    Undecodable,
    /// None was saved.
    Absent,
    /// It could not be read.
    Unreadable,
}

/// The file-size cap query-time source reads must honor.
///
/// Indexing records its configuration alongside the index, and retrieval reads
/// files by stored path long after that run, so the recorded cap bounds
/// query-time reads too. Falls back to the default when the metadata is absent or
/// undecodable, mirroring how indexing falls back on unreadable config.
pub fn configured_max_file_size_bytes(saved: SavedIndexing, default_max: u64) -> (res: u64)
    ensures
        saved matches SavedIndexing::Decoded { max_file_size_bytes } ==> res
            == max_file_size_bytes,
        !(saved is Decoded) ==> res == default_max,
{
    match saved {
        SavedIndexing::Decoded { max_file_size_bytes } => max_file_size_bytes,
        SavedIndexing::Undecodable => default_max,
        SavedIndexing::Absent => default_max,
        SavedIndexing::Unreadable => default_max,
    }
}

} // verus!
