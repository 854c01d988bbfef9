//! What ranking a pool is for, in terms of what the heuristics answered and what came
//! out.
use vstd::prelude::*;
use crate::ranking::{any_wants_diversity, apply_query_ranking,
    apply_query_ranking_multi_query, apply_query_ranking_multi_query_with_config,
    apply_query_ranking_with_filters, apply_query_ranking_with_filters_and_config, arranged,
    best_score_is_best, best_scores, file_role_label, finish_ranking, finished, is_ranking,
    lemma_best_len, order_by_score, paired, pool_maximum, pool_maximum_bounds_scores,
    pool_scored, ranked, ranked_for_queries, ranked_for_query, score_pool,
    score_pool_with_config, scored_as, scored_by, scored_by_each, scored_in_steps, Heuristics,
    PoolSteps, QueryScores, RankingStage};
use crate::retrieval::query_texts;
use crate::score::Score;
use crate::types::{result_views, Language, SearchFilters, SearchResult};

verus! {

/// `a` is `b` with another score.
pub open spec fn rescored(a: SearchResult, b: SearchResult, score: Score) -> bool {
    &&& a.file_path@ == b.file_path@
    &&& a.line_start == b.line_start
    &&& a.line_end == b.line_end
    &&& a.content@ == b.content@
    &&& a.language == b.language
    &&& a.score == score
    &&& a.symbol_name is Some <==> b.symbol_name is Some
    &&& a.symbol_name is Some ==> a.symbol_name->0@ == b.symbol_name->0@
    &&& a.symbol_type == b.symbol_type
    &&& a.part_index == b.part_index
}

/// `ordered` are the results that have a score, each once and with its score: the one
/// at `order[k]` comes as the `k`-th. Where all scores are numbers, none stands behind
/// a lower one, and those of the same height stand as they stood.
pub open spec fn put_in_order(
    results: Seq<SearchResult>,
    scores: Seq<Score>,
    ordered: Seq<SearchResult>,
    order: Seq<int>,
) -> bool {
    &&& ordered.len() == order.len()
    &&& order.len() == results.len() || order.len() == scores.len()
    &&& order.len() <= results.len()
    &&& order.len() <= scores.len()
    &&& order.no_duplicates()
    &&& forall|k: int|
        0 <= k < order.len() ==> 0 <= #[trigger] order[k] < order.len() && rescored(
            ordered[k],
            results[order[k]],
            scores[order[k]],
        )
    &&& (forall|i: int| 0 <= i < order.len() ==> !(#[trigger] scores[i]).not_a_number())
        ==> forall|j: int, k: int|
        #![trigger order[j], order[k]]
        0 <= j < k < order.len() ==> !scores[order[k]].above(scores[order[j]]) && (
        scores[order[j]].above(scores[order[k]]) || order[j] < order[k])
}

/// Ordering by score puts the results in order.
pub proof fn outcome_of_ordering(
    results: Vec<SearchResult>,
    scores: &Vec<Score>,
    res: Vec<SearchResult>,
) -> (order: Seq<int>)
    requires
        call_ensures(order_by_score, (results, scores), res),
    ensures
        put_in_order(results@, scores@, res@, order),
{
    let order = choose|order: Seq<int>| #[trigger]
        is_ranking(paired(results@, scores@), order) && result_views(res@) == arranged(
            result_views(results@),
            scores@,
            order,
        );
    lemma_put_in_order(results@, scores@, res@, order);
    order
}

proof fn lemma_put_in_order(
    results: Seq<SearchResult>,
    scores: Seq<Score>,
    ordered: Seq<SearchResult>,
    order: Seq<int>,
)
    requires
        is_ranking(paired(results, scores), order),
        result_views(ordered) == arranged(result_views(results), scores, order),
    ensures
        put_in_order(results, scores, ordered, order),
{
    let pairs = paired(results, scores);
    assert(result_views(ordered).len() == ordered.len());
    assert forall|k: int| 0 <= k < order.len() implies 0 <= #[trigger] order[k] < order.len()
        && rescored(ordered[k], results[order[k]], scores[order[k]]) by {
        let i = order[k];
        assert(result_views(ordered)[k] == ordered[k]@);
        assert(result_views(results)[i] == results[i]@);
        assert(arranged(result_views(results), scores, order)[k].score == scores[i]);
        assert(ordered[k]@.symbol_name == results[i]@.symbol_name);
    }
    if forall|i: int| 0 <= i < order.len() ==> !(#[trigger] scores[i]).not_a_number() {
        assert forall|i: int| 0 <= i < pairs.len() implies !(
        #[trigger] pairs[i]).not_a_number() by {
            assert(pairs[i] == scores[i]);
        }
        assert forall|j: int, k: int|
            #![trigger order[j], order[k]]
            0 <= j < k < order.len() implies !scores[order[k]].above(scores[order[j]]) && (
        scores[order[j]].above(scores[order[k]]) || order[j] < order[k]) by {
            assert(pairs[order[j]] == scores[order[j]]);
            assert(pairs[order[k]] == scores[order[k]]);
        }
    }
}

/// `res` comes of the results by their scores: put in order; where diversity is wanted,
/// and only there, spread over the files; and stamped, however many there are.
pub open spec fn comes_of<H: Heuristics>(
    heuristics: &H,
    results: Seq<SearchResult>,
    scores: Seq<Score>,
    wants_diversity: bool,
    order: Seq<int>,
    ordered: Vec<SearchResult>,
    spread: Vec<SearchResult>,
    res: Vec<SearchResult>,
) -> bool {
    &&& put_in_order(results, scores, ordered@, order)
    &&& wants_diversity ==> call_ensures(H::diversify_by_file, (heuristics, ordered), spread)
    &&& !wants_diversity ==> spread == ordered
    &&& call_ensures(H::stamp_rank_scores, (heuristics, spread), res)
}

/// Finishing a ranking puts the results in order, spreads them where that is wanted,
/// and stamps them.
pub proof fn outcome_of_finishing<H: Heuristics>(
    heuristics: &H,
    results: Vec<SearchResult>,
    scores: Vec<Score>,
    wants_diversity: bool,
    res: Vec<SearchResult>,
)
    requires
        call_ensures(finish_ranking::<H>, (heuristics, results, scores, wants_diversity), res),
    ensures
        exists|order: Seq<int>, ordered: Vec<SearchResult>, spread: Vec<SearchResult>| #[trigger]
            comes_of(
                heuristics,
                results@,
                scores@,
                wants_diversity,
                order,
                ordered,
                spread,
                res,
            ),
{
    assert(ranked(heuristics, results@, scores@, wants_diversity, res));
    lemma_comes_of(heuristics, results@, scores@, wants_diversity, res);
}

proof fn lemma_comes_of<H: Heuristics>(
    heuristics: &H,
    results: Seq<SearchResult>,
    scores: Seq<Score>,
    wants_diversity: bool,
    res: Vec<SearchResult>,
)
    requires
        ranked(heuristics, results, scores, wants_diversity, res),
    ensures
        exists|order: Seq<int>, ordered: Vec<SearchResult>, spread: Vec<SearchResult>| #[trigger]
            comes_of(heuristics, results, scores, wants_diversity, order, ordered, spread, res),
{
    let (order, ordered, spread) = choose|
        order: Seq<int>,
        ordered: Vec<SearchResult>,
        spread: Vec<SearchResult>,
    | #[trigger]
        finished(heuristics, results, scores, wants_diversity, order, ordered, spread, res);
    lemma_put_in_order(results, scores, ordered@, order);
    assert(comes_of(
        heuristics,
        results,
        scores,
        wants_diversity,
        order,
        ordered,
        spread,
        res,
    ));
}

/// `maximum` is the greatest of one millionth and the scores that are numbers.
pub open spec fn greatest_of_pool(scores: Seq<Score>, maximum: Score) -> bool {
    let millionth = Score { bits: 0x3eb0_c6f7_a0b5_ed8d };
    &&& !maximum.not_a_number()
    &&& !millionth.above(maximum)
    &&& forall|i: int| 0 <= i < scores.len() ==> !(#[trigger] scores[i]).above(maximum)
    &&& maximum == millionth || scores.contains(maximum)
}

/// The scores of a pool come about in this order: one for each result by rank and
/// prior; the coherence boost; the path boost, the content boost and the path penalty,
/// each exactly where it is switched on. Every boost is told the greatest of the first
/// scores.
pub open spec fn scores_come_about<H: Heuristics>(
    heuristics: &H,
    features: &H::Features,
    stage: RankingStage,
    filters: &SearchFilters<H::Predicate>,
    results: &Vec<SearchResult>,
    config: &H::Config,
    maximum: Score,
    steps: PoolSteps,
    scores: Vec<Score>,
) -> bool {
    let on = steps.switches;
    &&& scores.len() == results.len()
    &&& steps.initial.len() == results.len()
    &&& call_ensures(H::ranking_config, (heuristics, config), on)
    &&& forall|i: usize|
        i < results.len() ==> call_ensures(
            H::rank_and_prior,
            (heuristics, features, i, results, stage, filters, config),
            #[trigger] steps.initial@[i as int],
        )
    &&& greatest_of_pool(steps.initial@, maximum)
    &&& call_ensures(
        H::apply_coherence_boost,
        (heuristics, features, steps.initial, results, maximum),
        steps.coherent,
    )
    &&& on.filename_stem_boost ==> call_ensures(
        H::apply_keyword_path_boost,
        (heuristics, features, steps.coherent, results, maximum, config),
        steps.by_path,
    )
    &&& !on.filename_stem_boost ==> steps.by_path == steps.coherent
    &&& on.definition_boost ==> call_ensures(
        H::apply_content_symbol_boost,
        (heuristics, features, steps.by_path, results, maximum),
        steps.by_content,
    )
    &&& !on.definition_boost ==> steps.by_content == steps.by_path
    &&& on.multiplicative_path_penalty ==> call_ensures(
        H::apply_multiplicative_path_penalty,
        (heuristics, features, steps.by_content, results),
        scores,
    )
    &&& !on.multiplicative_path_penalty ==> scores == steps.by_content
}

/// The scores of a pool come about by rank and prior, boosts and penalty.
pub proof fn outcome_of_scoring<H: Heuristics>(
    heuristics: &H,
    features: &H::Features,
    stage: RankingStage,
    filters: &SearchFilters<H::Predicate>,
    results: &Vec<SearchResult>,
    config: &H::Config,
    res: Vec<Score>,
)
    requires
        call_ensures(
            score_pool_with_config::<H>,
            (heuristics, features, stage, filters, results, config),
            res,
        ),
    ensures
        exists|maximum: Score, steps: PoolSteps| #[trigger]
            scores_come_about(
                heuristics,
                features,
                stage,
                filters,
                results,
                config,
                maximum,
                steps,
                res,
            ),
{
    assert(pool_scored(heuristics, features, stage, filters, results, config, res));
    lemma_scores_come_about(heuristics, features, stage, filters, results, config, res);
}

/// Without a configuration the scores come about under the default one.
pub proof fn outcome_of_scoring_by_default<H: Heuristics>(
    heuristics: &H,
    features: &H::Features,
    stage: RankingStage,
    filters: &SearchFilters<H::Predicate>,
    results: &Vec<SearchResult>,
    res: Vec<Score>,
)
    requires
        call_ensures(score_pool::<H>, (heuristics, features, stage, filters, results), res),
    ensures
        exists|config: H::Config, maximum: Score, steps: PoolSteps|
            #![trigger scores_come_about(heuristics, features, stage, filters, results, &config, maximum, steps, res)]
            call_ensures(H::Config::default, (), config) && scores_come_about(
                heuristics,
                features,
                stage,
                filters,
                results,
                &config,
                maximum,
                steps,
                res,
            ),
{
    let config = choose|config: H::Config| #[trigger]
        call_ensures(H::Config::default, (), config) && pool_scored(
            heuristics,
            features,
            stage,
            filters,
            results,
            &config,
            res,
        );
    lemma_scores_come_about(heuristics, features, stage, filters, results, &config, res);
}

proof fn lemma_scores_come_about<H: Heuristics>(
    heuristics: &H,
    features: &H::Features,
    stage: RankingStage,
    filters: &SearchFilters<H::Predicate>,
    results: &Vec<SearchResult>,
    config: &H::Config,
    res: Vec<Score>,
)
    requires
        pool_scored(heuristics, features, stage, filters, results, config, res),
    ensures
        exists|maximum: Score, steps: PoolSteps| #[trigger]
            scores_come_about(
                heuristics,
                features,
                stage,
                filters,
                results,
                config,
                maximum,
                steps,
                res,
            ),
{
    let steps = choose|steps: PoolSteps| #[trigger]
        scored_in_steps(heuristics, features, stage, filters, results, config, steps, res);
    pool_maximum_bounds_scores(steps.initial@);
    let maximum = pool_maximum(steps.initial@);
    assert(scores_come_about(
        heuristics,
        features,
        stage,
        filters,
        results,
        config,
        maximum,
        steps,
        res,
    ));
}

/// `scores` and `wants_diversity` are what a query with this text makes of the pool.
pub open spec fn asked<H: Heuristics>(
    heuristics: &H,
    text: Seq<char>,
    stage: RankingStage,
    filters: &SearchFilters<H::Predicate>,
    results: &Vec<SearchResult>,
    config: &H::Config,
    outcome: QueryScores,
) -> bool {
    exists|query: &str, features: H::Features, maximum: Score, steps: PoolSteps|
        #![trigger call_ensures(H::query_features, (heuristics, query), features), scores_come_about(heuristics, &features, stage, filters, results, config, maximum, steps, outcome.scores)]
        {
            &&& query@ == text
            &&& call_ensures(H::query_features, (heuristics, query), features)
            &&& call_ensures(
                H::wants_multi_file_diversity,
                (heuristics, &features),
                outcome.wants_diversity,
            )
            &&& scores_come_about(
                heuristics,
                &features,
                stage,
                filters,
                results,
                config,
                maximum,
                steps,
                outcome.scores,
            )
        }
}

proof fn lemma_asked<H: Heuristics>(
    heuristics: &H,
    text: Seq<char>,
    stage: RankingStage,
    filters: &SearchFilters<H::Predicate>,
    results: &Vec<SearchResult>,
    config: &H::Config,
    outcome: QueryScores,
)
    requires
        scored_by(heuristics, text, results, stage, filters, config, outcome),
    ensures
        asked(heuristics, text, stage, filters, results, config, outcome),
{
    let (query, features) = choose|query: &str, features: H::Features|
        query@ == text && #[trigger] scored_as(
            heuristics,
            query,
            features,
            results,
            stage,
            filters,
            config,
            outcome,
        );
    lemma_scores_come_about(
        heuristics,
        &features,
        stage,
        filters,
        results,
        config,
        outcome.scores,
    );
    assert(call_ensures(H::query_features, (heuristics, query), features));
}

/// `res` is what one query makes of a pool. A pool of at most one result stays as it
/// is; any other is scored, put in order by the scores, spread where the query wants
/// it, and stamped.
pub open spec fn ranks_for<H: Heuristics>(
    heuristics: &H,
    text: Seq<char>,
    results: Vec<SearchResult>,
    stage: RankingStage,
    filters: &SearchFilters<H::Predicate>,
    config: &H::Config,
    res: Vec<SearchResult>,
) -> bool {
    &&& results@.len() <= 1 ==> res == results
    &&& results@.len() > 1 ==> exists|
        outcome: QueryScores,
        order: Seq<int>,
        ordered: Vec<SearchResult>,
        spread: Vec<SearchResult>,
    |
        #![trigger comes_of(heuristics, results@, outcome.scores@, outcome.wants_diversity, order, ordered, spread, res)]
        asked(heuristics, text, stage, filters, &results, config, outcome) && comes_of(
            heuristics,
            results@,
            outcome.scores@,
            outcome.wants_diversity,
            order,
            ordered,
            spread,
            res,
        )
}

proof fn lemma_ranks_for<H: Heuristics>(
    heuristics: &H,
    text: Seq<char>,
    results: Vec<SearchResult>,
    stage: RankingStage,
    filters: &SearchFilters<H::Predicate>,
    config: &H::Config,
    res: Vec<SearchResult>,
)
    requires
        ranked_for_query(heuristics, text, results, stage, filters, config, res),
    ensures
        ranks_for(heuristics, text, results, stage, filters, config, res),
{
    if results.len() > 1 {
        let outcome = choose|outcome: QueryScores| #[trigger]
            scored_by(heuristics, text, &results, stage, filters, config, outcome) && ranked(
                heuristics,
                results@,
                outcome.scores@,
                outcome.wants_diversity,
                res,
            );
        lemma_asked(heuristics, text, stage, filters, &results, config, outcome);
        lemma_comes_of(
            heuristics,
            results@,
            outcome.scores@,
            outcome.wants_diversity,
            res,
        );
    }
}

/// Ranking for one query.
pub proof fn outcome_of_ranking<H: Heuristics>(
    heuristics: &H,
    query: &str,
    results: Vec<SearchResult>,
    stage: RankingStage,
    filters: &SearchFilters<H::Predicate>,
    config: &H::Config,
    res: Vec<SearchResult>,
)
    requires
        call_ensures(
            apply_query_ranking_with_filters_and_config::<H>,
            (heuristics, query, results, stage, filters, config),
            res,
        ),
    ensures
        ranks_for(heuristics, query@, results, stage, filters, config, res),
{
    assert(ranked_for_query(heuristics, query@, results, stage, filters, config, res));
    lemma_ranks_for(heuristics, query@, results, stage, filters, config, res);
}

/// Ranking for one query, without a configuration and without filters.
pub proof fn outcome_of_ranking_by_default<H: Heuristics>(
    heuristics: &H,
    query: &str,
    results: Vec<SearchResult>,
    stage: RankingStage,
    filters: &SearchFilters<H::Predicate>,
    filtered: Vec<SearchResult>,
    plain: Vec<SearchResult>,
)
    requires
        call_ensures(
            apply_query_ranking_with_filters::<H>,
            (heuristics, query, results, stage, filters),
            filtered,
        ),
        call_ensures(apply_query_ranking::<H>, (heuristics, query, results, stage), plain),
    ensures
        exists|config: H::Config| #[trigger]
            call_ensures(H::Config::default, (), config) && ranks_for(
                heuristics,
                query@,
                results,
                stage,
                filters,
                &config,
                filtered,
            ),
        exists|config: H::Config| #[trigger]
            call_ensures(H::Config::default, (), config) && ranks_for(
                heuristics,
                query@,
                results,
                stage,
                &(SearchFilters::<H::Predicate> { predicate: None }),
                &config,
                plain,
            ),
{
    let a = choose|config: H::Config| #[trigger]
        call_ensures(H::Config::default, (), config) && ranked_for_query(
            heuristics,
            query@,
            results,
            stage,
            filters,
            &config,
            filtered,
        );
    lemma_ranks_for(heuristics, query@, results, stage, filters, &a, filtered);
    let none = SearchFilters::<H::Predicate> { predicate: None };
    let b = choose|config: H::Config| #[trigger]
        call_ensures(H::Config::default, (), config) && ranked_for_query(
            heuristics,
            query@,
            results,
            stage,
            &none,
            &config,
            plain,
        );
    lemma_ranks_for(heuristics, query@, results, stage, &none, &b, plain);
}

/// `best` are the best scores of the results over all outcomes: none is beaten, and
/// each is the score of that result under one of the queries, or negative infinity
/// where no query gave it a number.
pub open spec fn best_of_each(
    outcomes: Seq<QueryScores>,
    results: Seq<SearchResult>,
    best: Seq<Score>,
) -> bool {
    &&& best.len() == results.len()
    &&& forall|i: int|
        0 <= i < best.len() ==> {
            &&& !(#[trigger] best[i]).not_a_number()
            &&& forall|q: int|
                0 <= q < outcomes.len() ==> !(#[trigger] outcomes[q]).scores@[i].above(best[i])
            &&& best[i].bits == 0xfff0_0000_0000_0000 || exists|q: int|
                0 <= q < outcomes.len() && (#[trigger] outcomes[q]).scores@[i] == best[i]
        }
}

/// `res` is what the queries make of a pool together. Without a query, and with at
/// most one result, it stays as it is. Any other pool is scored under every query, put
/// in order by the best score of each result, spread where one of the queries wants
/// it, and stamped.
pub open spec fn ranks_for_all<H: Heuristics>(
    heuristics: &H,
    queries: Seq<String>,
    results: Vec<SearchResult>,
    stage: RankingStage,
    filters: &SearchFilters<H::Predicate>,
    config: &H::Config,
    res: Vec<SearchResult>,
) -> bool {
    &&& queries.len() == 0 || results@.len() <= 1 ==> res == results
    &&& queries.len() > 0 && results@.len() > 1 ==> exists|
        outcomes: Seq<QueryScores>,
        best: Seq<Score>,
        wants_diversity: bool,
        order: Seq<int>,
        ordered: Vec<SearchResult>,
        spread: Vec<SearchResult>,
    |
        #![trigger best_of_each(outcomes, results@, best), comes_of(heuristics, results@, best, wants_diversity, order, ordered, spread, res)]
        {
            &&& outcomes.len() == queries.len()
            &&& forall|k: int|
                0 <= k < queries.len() ==> asked(
                    heuristics,
                    queries[k]@,
                    stage,
                    filters,
                    &results,
                    config,
                    #[trigger] outcomes[k],
                )
            &&& best_of_each(outcomes, results@, best)
            &&& wants_diversity <==> exists|k: int|
                0 <= k < outcomes.len() && (#[trigger] outcomes[k]).wants_diversity
            &&& comes_of(
                heuristics,
                results@,
                best,
                wants_diversity,
                order,
                ordered,
                spread,
                res,
            )
        }
}

proof fn lemma_ranks_for_all<H: Heuristics>(
    heuristics: &H,
    queries: Seq<String>,
    results: Vec<SearchResult>,
    stage: RankingStage,
    filters: &SearchFilters<H::Predicate>,
    config: &H::Config,
    res: Vec<SearchResult>,
)
    requires
        ranked_for_queries(
            heuristics,
            query_texts(queries),
            results,
            stage,
            filters,
            config,
            res,
        ),
    ensures
        ranks_for_all(heuristics, queries, results, stage, filters, config, res),
{
    let texts = query_texts(queries);
    assert(texts.len() == queries.len());
    if queries.len() > 0 && results.len() > 1 {
        let len = results.len() as nat;
        let outcomes = choose|outcomes: Seq<QueryScores>| #[trigger]
            scored_by_each(heuristics, texts, &results, stage, filters, config, outcomes)
                && ranked(
                heuristics,
                results@,
                best_scores(outcomes, len),
                any_wants_diversity(outcomes),
                res,
            );
        assert forall|k: int| 0 <= k < queries.len() implies asked(
            heuristics,
            queries[k]@,
            stage,
            filters,
            &results,
            config,
            #[trigger] outcomes[k],
        ) by {
            assert(texts[k] == queries[k]@);
            lemma_asked(heuristics, texts[k], stage, filters, &results, config, outcomes[k]);
        }
        let best = best_scores(outcomes, len);
        lemma_best_len(outcomes, len);
        assert forall|q: int| 0 <= q < outcomes.len() implies (
        #[trigger] outcomes[q]).scores.len() == len by {
            assert(asked(
                heuristics,
                queries[q]@,
                stage,
                filters,
                &results,
                config,
                outcomes[q],
            ));
        }
        assert forall|i: int| 0 <= i < best.len() implies {
            &&& !(#[trigger] best[i]).not_a_number()
            &&& forall|q: int|
                0 <= q < outcomes.len() ==> !(#[trigger] outcomes[q]).scores@[i].above(best[i])
            &&& best[i].bits == 0xfff0_0000_0000_0000 || exists|q: int|
                0 <= q < outcomes.len() && (#[trigger] outcomes[q]).scores@[i] == best[i]
        } by {
            best_score_is_best(outcomes, len, i);
        }
        assert(best_of_each(outcomes, results@, best));
        lemma_comes_of(heuristics, results@, best, any_wants_diversity(outcomes), res);
    }
}

/// Ranking for several queries.
pub proof fn outcome_of_multi_query_ranking<H: Heuristics>(
    heuristics: &H,
    queries: &[String],
    results: Vec<SearchResult>,
    stage: RankingStage,
    filters: &SearchFilters<H::Predicate>,
    config: &H::Config,
    res: Vec<SearchResult>,
)
    requires
        call_ensures(
            apply_query_ranking_multi_query_with_config::<H>,
            (heuristics, queries, results, stage, filters, config),
            res,
        ),
    ensures
        ranks_for_all(heuristics, queries@, results, stage, filters, config, res),
{
    assert(ranked_for_queries(
        heuristics,
        query_texts(queries@),
        results,
        stage,
        filters,
        config,
        res,
    ));
    lemma_ranks_for_all(heuristics, queries@, results, stage, filters, config, res);
}

/// Ranking for several queries, without a configuration.
pub proof fn outcome_of_multi_query_ranking_by_default<H: Heuristics>(
    heuristics: &H,
    queries: &[String],
    results: Vec<SearchResult>,
    stage: RankingStage,
    filters: &SearchFilters<H::Predicate>,
    res: Vec<SearchResult>,
)
    requires
        call_ensures(
            apply_query_ranking_multi_query::<H>,
            (heuristics, queries, results, stage, filters),
            res,
        ),
    ensures
        exists|config: H::Config| #[trigger]
            call_ensures(H::Config::default, (), config) && ranks_for_all(
                heuristics,
                queries@,
                results,
                stage,
                filters,
                &config,
                res,
            ),
{
    let config = choose|config: H::Config| #[trigger]
        call_ensures(H::Config::default, (), config) && ranked_for_queries(
            heuristics,
            query_texts(queries@),
            results,
            stage,
            filters,
            &config,
            res,
        );
    lemma_ranks_for_all(heuristics, queries@, results, stage, filters, &config, res);
}

/// The label of a file's role is the label of the class of its path.
pub proof fn outcome_of_labelling<K, P: Fn(&str, Language) -> K, L: Fn(K) -> &'static str>(
    file_path: &str,
    language: Language,
    classify_path: P,
    content_class_label: L,
    res: &'static str,
)
    requires
        call_ensures(
            file_role_label::<K, P, L>,
            (file_path, language, classify_path, content_class_label),
            res,
        ),
    ensures
        exists|class: K| #[trigger]
            call_ensures(classify_path, (file_path, language), class) && call_ensures(
                content_class_label,
                (class,),
                res,
            ),
{
}

} // verus!
