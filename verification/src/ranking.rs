//! Query-aware ranking heuristics layered on top of dense + lexical retrieval.
//!
//! How a pool of results is scored, which score counts where several queries are
//! asked at once, and how scores put the results in order. What a heuristic adds
//! to a score is computed outside, by what implements [`Heuristics`].
use vstd::prelude::*;
use crate::retrieval::query_texts;
use crate::score::{beyond_is_total, largest, largest_bounds_all, max_of, Score};
use crate::types::{result_views, Language, ResultView, SearchFilters, SearchResult};

verus! {

/// When in the pipeline the ranking is done.
#[derive(Debug, Clone, Copy, PartialEq, Eq, Structural)]
pub enum RankingStage {
    Initial,
    PostRerank,
}

/// Which of the heuristics that can be switched off are on.
#[derive(Debug, Clone, Copy, PartialEq, Eq, Structural)]
pub struct RankingConfig {
    /// The boost for paths whose stem holds a keyword of the query.
    pub filename_stem_boost: bool,
    /// The boost for content that defines a symbol of the query.
    pub definition_boost: bool,
    /// The penalty for paths that the query does not ask for.
    pub multiplicative_path_penalty: bool,
}

/// What one query makes of a pool of results.
#[derive(Debug)]
pub struct QueryScores {
    /// The score of each result.
    pub scores: Vec<Score>,
    /// Whether the query asks for results from different files.
    pub wants_diversity: bool,
}

/// What a search engine makes of its queries and of pools of results.
///
/// The heuristics compute on scores as numbers. When they are asked, in which order,
/// and what becomes of their answers is decided by the functions of this module.
pub trait Heuristics {
    /// What a query asks for.
    type Features;

    /// How the engine is configured.
    type Config: Default;

    /// What a filter tests a result with.
    type Predicate;

    /// What `query` asks for.
    fn query_features(&self, query: &str) -> Self::Features;

    /// Whether the query asks for results from different files.
    fn wants_multi_file_diversity(&self, features: &Self::Features) -> bool;

    /// Which of the heuristics are on.
    fn ranking_config(&self, config: &Self::Config) -> RankingConfig;

    /// What the result at `index` of the pool scores by its rank there and its prior.
    fn rank_and_prior(
        &self,
        features: &Self::Features,
        index: usize,
        results: &Vec<SearchResult>,
        stage: RankingStage,
        filters: &SearchFilters<Self::Predicate>,
        config: &Self::Config,
    ) -> Score
        requires
            index < results.len(),
    ;

    /// The scores of the pool after the boost for results that belong together.
    fn apply_coherence_boost(
        &self,
        features: &Self::Features,
        scores: Vec<Score>,
        results: &Vec<SearchResult>,
        max_score: Score,
    ) -> Vec<Score>
        requires
            scores.len() == results.len(),
    ;

    /// The scores of the pool after the boost for paths that hold a keyword.
    fn apply_keyword_path_boost(
        &self,
        features: &Self::Features,
        scores: Vec<Score>,
        results: &Vec<SearchResult>,
        max_score: Score,
        config: &Self::Config,
    ) -> Vec<Score>
        requires
            scores.len() == results.len(),
    ;

    /// The scores of the pool after the boost for content that defines a symbol.
    fn apply_content_symbol_boost(
        &self,
        features: &Self::Features,
        scores: Vec<Score>,
        results: &Vec<SearchResult>,
        max_score: Score,
    ) -> Vec<Score>
        requires
            scores.len() == results.len(),
    ;

    /// The scores of the pool after the penalty for paths.
    fn apply_multiplicative_path_penalty(
        &self,
        features: &Self::Features,
        scores: Vec<Score>,
        results: &Vec<SearchResult>,
    ) -> Vec<Score>
        requires
            scores.len() == results.len(),
    ;

    /// The results spread over the files.
    fn diversify_by_file(&self, results: Vec<SearchResult>) -> Vec<SearchResult>;

    /// The results with the scores of their ranks.
    fn stamp_rank_scores(&self, results: Vec<SearchResult>) -> Vec<SearchResult>;
}

/// The bits of one millionth, the least that a pool's best score counts as.
pub const LEAST_MAXIMUM: u64 = 0x3eb0_c6f7_a0b5_ed8d;

/// The pool's best score, by which boosts are scaled: the largest of zero, one
/// millionth and the scores.
pub open spec fn pool_maximum(scores: Seq<Score>) -> Score {
    largest(Score { bits: 0 }, scores).larger(Score { bits: LEAST_MAXIMUM })
}

/// The boosts and the penalty leave one score for each result.
pub open spec fn keeps_lengths<H: Heuristics>(heuristics: &H) -> bool {
    &&& forall|
        f: &H::Features,
        s: Vec<Score>,
        r: &Vec<SearchResult>,
        m: Score,
        out: Vec<Score>,
    | #[trigger]
        call_ensures(H::apply_coherence_boost, (heuristics, f, s, r, m), out) && s.len() == r.len()
            ==> out.len() == r.len()
    &&& forall|
        f: &H::Features,
        s: Vec<Score>,
        r: &Vec<SearchResult>,
        m: Score,
        c: &H::Config,
        out: Vec<Score>,
    | #[trigger]
        call_ensures(H::apply_keyword_path_boost, (heuristics, f, s, r, m, c), out) && s.len()
            == r.len() ==> out.len() == r.len()
    &&& forall|
        f: &H::Features,
        s: Vec<Score>,
        r: &Vec<SearchResult>,
        m: Score,
        out: Vec<Score>,
    | #[trigger]
        call_ensures(H::apply_content_symbol_boost, (heuristics, f, s, r, m), out) && s.len()
            == r.len() ==> out.len() == r.len()
    &&& forall|f: &H::Features, s: Vec<Score>, r: &Vec<SearchResult>, out: Vec<Score>| #[trigger]
        call_ensures(H::apply_multiplicative_path_penalty, (heuristics, f, s, r), out) && s.len()
            == r.len() ==> out.len() == r.len()
}

/// The scores of a pool on their way through the heuristics.
pub struct PoolSteps {
    /// Which heuristics are on.
    pub switches: RankingConfig,
    /// By rank and prior.
    pub initial: Vec<Score>,
    /// After the coherence boost.
    pub coherent: Vec<Score>,
    /// After the keyword path boost, where it is on.
    pub by_path: Vec<Score>,
    /// After the content symbol boost, where it is on.
    pub by_content: Vec<Score>,
}

/// How scoring a pool goes: the scores by rank and prior first; the boosts that are
/// on follow one another, each scaled by the best of the first scores; the penalty,
/// where it is on, comes last. There is one score for each result.
pub open spec fn scored_in_steps<H: Heuristics>(
    heuristics: &H,
    features: &H::Features,
    stage: RankingStage,
    filters: &SearchFilters<H::Predicate>,
    results: &Vec<SearchResult>,
    config: &H::Config,
    steps: PoolSteps,
    res: Vec<Score>,
) -> bool {
    let maximum = pool_maximum(steps.initial@);
    &&& call_ensures(H::ranking_config, (heuristics, config), steps.switches)
    &&& steps.initial.len() == results.len()
    &&& forall|i: usize|
        i < results.len() ==> call_ensures(
            H::rank_and_prior,
            (heuristics, features, i, results, stage, filters, config),
            #[trigger] steps.initial@[i as int],
        )
    &&& call_ensures(
        H::apply_coherence_boost,
        (heuristics, features, steps.initial, results, maximum),
        steps.coherent,
    )
    &&& if steps.switches.filename_stem_boost {
        call_ensures(
            H::apply_keyword_path_boost,
            (heuristics, features, steps.coherent, results, maximum, config),
            steps.by_path,
        )
    } else {
        steps.by_path == steps.coherent
    }
    &&& if steps.switches.definition_boost {
        call_ensures(
            H::apply_content_symbol_boost,
            (heuristics, features, steps.by_path, results, maximum),
            steps.by_content,
        )
    } else {
        steps.by_content == steps.by_path
    }
    &&& if steps.switches.multiplicative_path_penalty {
        call_ensures(
            H::apply_multiplicative_path_penalty,
            (heuristics, features, steps.by_content, results),
            res,
        )
    } else {
        res == steps.by_content
    }
    &&& res.len() == results.len()
}

/// `res` are scores of the pool under a query's features.
pub open spec fn pool_scored<H: Heuristics>(
    heuristics: &H,
    features: &H::Features,
    stage: RankingStage,
    filters: &SearchFilters<H::Predicate>,
    results: &Vec<SearchResult>,
    config: &H::Config,
    res: Vec<Score>,
) -> bool {
    exists|steps: PoolSteps| #[trigger]
        scored_in_steps(heuristics, features, stage, filters, results, config, steps, res)
}

/// Score every pool entry under one query's features: retrieval position
/// (base rank), additive priors, then pool-relative boosts scaled by the
/// pool's best combined score so signal strength tracks retrieval confidence.
pub fn score_pool_with_config<H: Heuristics>(
    heuristics: &H,
    features: &H::Features,
    stage: RankingStage,
    filters: &SearchFilters<H::Predicate>,
    results: &Vec<SearchResult>,
    config: &H::Config,
) -> (res: Vec<Score>)
    requires
        keeps_lengths(heuristics),
    ensures
        res.len() == results.len(),
        pool_scored(heuristics, features, stage, filters, results, config, res),
{
    let switches = heuristics.ranking_config(config);
    let mut initial: Vec<Score> = Vec::new();
    let mut i: usize = 0;
    while i < results.len()
        invariant
            i <= results.len(),
            initial.len() == i,
            forall|k: usize|
                k < i ==> call_ensures(
                    H::rank_and_prior,
                    (heuristics, features, k, results, stage, filters, config),
                    #[trigger] initial@[k as int],
                ),
        decreases results.len() - i,
    {
        initial.push(heuristics.rank_and_prior(features, i, results, stage, filters, config));
        i = i + 1;
    }
    let maximum = max_of(Score::zero(), &initial).max(Score { bits: LEAST_MAXIMUM });
    let ghost first = initial;
    let coherent = heuristics.apply_coherence_boost(features, initial, results, maximum);
    let ghost second = coherent;
    let by_path = if switches.filename_stem_boost {
        heuristics.apply_keyword_path_boost(features, coherent, results, maximum, config)
    } else {
        coherent
    };
    let ghost third = by_path;
    let by_content = if switches.definition_boost {
        heuristics.apply_content_symbol_boost(features, by_path, results, maximum)
    } else {
        by_path
    };
    let ghost fourth = by_content;
    let res = if switches.multiplicative_path_penalty {
        heuristics.apply_multiplicative_path_penalty(features, by_content, results)
    } else {
        by_content
    };
    proof {
        let steps = PoolSteps {
            switches,
            initial: first,
            coherent: second,
            by_path: third,
            by_content: fourth,
        };
        assert(scored_in_steps(
            heuristics,
            features,
            stage,
            filters,
            results,
            config,
            steps,
            res,
        ));
    }
    res
}

/// Score every pool entry under one query's features and the default configuration.
pub fn score_pool<H: Heuristics>(
    heuristics: &H,
    features: &H::Features,
    stage: RankingStage,
    filters: &SearchFilters<H::Predicate>,
    results: &Vec<SearchResult>,
) -> (res: Vec<Score>)
    requires
        keeps_lengths(heuristics),
    ensures
        res.len() == results.len(),
        exists|config: H::Config| #[trigger]
            call_ensures(H::Config::default, (), config) && pool_scored(
                heuristics,
                features,
                stage,
                filters,
                results,
                &config,
                res,
            ),
{
    let config = H::Config::default();
    score_pool_with_config(heuristics, features, stage, filters, results, &config)
}

/// The pool's best score is a number, at least one millionth, no score is above it,
/// and it is one of the scores or one millionth.
pub proof fn pool_maximum_bounds_scores(scores: Seq<Score>)
    ensures
        !pool_maximum(scores).not_a_number(),
        !(Score { bits: LEAST_MAXIMUM }).above(pool_maximum(scores)),
        forall|i: int| 0 <= i < scores.len() ==> !(#[trigger] scores[i]).above(pool_maximum(scores)),
        scores.contains(pool_maximum(scores)) || pool_maximum(scores).bits == LEAST_MAXIMUM,
{
    largest_bounds_all(Score { bits: 0 }, scores);
    let best = largest(Score { bits: 0 }, scores);
    assert forall|i: int| 0 <= i < scores.len() implies !(#[trigger] scores[i]).above(
        pool_maximum(scores),
    ) by {
        assert(!scores[i].above(best));
    }
}

/// Every score is a number.
pub open spec fn all_numbers(scores: Seq<Score>) -> bool {
    forall|i: int| 0 <= i < scores.len() ==> !(#[trigger] scores[i]).not_a_number()
}

/// The result at `i` comes before the one at `j`: its score is above the other's,
/// or the other's is not above and it stood before.
pub open spec fn precedes(scores: Seq<Score>, i: int, j: int) -> bool {
    scores[i].above(scores[j]) || (!scores[j].above(scores[i]) && i < j)
}

/// `order` lists every place once, and where all scores are numbers, by descending
/// score and equal scores as they stood.
pub open spec fn is_ranking(scores: Seq<Score>, order: Seq<int>) -> bool {
    &&& order.len() == scores.len()
    &&& forall|k: int| 0 <= k < order.len() ==> 0 <= #[trigger] order[k] < scores.len()
    &&& forall|i: int| 0 <= i < scores.len() ==> #[trigger] order.contains(i)
    &&& forall|j: int, k: int|
        0 <= j < k < order.len() ==> #[trigger] order[j] != #[trigger] order[k]
    &&& all_numbers(scores) ==> forall|j: int, k: int|
        0 <= j < k < order.len() ==> precedes(scores, #[trigger] order[j], #[trigger] order[k])
}

/// The results in the given order, each with its score.
pub open spec fn arranged(
    results: Seq<ResultView>,
    scores: Seq<Score>,
    order: Seq<int>,
) -> Seq<ResultView> {
    order.map_values(|i: int| ResultView { score: scores[i], ..results[i] })
}

/// As many of the scores as there are results.
pub open spec fn paired(results: Seq<SearchResult>, scores: Seq<Score>) -> Seq<Score> {
    if scores.len() <= results.len() {
        scores
    } else {
        scores.take(results.len() as int)
    }
}

/// A ranking stays one when the next place is put before the first score that its
/// own is above.
proof fn lemma_insert_ranked(scores: Seq<Score>, n: int, order: Seq<int>, at: int)
    requires
        0 <= n < scores.len(),
        is_ranking(scores.take(n), order),
        0 <= at <= order.len(),
        forall|k: int| 0 <= k < at ==> !scores[n].above(scores[#[trigger] order[k]]),
        at < order.len() ==> scores[n].above(scores[order[at]]),
    ensures
        is_ranking(scores.take(n + 1), order.insert(at, n)),
{
    let before = scores.take(n);
    let after = scores.take(n + 1);
    let now = order.insert(at, n);
    assert forall|k: int| 0 <= k < now.len() implies 0 <= #[trigger] now[k] < after.len() && (k < at
        ==> now[k] == order[k]) && (k > at ==> now[k] == order[k - 1]) && (k == at ==> now[k]
        == n) by {}
    assert forall|i: int| 0 <= i < after.len() implies #[trigger] now.contains(i) by {
        if i == n {
            assert(now[at] == n);
        } else {
            assert(order.contains(i));
            let k = choose|k: int| 0 <= k < order.len() && order[k] == i;
            if k < at {
                assert(now[k] == i);
            } else {
                assert(now[k + 1] == i);
            }
        }
    }
    assert forall|j: int, k: int| 0 <= j < k < now.len() implies #[trigger] now[j]
        != #[trigger] now[k] by {
        let a = if j < at {
            j
        } else {
            j - 1
        };
        let b = if k < at {
            k
        } else {
            k - 1
        };
        if j != at && k != at {
            assert(order[a] != order[b]);
        }
    }
    if all_numbers(after) {
        assert forall|i: int| 0 <= i < before.len() implies !(
        #[trigger] before[i]).not_a_number() by {
            assert(before[i] == after[i]);
        }
        assert(!after[n].not_a_number());
        assert forall|j: int, k: int| 0 <= j < k < now.len() implies precedes(
            after,
            #[trigger] now[j],
            #[trigger] now[k],
        ) by {
            if j == at {
                let p = order[at];
                let q = order[k - 1];
                if at < k - 1 {
                    assert(precedes(before, p, q));
                }
                assert(!before[q].not_a_number());
                assert(before[p] == after[p] && before[q] == after[q]);
            } else if k == at {
                assert(!scores[n].above(scores[order[j]]));
                assert(after[order[j]] == scores[order[j]]);
            } else {
                let a = if j < at {
                    j
                } else {
                    j - 1
                };
                let b = if k < at {
                    k
                } else {
                    k - 1
                };
                assert(precedes(before, order[a], order[b]));
            }
        }
    }
}

/// Puts the results in the order of their scores.
pub fn order_by_score(results: Vec<SearchResult>, scores: &Vec<Score>) -> (res: Vec<SearchResult>)
    ensures
        exists|order: Seq<int>| #[trigger]
            is_ranking(paired(results@, scores@), order) && result_views(res@) == arranged(
                result_views(results@),
                scores@,
                order,
            ),
{
    let ghost given = result_views(results@);
    let ghost pairs = paired(results@, scores@);
    let ghost mut order: Seq<int> = Seq::empty();
    let mut res: Vec<SearchResult> = Vec::new();
    let mut n: usize = 0;
    let count: usize = if scores.len() < results.len() {
        scores.len()
    } else {
        results.len()
    };
    for result in it: results
        invariant
            it.seq() == results@,
            count <= results.len(),
            count <= scores.len(),
            count == pairs.len(),
            given == result_views(results@),
            pairs == paired(results@, scores@),
            n == if it.index() < count {
                it.index() as int
            } else {
                count as int
            },
            is_ranking(pairs.take(n as int), order),
            result_views(res@) == arranged(given, scores@, order),
    {
        if n < count {
            let score = scores[n];
            let mut at: usize = 0;
            proof {
                assert(result_views(res@).len() == order.len());
            }
            while at < res.len() && !score.exceeds(res[at].score)
                invariant
                    at <= res.len(),
                    result_views(res@) == arranged(given, scores@, order),
                    res.len() == order.len(),
                    forall|k: int|
                        0 <= k < at ==> !score.above(scores@[#[trigger] order[k]]),
                decreases res.len() - at,
            {
                proof {
                    assert(result_views(res@)[at as int].score == scores@[order[at as int]]);
                }
                at = at + 1;
            }
            proof {
                assert(pairs.take(n as int + 1)[n as int] == score);
                if at < res.len() {
                    assert(result_views(res@)[at as int].score == scores@[order[at as int]]);
                    assert(0 <= order[at as int] < n);
                }
                assert forall|k: int| 0 <= k < at implies !pairs[n as int].above(
                    pairs[#[trigger] order[k]],
                ) by {
                    assert(0 <= order[k] < n);
                }
                lemma_insert_ranked(pairs, n as int, order, at as int);
            }
            let mut result = result;
            result.score = score;
            let ghost was = result_views(res@);
            res.insert(at, result);
            proof {
                let now = order.insert(at as int, n as int);
                assert(result_views(res@) =~= was.insert(at as int, result@));
                assert(result@ == ResultView { score: scores@[n as int], ..given[n as int] });
                assert(arranged(given, scores@, now) =~= was.insert(at as int, result@));
                order = now;
            }
            n = n + 1;
        }
    }
    proof {
        assert(pairs.take(n as int) =~= pairs);
        assert(is_ranking(paired(results@, scores@), order));
    }
    res
}

/// `res` is the outcome of a ranking: the results in the order of their scores,
/// spread over the files where that is wanted, with the scores of their ranks.
pub open spec fn finished<H: Heuristics>(
    heuristics: &H,
    results: Seq<SearchResult>,
    scores: Seq<Score>,
    wants_diversity: bool,
    order: Seq<int>,
    ordered: Vec<SearchResult>,
    spread: Vec<SearchResult>,
    res: Vec<SearchResult>,
) -> bool {
    &&& is_ranking(paired(results, scores), order)
    &&& result_views(ordered@) == arranged(result_views(results), scores, order)
    &&& if wants_diversity {
        call_ensures(H::diversify_by_file, (heuristics, ordered), spread)
    } else {
        spread == ordered
    }
    &&& call_ensures(H::stamp_rank_scores, (heuristics, spread), res)
}

/// `res` is an outcome of a ranking by these scores.
pub open spec fn ranked<H: Heuristics>(
    heuristics: &H,
    results: Seq<SearchResult>,
    scores: Seq<Score>,
    wants_diversity: bool,
    res: Vec<SearchResult>,
) -> bool {
    exists|order: Seq<int>, ordered: Vec<SearchResult>, spread: Vec<SearchResult>| #[trigger]
        finished(heuristics, results, scores, wants_diversity, order, ordered, spread, res)
}

/// Gives each result its score, puts the results in the order of their scores,
/// equal ones as they stood, spreads them over the files where that is wanted, and
/// stamps the scores of their ranks.
pub fn finish_ranking<H: Heuristics>(
    heuristics: &H,
    results: Vec<SearchResult>,
    scores: Vec<Score>,
    wants_diversity: bool,
) -> (res: Vec<SearchResult>)
    ensures
        ranked(heuristics, results@, scores@, wants_diversity, res),
{
    let ordered = order_by_score(results, &scores);
    let ghost by_score = ordered;
    let ghost order = choose|order: Seq<int>| #[trigger]
        is_ranking(paired(results@, scores@), order) && result_views(ordered@) == arranged(
            result_views(results@),
            scores@,
            order,
        );
    let spread = if wants_diversity {
        heuristics.diversify_by_file(ordered)
    } else {
        ordered
    };
    let ghost by_file = spread;
    let res = heuristics.stamp_rank_scores(spread);
    proof {
        assert(finished(
            heuristics,
            results@,
            scores@,
            wants_diversity,
            order,
            by_score,
            by_file,
            res,
        ));
    }
    res
}

/// `outcome` is what `query`, which asks for `features`, makes of the pool.
pub open spec fn scored_as<H: Heuristics>(
    heuristics: &H,
    query: &str,
    features: H::Features,
    results: &Vec<SearchResult>,
    stage: RankingStage,
    filters: &SearchFilters<H::Predicate>,
    config: &H::Config,
    outcome: QueryScores,
) -> bool {
    &&& call_ensures(H::query_features, (heuristics, query), features)
    &&& call_ensures(
        H::wants_multi_file_diversity,
        (heuristics, &features),
        outcome.wants_diversity,
    )
    &&& pool_scored(heuristics, &features, stage, filters, results, config, outcome.scores)
}

/// `outcome` is what a query with this text makes of the pool.
pub open spec fn scored_by<H: Heuristics>(
    heuristics: &H,
    text: Seq<char>,
    results: &Vec<SearchResult>,
    stage: RankingStage,
    filters: &SearchFilters<H::Predicate>,
    config: &H::Config,
    outcome: QueryScores,
) -> bool {
    exists|query: &str, features: H::Features|
        query@ == text && #[trigger] scored_as(
            heuristics,
            query,
            features,
            results,
            stage,
            filters,
            config,
            outcome,
        )
}

/// What one query makes of the pool.
fn score_for_query<H: Heuristics>(
    heuristics: &H,
    query: &str,
    results: &Vec<SearchResult>,
    stage: RankingStage,
    filters: &SearchFilters<H::Predicate>,
    config: &H::Config,
) -> (outcome: QueryScores)
    requires
        keeps_lengths(heuristics),
    ensures
        scored_by(heuristics, query@, results, stage, filters, config, outcome),
        outcome.scores.len() == results.len(),
{
    let features = heuristics.query_features(query);
    let wants_diversity = heuristics.wants_multi_file_diversity(&features);
    let scores = score_pool_with_config(heuristics, &features, stage, filters, results, config);
    let outcome = QueryScores { scores, wants_diversity };
    proof {
        assert(scored_as(
            heuristics,
            query,
            features,
            results,
            stage,
            filters,
            config,
            outcome,
        ));
    }
    outcome
}

/// `res` is an outcome of ranking a pool for one query. A pool of at most one result
/// stays as it is.
pub open spec fn ranked_for_query<H: Heuristics>(
    heuristics: &H,
    text: Seq<char>,
    results: Vec<SearchResult>,
    stage: RankingStage,
    filters: &SearchFilters<H::Predicate>,
    config: &H::Config,
    res: Vec<SearchResult>,
) -> bool {
    if results.len() <= 1 {
        res == results
    } else {
        exists|outcome: QueryScores| #[trigger]
            scored_by(heuristics, text, &results, stage, filters, config, outcome) && ranked(
                heuristics,
                results@,
                outcome.scores@,
                outcome.wants_diversity,
                res,
            )
    }
}

/// Rank a pool of results for one query.
pub fn apply_query_ranking_with_filters_and_config<H: Heuristics>(
    heuristics: &H,
    query: &str,
    results: Vec<SearchResult>,
    stage: RankingStage,
    filters: &SearchFilters<H::Predicate>,
    config: &H::Config,
) -> (res: Vec<SearchResult>)
    requires
        keeps_lengths(heuristics),
    ensures
        ranked_for_query(heuristics, query@, results, stage, filters, config, res),
{
    if results.len() <= 1 {
        return results;
    }
    let outcome = score_for_query(heuristics, query, &results, stage, filters, config);
    let ghost scored = outcome;
    let res = finish_ranking(heuristics, results, outcome.scores, outcome.wants_diversity);
    proof {
        assert(scored_by(heuristics, query@, &results, stage, filters, config, scored));
    }
    res
}

/// Rank a pool of results for one query under the default configuration.
pub fn apply_query_ranking_with_filters<H: Heuristics>(
    heuristics: &H,
    query: &str,
    results: Vec<SearchResult>,
    stage: RankingStage,
    filters: &SearchFilters<H::Predicate>,
) -> (res: Vec<SearchResult>)
    requires
        keeps_lengths(heuristics),
    ensures
        exists|config: H::Config| #[trigger]
            call_ensures(H::Config::default, (), config) && ranked_for_query(
                heuristics,
                query@,
                results,
                stage,
                filters,
                &config,
                res,
            ),
{
    let config = H::Config::default();
    apply_query_ranking_with_filters_and_config(
        heuristics,
        query,
        results,
        stage,
        filters,
        &config,
    )
}

/// Rank a pool of results for one query under the default configuration, without
/// filters.
pub fn apply_query_ranking<H: Heuristics>(
    heuristics: &H,
    query: &str,
    results: Vec<SearchResult>,
    stage: RankingStage,
) -> (res: Vec<SearchResult>)
    requires
        keeps_lengths(heuristics),
    ensures
        exists|config: H::Config| #[trigger]
            call_ensures(H::Config::default, (), config) && ranked_for_query(
                heuristics,
                query@,
                results,
                stage,
                &(SearchFilters::<H::Predicate> { predicate: None }),
                &config,
                res,
            ),
{
    let filters: SearchFilters<H::Predicate> = SearchFilters::default();
    apply_query_ranking_with_filters(heuristics, query, results, stage, &filters)
}

/// The best score of each of `len` results over all queries, from negative infinity. A
/// query that scored fewer results leaves the others as they were.
pub open spec fn best_scores(outcomes: Seq<QueryScores>, len: nat) -> Seq<Score>
    decreases outcomes.len(),
{
    if outcomes.len() == 0 {
        Seq::new(len, |i: int| Score { bits: 0xfff0_0000_0000_0000 })
    } else {
        let before = best_scores(outcomes.drop_last(), len);
        let last = outcomes.last().scores@;
        Seq::new(
            len,
            |i: int|
                if i < last.len() {
                    before[i].larger(last[i])
                } else {
                    before[i]
                },
        )
    }
}

/// One of the queries asks for results from different files.
pub open spec fn any_wants_diversity(outcomes: Seq<QueryScores>) -> bool {
    exists|k: int| 0 <= k < outcomes.len() && (#[trigger] outcomes[k]).wants_diversity
}

/// `outcomes` are what the queries make of the pool, one for each.
pub open spec fn scored_by_each<H: Heuristics>(
    heuristics: &H,
    queries: Seq<Seq<char>>,
    results: &Vec<SearchResult>,
    stage: RankingStage,
    filters: &SearchFilters<H::Predicate>,
    config: &H::Config,
    outcomes: Seq<QueryScores>,
) -> bool {
    &&& outcomes.len() == queries.len()
    &&& forall|k: int|
        0 <= k < outcomes.len() ==> scored_by(
            heuristics,
            queries[k],
            results,
            stage,
            filters,
            config,
            #[trigger] outcomes[k],
        )
}

/// Raises each best score to the score of the same place, where that is larger.
fn keep_best(best: &mut Vec<Score>, scores: &Vec<Score>)
    ensures
        final(best)@ == Seq::new(
            old(best)@.len(),
            |i: int|
                if i < scores@.len() {
                    old(best)@[i].larger(scores@[i])
                } else {
                    old(best)@[i]
                },
        ),
{
    let ghost was = best@;
    let mut i: usize = 0;
    while i < best.len() && i < scores.len()
        invariant
            i <= best.len(),
            i <= scores.len(),
            best.len() == was.len(),
            forall|k: int| 0 <= k < i ==> #[trigger] best@[k] == was[k].larger(scores@[k]),
            forall|k: int| i <= k < was.len() ==> #[trigger] best@[k] == was[k],
        decreases best.len() - i,
    {
        let larger = best[i].max(scores[i]);
        best.set(i, larger);
        i = i + 1;
    }
    proof {
        assert(best@ =~= Seq::new(
            was.len(),
            |i: int|
                if i < scores@.len() {
                    was[i].larger(scores@[i])
                } else {
                    was[i]
                },
        ));
    }
}

/// `res` is an outcome of ranking a pool for several queries, by the best score of
/// each result. Without a query, and with at most one result, the pool stays as it is.
pub open spec fn ranked_for_queries<H: Heuristics>(
    heuristics: &H,
    queries: Seq<Seq<char>>,
    results: Vec<SearchResult>,
    stage: RankingStage,
    filters: &SearchFilters<H::Predicate>,
    config: &H::Config,
    res: Vec<SearchResult>,
) -> bool {
    if queries.len() == 0 || results.len() <= 1 {
        res == results
    } else {
        exists|outcomes: Seq<QueryScores>| #[trigger]
            scored_by_each(heuristics, queries, &results, stage, filters, config, outcomes)
                && ranked(
                heuristics,
                results@,
                best_scores(outcomes, results.len() as nat),
                any_wants_diversity(outcomes),
                res,
            )
    }
}

/// Multi-query ranking: each subquery carries its own identifier or filename
/// target, so score the pool under every subquery's features and keep each
/// result's best score. A single joined query would promote only the first
/// subquery's exact match and crowd out the rest.
pub fn apply_query_ranking_multi_query_with_config<H: Heuristics>(
    heuristics: &H,
    queries: &[String],
    results: Vec<SearchResult>,
    stage: RankingStage,
    filters: &SearchFilters<H::Predicate>,
    config: &H::Config,
) -> (res: Vec<SearchResult>)
    requires
        keeps_lengths(heuristics),
    ensures
        ranked_for_queries(
            heuristics,
            query_texts(queries@),
            results,
            stage,
            filters,
            config,
            res,
        ),
{
    if queries.len() == 0 || results.len() <= 1 {
        return results;
    }
    let ghost texts = query_texts(queries@);
    let mut best: Vec<Score> = Vec::new();
    let mut i: usize = 0;
    while i < results.len()
        invariant
            i <= results.len(),
            best@ == Seq::new(i as nat, |k: int| Score { bits: 0xfff0_0000_0000_0000 }),
        decreases results.len() - i,
    {
        best.push(Score::negative_infinity());
        i = i + 1;
        proof {
            assert(best@ =~= Seq::new(i as nat, |k: int| Score { bits: 0xfff0_0000_0000_0000 }));
        }
    }
    let mut wants_diversity = false;
    let ghost mut outcomes: Seq<QueryScores> = Seq::empty();
    let mut n: usize = 0;
    while n < queries.len()
        invariant
            n <= queries.len(),
            keeps_lengths(heuristics),
            texts == query_texts(queries@),
            scored_by_each(
                heuristics,
                texts.take(n as int),
                &results,
                stage,
                filters,
                config,
                outcomes,
            ),
            best@ == best_scores(outcomes, results.len() as nat),
            wants_diversity == any_wants_diversity(outcomes),
        decreases queries.len() - n,
    {
        let query = queries[n].as_str();
        let scored = score_for_query(heuristics, query, &results, stage, filters, config);
        if scored.wants_diversity {
            wants_diversity = true;
        }
        keep_best(&mut best, &scored.scores);
        proof {
            let was = outcomes;
            let now = outcomes.push(scored);
            let asked = texts.take(n as int + 1);
            assert(now.drop_last() =~= was);
            assert forall|k: int| 0 <= k < now.len() implies scored_by(
                heuristics,
                asked[k],
                &results,
                stage,
                filters,
                config,
                #[trigger] now[k],
            ) by {
                if k < was.len() {
                    assert(now[k] == was[k]);
                    assert(asked[k] == texts.take(n as int)[k]);
                }
            }
            lemma_any_pushed(was, scored);
            outcomes = now;
        }
        n = n + 1;
    }
    proof {
        assert(texts.take(n as int) =~= texts);
    }
    finish_ranking(heuristics, results, best, wants_diversity)
}

proof fn lemma_any_pushed(outcomes: Seq<QueryScores>, scored: QueryScores)
    ensures
        any_wants_diversity(outcomes.push(scored)) == (any_wants_diversity(outcomes)
            || scored.wants_diversity),
{
    let now = outcomes.push(scored);
    if any_wants_diversity(outcomes) {
        let k = choose|k: int|
            0 <= k < outcomes.len() && (#[trigger] outcomes[k]).wants_diversity;
        assert(now[k].wants_diversity);
    }
    if scored.wants_diversity {
        assert(now[outcomes.len() as int].wants_diversity);
    }
    if any_wants_diversity(now) && !scored.wants_diversity {
        let k = choose|k: int| 0 <= k < now.len() && (#[trigger] now[k]).wants_diversity;
        assert(outcomes[k].wants_diversity);
    }
}

/// Multi-query ranking under the default configuration.
pub fn apply_query_ranking_multi_query<H: Heuristics>(
    heuristics: &H,
    queries: &[String],
    results: Vec<SearchResult>,
    stage: RankingStage,
    filters: &SearchFilters<H::Predicate>,
) -> (res: Vec<SearchResult>)
    requires
        keeps_lengths(heuristics),
    ensures
        exists|config: H::Config| #[trigger]
            call_ensures(H::Config::default, (), config) && ranked_for_queries(
                heuristics,
                query_texts(queries@),
                results,
                stage,
                filters,
                &config,
                res,
            ),
{
    let config = H::Config::default();
    apply_query_ranking_multi_query_with_config(
        heuristics,
        queries,
        results,
        stage,
        filters,
        &config,
    )
}

/// The label of the role that a file plays, by the class of its path.
pub fn file_role_label<K, P: Fn(&str, Language) -> K, L: Fn(K) -> &'static str>(
    file_path: &str,
    language: Language,
    classify_path: P,
    content_class_label: L,
) -> (res: &'static str)
    requires
        call_requires(classify_path, (file_path, language)),
        forall|class: K| #[trigger] call_requires(content_class_label, (class,)),
    ensures
        exists|class: K| #[trigger]
            call_ensures(classify_path, (file_path, language), class) && call_ensures(
                content_class_label,
                (class,),
                res,
            ),
{
    content_class_label(classify_path(file_path, language))
}

/// Scores that are numbers rank a pool in one way only.
pub proof fn ranking_is_unique(scores: Seq<Score>, a: Seq<int>, b: Seq<int>)
    requires
        all_numbers(scores),
        is_ranking(scores, a),
        is_ranking(scores, b),
    ensures
        a == b,
{
    assert forall|k: int| 0 <= k < a.len() implies a[k] == b[k] by {
        lemma_same_place(scores, a, b, k);
    }
    assert(a =~= b);
}

proof fn lemma_same_place(scores: Seq<Score>, a: Seq<int>, b: Seq<int>, k: int)
    requires
        all_numbers(scores),
        is_ranking(scores, a),
        is_ranking(scores, b),
        0 <= k < a.len(),
    ensures
        a[k] == b[k],
    decreases k,
{
    assert forall|j: int| 0 <= j < k implies a[j] == b[j] by {
        lemma_same_place(scores, a, b, j);
    }
    if a[k] != b[k] {
        assert(a.contains(b[k]));
        let i = choose|i: int| 0 <= i < a.len() && a[i] == b[k];
        if i < k {
            assert(b[i] != b[k]);
        }
        assert(precedes(scores, a[k], a[i]));
        assert(b.contains(a[k]));
        let j = choose|j: int| 0 <= j < b.len() && b[j] == a[k];
        if j < k {
            assert(a[j] != a[k]);
        }
        assert(precedes(scores, b[k], b[j]));
        assert(!scores[a[k]].not_a_number());
        assert(!scores[b[k]].not_a_number());
    }
}

/// A pool whose scores do not rise anywhere keeps its order.
pub proof fn falling_scores_keep_order(scores: Seq<Score>, order: Seq<int>)
    requires
        all_numbers(scores),
        is_ranking(scores, order),
        forall|i: int, j: int|
            0 <= i < j < scores.len() ==> !(#[trigger] scores[j]).above(#[trigger] scores[i]),
    ensures
        forall|k: int| 0 <= k < order.len() ==> #[trigger] order[k] == k,
{
    let same = Seq::new(scores.len(), |k: int| k);
    assert forall|i: int| 0 <= i < scores.len() implies #[trigger] same.contains(i) by {
        assert(same[i] == i);
    }
    assert(is_ranking(scores, same));
    ranking_is_unique(scores, same, order);
}

/// Ranking changes nothing of a result but its score, and loses none: what is in
/// the pool at `i` is in the outcome once.
pub proof fn ranking_keeps_results(
    results: Seq<ResultView>,
    scores: Seq<Score>,
    order: Seq<int>,
    i: int,
) -> (k: int)
    requires
        is_ranking(scores, order),
        scores.len() <= results.len(),
        0 <= i < scores.len(),
    ensures
        0 <= k < arranged(results, scores, order).len(),
        order[k] == i,
        arranged(results, scores, order)[k] == (ResultView { score: scores[i], ..results[i] }),
        forall|j: int| 0 <= j < order.len() && #[trigger] order[j] == i ==> j == k,
{
    assert(order.contains(i));
    let k = choose|k: int| 0 <= k < order.len() && order[k] == i;
    assert forall|j: int| 0 <= j < order.len() && #[trigger] order[j] == i implies j == k by {
        if j < k {
            assert(order[j] != order[k]);
        } else if k < j {
            assert(order[k] != order[j]);
        }
    }
    k
}

/// The best score of a result is a number, it is the score under one of the queries
/// or negative infinity, and under no query is its score beyond it.
pub proof fn best_score_is_best(outcomes: Seq<QueryScores>, len: nat, i: int)
    requires
        0 <= i < len,
        forall|q: int| 0 <= q < outcomes.len() ==> (#[trigger] outcomes[q]).scores.len() == len,
    ensures
        best_scores(outcomes, len).len() == len,
        !best_scores(outcomes, len)[i].not_a_number(),
        best_scores(outcomes, len)[i].bits == 0xfff0_0000_0000_0000 || exists|q: int|
            0 <= q < outcomes.len() && (#[trigger] outcomes[q]).scores@[i] == best_scores(
                outcomes,
                len,
            )[i],
        forall|q: int|
            0 <= q < outcomes.len() ==> !(#[trigger] outcomes[q]).scores@[i].beyond(
                best_scores(outcomes, len)[i],
            ),
    decreases outcomes.len(),
{
    if outcomes.len() > 0 {
        let before = outcomes.drop_last();
        let last = outcomes.len() - 1;
        assert forall|q: int| 0 <= q < before.len() implies (#[trigger] before[q]).scores.len()
            == len by {
            assert(before[q] == outcomes[q]);
        }
        best_score_is_best(before, len, i);
        let was = best_scores(before, len)[i];
        let now = best_scores(outcomes, len)[i];
        assert(outcomes[last].scores.len() == len);
        assert(now == was.larger(outcomes[last].scores@[i]));
        if now == was {
            if now.bits != 0xfff0_0000_0000_0000 {
                let q = choose|q: int|
                    0 <= q < before.len() && (#[trigger] before[q]).scores@[i] == was;
                assert(outcomes[q] == before[q]);
            }
        } else {
            assert(outcomes[last].scores@[i] == now);
        }
        assert forall|q: int| 0 <= q < outcomes.len() implies !(
        #[trigger] outcomes[q]).scores@[i].beyond(now) by {
            if q < last {
                assert(outcomes[q] == before[q]);
            }
        }
    }
}

/// One query alone counts as it would by itself.
pub proof fn one_query_counts_alone(outcome: QueryScores)
    requires
        all_numbers(outcome.scores@),
    ensures
        best_scores(seq![outcome], outcome.scores@.len()) == outcome.scores@,
        any_wants_diversity(seq![outcome]) == outcome.wants_diversity,
{
    let len = outcome.scores@.len();
    let one = seq![outcome];
    assert(one.drop_last() =~= Seq::empty());
    let start = best_scores(one.drop_last(), len);
    let best = best_scores(one, len);
    assert forall|i: int| 0 <= i < len implies best[i] == outcome.scores@[i] by {
        assert(start[i].bits == 0xfff0_0000_0000_0000);
        assert(!outcome.scores@[i].not_a_number());
        assert(one.last() == outcome);
    }
    assert(best =~= outcome.scores@);
    assert(one[0] == outcome);
}

/// Two queries make the same of a pool.
pub open spec fn alike(a: QueryScores, b: QueryScores) -> bool {
    a.scores@ == b.scores@ && a.wants_diversity == b.wants_diversity
}

/// One of `outcomes` is like `outcome`.
pub open spec fn holds_like(outcomes: Seq<QueryScores>, outcome: QueryScores) -> bool {
    exists|j: int| 0 <= j < outcomes.len() && alike(outcome, #[trigger] outcomes[j])
}

/// Whatever `a` holds, `b` holds too.
pub open spec fn covered(a: Seq<QueryScores>, b: Seq<QueryScores>) -> bool {
    forall|i: int| 0 <= i < a.len() ==> #[trigger] holds_like(b, a[i])
}

/// The order of the queries and their repeats do not matter: two lists of outcomes
/// with the same members give every result the same best score, and want diversity
/// alike, where no score is other than a number.
pub proof fn query_order_and_repeats_do_not_count(
    a: Seq<QueryScores>,
    b: Seq<QueryScores>,
    len: nat,
)
    requires
        covered(a, b),
        covered(b, a),
        forall|q: int|
            0 <= q < a.len() ==> (#[trigger] a[q]).scores.len() == len && all_numbers(a[q].scores@),
    ensures
        best_scores(a, len) == best_scores(b, len),
        any_wants_diversity(a) == any_wants_diversity(b),
{
    assert forall|q: int| 0 <= q < b.len() implies (#[trigger] b[q]).scores.len() == len
        && all_numbers(b[q].scores@) by {
        assert(holds_like(a, b[q]));
        let j = choose|j: int| 0 <= j < a.len() && alike(b[q], #[trigger] a[j]);
        assert(a[j].scores.len() == len && all_numbers(a[j].scores@));
    }
    lemma_best_len(a, len);
    lemma_best_len(b, len);
    assert forall|i: int| 0 <= i < len implies best_scores(a, len)[i] == best_scores(b, len)[i] by {
        best_score_is_best(a, len, i);
        best_score_is_best(b, len, i);
        lemma_not_beyond(a, b, len, i);
        lemma_not_beyond(b, a, len, i);
        beyond_is_total(best_scores(a, len)[i], best_scores(b, len)[i]);
    }
    assert(best_scores(a, len) =~= best_scores(b, len));
    if any_wants_diversity(a) {
        let k = choose|k: int| 0 <= k < a.len() && (#[trigger] a[k]).wants_diversity;
        assert(holds_like(b, a[k]));
        let j = choose|j: int| 0 <= j < b.len() && alike(a[k], #[trigger] b[j]);
        assert(b[j].wants_diversity);
    }
    if any_wants_diversity(b) {
        let k = choose|k: int| 0 <= k < b.len() && (#[trigger] b[k]).wants_diversity;
        assert(holds_like(a, b[k]));
        let j = choose|j: int| 0 <= j < a.len() && alike(b[k], #[trigger] a[j]);
        assert(a[j].wants_diversity);
    }
}

pub proof fn lemma_best_len(outcomes: Seq<QueryScores>, len: nat)
    ensures
        best_scores(outcomes, len).len() == len,
{
}

/// The best of `a` is not beyond the best of what covers it.
proof fn lemma_not_beyond(a: Seq<QueryScores>, b: Seq<QueryScores>, len: nat, i: int)
    requires
        0 <= i < len,
        covered(a, b),
        forall|q: int| 0 <= q < a.len() ==> (#[trigger] a[q]).scores.len() == len,
        forall|q: int| 0 <= q < b.len() ==> (#[trigger] b[q]).scores.len() == len,
    ensures
        !best_scores(a, len)[i].beyond(best_scores(b, len)[i]),
{
    best_score_is_best(a, len, i);
    best_score_is_best(b, len, i);
    let x = best_scores(a, len)[i];
    if x.bits != 0xfff0_0000_0000_0000 {
        let q = choose|q: int| 0 <= q < a.len() && (#[trigger] a[q]).scores@[i] == x;
        assert(holds_like(b, a[q]));
        let j = choose|j: int| 0 <= j < b.len() && alike(a[q], #[trigger] b[j]);
        assert(!b[j].scores@[i].beyond(best_scores(b, len)[i]));
    }
}

/// No query gives a result of the pool a score that is no number.
pub open spec fn scores_are_numbers<H: Heuristics>(
    heuristics: &H,
    results: &Vec<SearchResult>,
    stage: RankingStage,
    filters: &SearchFilters<H::Predicate>,
    config: &H::Config,
) -> bool {
    forall|text: Seq<char>, outcome: QueryScores| #[trigger]
        scored_by(heuristics, text, results, stage, filters, config, outcome) ==> all_numbers(
            outcome.scores@,
        )
}

/// A query makes the same of the pool whenever it is asked.
pub open spec fn scores_are_settled<H: Heuristics>(
    heuristics: &H,
    results: &Vec<SearchResult>,
    stage: RankingStage,
    filters: &SearchFilters<H::Predicate>,
    config: &H::Config,
) -> bool {
    forall|text: Seq<char>, a: QueryScores, b: QueryScores|
        #![trigger scored_by(heuristics, text, results, stage, filters, config, a), scored_by(heuristics, text, results, stage, filters, config, b)]
        scored_by(heuristics, text, results, stage, filters, config, a) && scored_by(
            heuristics,
            text,
            results,
            stage,
            filters,
            config,
            b,
        ) ==> alike(a, b)
}

/// There is one score for each result.
proof fn lemma_outcome_len<H: Heuristics>(
    heuristics: &H,
    text: Seq<char>,
    results: &Vec<SearchResult>,
    stage: RankingStage,
    filters: &SearchFilters<H::Predicate>,
    config: &H::Config,
    outcome: QueryScores,
)
    requires
        scored_by(heuristics, text, results, stage, filters, config, outcome),
    ensures
        outcome.scores.len() == results.len(),
{
}

/// Every text of `a` is one of `b`.
pub open spec fn texts_covered(a: Seq<Seq<char>>, b: Seq<Seq<char>>) -> bool {
    forall|i: int| 0 <= i < a.len() ==> #[trigger] b.contains(a[i])
}

/// Two lists with the same queries rank a pool alike, whatever the order of the
/// queries and however often each stands there.
pub proof fn lists_of_the_same_queries_rank_alike<H: Heuristics>(
    heuristics: &H,
    a: Seq<Seq<char>>,
    b: Seq<Seq<char>>,
    results: Vec<SearchResult>,
    stage: RankingStage,
    filters: &SearchFilters<H::Predicate>,
    config: &H::Config,
    res: Vec<SearchResult>,
)
    requires
        texts_covered(a, b),
        texts_covered(b, a),
        scores_are_numbers(heuristics, &results, stage, filters, config),
        scores_are_settled(heuristics, &results, stage, filters, config),
    ensures
        ranked_for_queries(heuristics, a, results, stage, filters, config, res)
            <==> ranked_for_queries(heuristics, b, results, stage, filters, config, res),
{
    if a.len() > 0 {
        assert(b.contains(a[0]));
    }
    if b.len() > 0 {
        assert(a.contains(b[0]));
    }
    if ranked_for_queries(heuristics, a, results, stage, filters, config, res) {
        lemma_ranked_alike(heuristics, a, b, results, stage, filters, config, res);
    }
    if ranked_for_queries(heuristics, b, results, stage, filters, config, res) {
        lemma_ranked_alike(heuristics, b, a, results, stage, filters, config, res);
    }
}

proof fn lemma_ranked_alike<H: Heuristics>(
    heuristics: &H,
    a: Seq<Seq<char>>,
    b: Seq<Seq<char>>,
    results: Vec<SearchResult>,
    stage: RankingStage,
    filters: &SearchFilters<H::Predicate>,
    config: &H::Config,
    res: Vec<SearchResult>,
)
    requires
        a.len() > 0 <==> b.len() > 0,
        texts_covered(a, b),
        texts_covered(b, a),
        scores_are_numbers(heuristics, &results, stage, filters, config),
        scores_are_settled(heuristics, &results, stage, filters, config),
        ranked_for_queries(heuristics, a, results, stage, filters, config, res),
    ensures
        ranked_for_queries(heuristics, b, results, stage, filters, config, res),
{
    if a.len() > 0 && results.len() > 1 {
        let len = results.len() as nat;
        let ours = choose|outcomes: Seq<QueryScores>| #[trigger]
            scored_by_each(heuristics, a, &results, stage, filters, config, outcomes) && ranked(
                heuristics,
                results@,
                best_scores(outcomes, len),
                any_wants_diversity(outcomes),
                res,
            );
        let theirs = Seq::new(b.len(), |k: int| ours[a.index_of(b[k])]);
        assert forall|k: int| 0 <= k < theirs.len() implies scored_by(
            heuristics,
            b[k],
            &results,
            stage,
            filters,
            config,
            #[trigger] theirs[k],
        ) by {
            assert(a.contains(b[k]));
            let j = a.index_of(b[k]);
            assert(0 <= j < a.len() && a[j] == b[k]);
            assert(theirs[k] == ours[j]);
        }
        assert(scored_by_each(heuristics, b, &results, stage, filters, config, theirs));
        lemma_outcomes_covered(heuristics, a, b, &results, stage, filters, config, ours, theirs);
        lemma_outcomes_covered(heuristics, b, a, &results, stage, filters, config, theirs, ours);
        query_order_and_repeats_do_not_count(ours, theirs, len);
    }
}

/// Spreading over files and stamping give the same for the same results.
pub open spec fn finish_is_settled<H: Heuristics>(heuristics: &H) -> bool {
    &&& forall|v: Vec<SearchResult>, w: Vec<SearchResult>, x: Vec<SearchResult>, y: Vec<
        SearchResult,
    >|
        #![trigger call_ensures(H::diversify_by_file, (heuristics, v), x), call_ensures(H::diversify_by_file, (heuristics, w), y)]
        call_ensures(H::diversify_by_file, (heuristics, v), x) && call_ensures(
            H::diversify_by_file,
            (heuristics, w),
            y,
        ) && result_views(v@) == result_views(w@) ==> result_views(x@) == result_views(y@)
    &&& forall|v: Vec<SearchResult>, w: Vec<SearchResult>, x: Vec<SearchResult>, y: Vec<
        SearchResult,
    >|
        #![trigger call_ensures(H::stamp_rank_scores, (heuristics, v), x), call_ensures(H::stamp_rank_scores, (heuristics, w), y)]
        call_ensures(H::stamp_rank_scores, (heuristics, v), x) && call_ensures(
            H::stamp_rank_scores,
            (heuristics, w),
            y,
        ) && result_views(v@) == result_views(w@) ==> result_views(x@) == result_views(y@)
}

/// Ranking is deterministic: scores that are numbers have one outcome.
pub proof fn ranking_is_determined<H: Heuristics>(
    heuristics: &H,
    results: Seq<SearchResult>,
    scores: Seq<Score>,
    wants_diversity: bool,
    x: Vec<SearchResult>,
    y: Vec<SearchResult>,
)
    requires
        all_numbers(paired(results, scores)),
        finish_is_settled(heuristics),
        ranked(heuristics, results, scores, wants_diversity, x),
        ranked(heuristics, results, scores, wants_diversity, y),
    ensures
        result_views(x@) == result_views(y@),
{
    let (o, a, v) = choose|
        order: Seq<int>,
        ordered: Vec<SearchResult>,
        spread: Vec<SearchResult>,
    | #[trigger]
        finished(heuristics, results, scores, wants_diversity, order, ordered, spread, x);
    let (p, b, w) = choose|
        order: Seq<int>,
        ordered: Vec<SearchResult>,
        spread: Vec<SearchResult>,
    | #[trigger]
        finished(heuristics, results, scores, wants_diversity, order, ordered, spread, y);
    ranking_is_unique(paired(results, scores), o, p);
    assert(result_views(a@) == result_views(b@));
    assert(result_views(v@) == result_views(w@));
}

/// Two lists with the same queries give the same output.
pub proof fn lists_of_the_same_queries_give_the_same<H: Heuristics>(
    heuristics: &H,
    a: Seq<Seq<char>>,
    b: Seq<Seq<char>>,
    results: Vec<SearchResult>,
    stage: RankingStage,
    filters: &SearchFilters<H::Predicate>,
    config: &H::Config,
    x: Vec<SearchResult>,
    y: Vec<SearchResult>,
)
    requires
        texts_covered(a, b),
        texts_covered(b, a),
        scores_are_numbers(heuristics, &results, stage, filters, config),
        scores_are_settled(heuristics, &results, stage, filters, config),
        finish_is_settled(heuristics),
        ranked_for_queries(heuristics, a, results, stage, filters, config, x),
        ranked_for_queries(heuristics, b, results, stage, filters, config, y),
    ensures
        result_views(x@) == result_views(y@),
{
    if a.len() > 0 {
        assert(b.contains(a[0]));
    }
    if b.len() > 0 {
        assert(a.contains(b[0]));
    }
    if a.len() > 0 && results.len() > 1 {
        let len = results.len() as nat;
        let ours = choose|outcomes: Seq<QueryScores>| #[trigger]
            scored_by_each(heuristics, a, &results, stage, filters, config, outcomes) && ranked(
                heuristics,
                results@,
                best_scores(outcomes, len),
                any_wants_diversity(outcomes),
                x,
            );
        let theirs = choose|outcomes: Seq<QueryScores>| #[trigger]
            scored_by_each(heuristics, b, &results, stage, filters, config, outcomes) && ranked(
                heuristics,
                results@,
                best_scores(outcomes, len),
                any_wants_diversity(outcomes),
                y,
            );
        lemma_outcomes_covered(heuristics, a, b, &results, stage, filters, config, ours, theirs);
        lemma_outcomes_covered(heuristics, b, a, &results, stage, filters, config, theirs, ours);
        query_order_and_repeats_do_not_count(ours, theirs, len);
        let best = best_scores(ours, len);
        lemma_best_len(ours, len);
        assert forall|i: int| 0 <= i < best.len() implies !(#[trigger] best[i]).not_a_number() by {
            best_score_is_best(ours, len, i);
        }
        ranking_is_determined(
            heuristics,
            results@,
            best,
            any_wants_diversity(ours),
            x,
            y,
        );
    }
}

/// What the queries of one list make of a pool, those of a list that holds them make
/// too.
proof fn lemma_outcomes_covered<H: Heuristics>(
    heuristics: &H,
    a: Seq<Seq<char>>,
    b: Seq<Seq<char>>,
    results: &Vec<SearchResult>,
    stage: RankingStage,
    filters: &SearchFilters<H::Predicate>,
    config: &H::Config,
    ours: Seq<QueryScores>,
    theirs: Seq<QueryScores>,
)
    requires
        texts_covered(a, b),
        scores_are_numbers(heuristics, results, stage, filters, config),
        scores_are_settled(heuristics, results, stage, filters, config),
        scored_by_each(heuristics, a, results, stage, filters, config, ours),
        scored_by_each(heuristics, b, results, stage, filters, config, theirs),
    ensures
        covered(ours, theirs),
        forall|q: int|
            0 <= q < ours.len() ==> (#[trigger] ours[q]).scores.len() == results.len()
                && all_numbers(ours[q].scores@),
{
    assert forall|i: int| 0 <= i < ours.len() implies #[trigger] holds_like(theirs, ours[i]) by {
        assert(b.contains(a[i]));
        let j = choose|j: int| 0 <= j < b.len() && b[j] == a[i];
        assert(scored_by(heuristics, b[j], results, stage, filters, config, theirs[j]));
        assert(scored_by(heuristics, a[i], results, stage, filters, config, ours[i]));
        assert(alike(ours[i], theirs[j]));
    }
    assert forall|q: int| 0 <= q < ours.len() implies (#[trigger] ours[q]).scores.len()
        == results.len() && all_numbers(ours[q].scores@) by {
        lemma_outcome_len(heuristics, a[q], results, stage, filters, config, ours[q]);
    }
}

/// A list of one query ranks a pool as that query does.
pub proof fn a_list_of_one_query_ranks_as_the_query<H: Heuristics>(
    heuristics: &H,
    text: Seq<char>,
    results: Vec<SearchResult>,
    stage: RankingStage,
    filters: &SearchFilters<H::Predicate>,
    config: &H::Config,
    res: Vec<SearchResult>,
)
    requires
        scores_are_numbers(heuristics, &results, stage, filters, config),
    ensures
        ranked_for_queries(heuristics, seq![text], results, stage, filters, config, res)
            <==> ranked_for_query(heuristics, text, results, stage, filters, config, res),
{
    let one = seq![text];
    let len = results.len() as nat;
    if results.len() > 1 {
        if ranked_for_queries(heuristics, one, results, stage, filters, config, res) {
            let outcomes = choose|outcomes: Seq<QueryScores>| #[trigger]
                scored_by_each(heuristics, one, &results, stage, filters, config, outcomes)
                    && ranked(
                    heuristics,
                    results@,
                    best_scores(outcomes, len),
                    any_wants_diversity(outcomes),
                    res,
                );
            let o = outcomes[0];
            assert(scored_by(heuristics, one[0], &results, stage, filters, config, o));
            lemma_outcome_len(heuristics, text, &results, stage, filters, config, o);
            one_query_counts_alone(o);
            assert(outcomes =~= seq![o]);
        }
        if ranked_for_query(heuristics, text, results, stage, filters, config, res) {
            let o = choose|outcome: QueryScores| #[trigger]
                scored_by(heuristics, text, &results, stage, filters, config, outcome) && ranked(
                    heuristics,
                    results@,
                    outcome.scores@,
                    outcome.wants_diversity,
                    res,
                );
            lemma_outcome_len(heuristics, text, &results, stage, filters, config, o);
            one_query_counts_alone(o);
            assert(scored_by_each(
                heuristics,
                one,
                &results,
                stage,
                filters,
                config,
                seq![o],
            ));
        }
    }
}

} // verus!
