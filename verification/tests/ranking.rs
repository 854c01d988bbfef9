use vera_core::ranking::{
    apply_query_ranking, apply_query_ranking_multi_query,
    apply_query_ranking_multi_query_with_config, apply_query_ranking_with_filters,
    apply_query_ranking_with_filters_and_config, file_role_label, finish_ranking, order_by_score,
    score_pool, score_pool_with_config, Heuristics, RankingConfig, RankingStage,
};
use vera_core::score::Score;
use vera_core::types::{Language, SearchFilters, SearchResult};

const OFF: RankingConfig = RankingConfig {
    filename_stem_boost: false,
    definition_boost: false,
    multiplicative_path_penalty: false,
};

fn score(value: f64) -> Score {
    Score::from_bits(value.to_bits())
}

fn scores(values: &[f64]) -> Vec<Score> {
    values.iter().map(|v| score(*v)).collect()
}

fn floats(scores: &[Score]) -> Vec<f64> {
    scores.iter().map(|s| f64::from_bits(s.to_bits())).collect()
}

fn pool(names: &[&str]) -> Vec<SearchResult> {
    names
        .iter()
        .map(|n| SearchResult {
            file_path: n.to_string(),
            line_start: 1,
            line_end: 2,
            content: String::new(),
            language: Language::Rust,
            score: Score::zero(),
            symbol_name: None,
            symbol_type: None,
            part_index: None,
        })
        .collect()
}

fn names(results: &[SearchResult]) -> Vec<&str> {
    results.iter().map(|r| r.file_path.as_str()).collect()
}

/// Scores a result by whether the query names its file. Diversity turns the results
/// round, and the boosts add their own multiple of the pool's best score.
struct ByName {
    switches: RankingConfig,
    boosts: [f64; 3],
    stamps: bool,
}

fn plain() -> ByName {
    ByName {
        switches: OFF,
        boosts: [0.0; 3],
        stamps: false,
    }
}

fn none() -> SearchFilters<()> {
    SearchFilters::default()
}

fn raised(scores: Vec<Score>, maximum: Score, factor: f64) -> Vec<Score> {
    let by = f64::from_bits(maximum.to_bits()) * factor;
    floats(&scores).iter().map(|v| score(v + by)).collect()
}

impl Heuristics for ByName {
    type Features = String;
    type Config = u8;
    type Predicate = ();

    fn query_features(&self, query: &str) -> String {
        query.to_string()
    }

    fn wants_multi_file_diversity(&self, features: &String) -> bool {
        features.contains("everywhere")
    }

    fn ranking_config(&self, _: &u8) -> RankingConfig {
        self.switches
    }

    fn rank_and_prior(
        &self,
        features: &String,
        index: usize,
        results: &Vec<SearchResult>,
        stage: RankingStage,
        filters: &SearchFilters<()>,
        bonus: &u8,
    ) -> Score {
        assert!(filters.predicate.is_none());
        let late = if stage == RankingStage::PostRerank { 0.5 } else { 0.0 };
        let path = &results[index].file_path;
        match path.parse::<f64>() {
            Ok(value) => score(value),
            Err(_) if features.contains(path) => score(1.0 + *bonus as f64 + late),
            Err(_) => score(0.0),
        }
    }

    fn apply_coherence_boost(
        &self,
        _: &String,
        scores: Vec<Score>,
        _: &Vec<SearchResult>,
        max_score: Score,
    ) -> Vec<Score> {
        raised(scores, max_score, self.boosts[0])
    }

    fn apply_keyword_path_boost(
        &self,
        _: &String,
        scores: Vec<Score>,
        _: &Vec<SearchResult>,
        max_score: Score,
        _: &u8,
    ) -> Vec<Score> {
        raised(scores, max_score, self.boosts[1])
    }

    fn apply_content_symbol_boost(
        &self,
        _: &String,
        scores: Vec<Score>,
        _: &Vec<SearchResult>,
        max_score: Score,
    ) -> Vec<Score> {
        raised(scores, max_score, self.boosts[2])
    }

    fn apply_multiplicative_path_penalty(
        &self,
        _: &String,
        scores: Vec<Score>,
        _: &Vec<SearchResult>,
    ) -> Vec<Score> {
        floats(&scores).iter().map(|v| score(v / 2.0)).collect()
    }

    fn diversify_by_file(&self, mut results: Vec<SearchResult>) -> Vec<SearchResult> {
        results.reverse();
        results
    }

    fn stamp_rank_scores(&self, mut results: Vec<SearchResult>) -> Vec<SearchResult> {
        if self.stamps {
            let len = results.len() as f64;
            for (i, r) in results.iter_mut().enumerate() {
                r.score = score(1.0 - i as f64 / len);
            }
        }
        results
    }
}

#[test]
fn results_are_ordered_by_score() {
    let ordered = order_by_score(
        pool(&["a", "b", "c", "d"]),
        &scores(&[0.2, 0.9, -1.0, 0.5]),
    );
    assert_eq!(names(&ordered), vec!["b", "d", "a", "c"]);
    assert_eq!(ordered[0].score, score(0.9));
    assert_eq!(ordered[3].score, score(-1.0));
}

#[test]
fn equal_scores_keep_their_order() {
    let ordered = order_by_score(
        pool(&["a", "b", "c", "d", "e"]),
        &scores(&[0.5, 0.0, 0.5, -0.0, 0.5]),
    );
    assert_eq!(names(&ordered), vec!["a", "c", "e", "b", "d"]);
}

#[test]
fn falling_scores_change_nothing() {
    let ordered = order_by_score(pool(&["a", "b", "c"]), &scores(&[3.0, 3.0, 1.0]));
    assert_eq!(names(&ordered), vec!["a", "b", "c"]);
}

#[test]
fn results_without_a_score_are_left_out() {
    let ordered = order_by_score(pool(&["a", "b", "c"]), &scores(&[0.1, 0.2]));
    assert_eq!(names(&ordered), vec!["b", "a"]);
    let ordered = order_by_score(pool(&["a"]), &scores(&[0.1, 0.2]));
    assert_eq!(names(&ordered), vec!["a"]);
}

#[test]
fn no_result_is_lost_where_a_score_is_no_number() {
    let ordered = order_by_score(
        pool(&["a", "b", "c"]),
        &scores(&[f64::NAN, 0.2, 0.9]),
    );
    let mut left = names(&ordered);
    left.sort();
    assert_eq!(left, vec!["a", "b", "c"]);
}

#[test]
fn finishing_spreads_only_where_wanted_and_stamps() {
    let stamping = ByName {
        stamps: true,
        ..plain()
    };
    let straight = finish_ranking(&stamping, pool(&["a", "b"]), scores(&[0.1, 0.7]), false);
    assert_eq!(names(&straight), vec!["b", "a"]);
    assert_eq!(straight[0].score, score(1.0));
    assert_eq!(straight[1].score, score(0.5));
    let spread = finish_ranking(&stamping, pool(&["a", "b"]), scores(&[0.1, 0.7]), true);
    assert_eq!(names(&spread), vec!["a", "b"]);
    assert_eq!(spread[0].score, score(1.0));
}

#[test]
fn a_query_ranks_its_pool() {
    let ranked = apply_query_ranking_with_filters_and_config(
        &plain(),
        "find c",
        pool(&["a", "b", "c"]),
        RankingStage::Initial,
        &none(),
        &7u8,
    );
    assert_eq!(names(&ranked), vec!["c", "a", "b"]);
    assert_eq!(ranked[0].score, score(8.0));
    let spread = apply_query_ranking_with_filters_and_config(
        &plain(),
        "find c everywhere",
        pool(&["x", "k", "c"]),
        RankingStage::PostRerank,
        &none(),
        &0u8,
    );
    assert_eq!(names(&spread), vec!["k", "x", "c"]);
    assert_eq!(spread[2].score, score(1.5));
}

#[test]
fn one_result_is_not_ranked() {
    let stamping = ByName {
        stamps: true,
        ..plain()
    };
    let ranked = apply_query_ranking_with_filters_and_config(
        &stamping,
        "a",
        pool(&["a"]),
        RankingStage::Initial,
        &none(),
        &7u8,
    );
    assert_eq!(names(&ranked), vec!["a"]);
    assert_eq!(ranked[0].score, Score::zero());
}

#[test]
fn default_configuration_ranks_without_bonus() {
    let ranked = apply_query_ranking_with_filters(
        &plain(),
        "find b",
        pool(&["a", "b"]),
        RankingStage::Initial,
        &none(),
    );
    assert_eq!(names(&ranked), vec!["b", "a"]);
    assert_eq!(ranked[0].score, score(1.0));
    let same = apply_query_ranking(
        &plain(),
        "find b",
        pool(&["a", "b"]),
        RankingStage::Initial,
    );
    assert_eq!(names(&same), vec!["b", "a"]);
}

fn multi(queries: &[&str], files: &[&str], bonus: u8) -> (Vec<String>, Vec<f64>) {
    let queries: Vec<String> = queries.iter().map(|q| q.to_string()).collect();
    let ranked = apply_query_ranking_multi_query_with_config(
        &plain(),
        &queries,
        pool(files),
        RankingStage::Initial,
        &none(),
        &bonus,
    );
    (
        ranked.iter().map(|r| r.file_path.clone()).collect(),
        ranked
            .iter()
            .map(|r| f64::from_bits(r.score.to_bits()))
            .collect(),
    )
}

#[test]
fn every_query_promotes_its_own_match() {
    let (order, values) = multi(&["find q", "find z"], &["x", "q", "y", "z"], 1);
    assert_eq!(order, vec!["q", "z", "x", "y"]);
    assert_eq!(values, vec![2.0, 2.0, 0.0, 0.0]);
    let defaults = apply_query_ranking_multi_query(
        &plain(),
        &["find z".to_string()],
        pool(&["x", "z"]),
        RankingStage::Initial,
        &none(),
    );
    assert_eq!(names(&defaults), vec!["z", "x"]);
}

#[test]
fn diversity_is_wanted_where_one_query_wants_it() {
    let (order, _) = multi(&["find q everywhere", "find z"], &["x", "q"], 1);
    assert_eq!(order, vec!["x", "q"]);
}

#[test]
fn no_queries_leave_the_pool() {
    let (order, values) = multi(&[], &["x", "q"], 1);
    assert_eq!(order, vec!["x", "q"]);
    assert_eq!(values, vec![0.0, 0.0]);
}

#[test]
fn order_and_repeats_of_queries_do_not_count() {
    let files = ["x", "q", "y", "z", "k", "-0.0", "0.0"];
    let once = multi(&["find q", "find z", "find k"], &files, 2);
    assert_eq!(multi(&["find k", "find z", "find q"], &files, 2), once);
    assert_eq!(
        multi(&["find z", "find k", "find z", "find q", "find k"], &files, 2),
        once
    );
}

#[test]
fn one_query_ranks_as_it_would_by_itself() {
    let alone = apply_query_ranking_with_filters_and_config(
        &plain(),
        "find q",
        pool(&["x", "q", "z"]),
        RankingStage::Initial,
        &none(),
        &3u8,
    );
    let (order, values) = multi(&["find q"], &["x", "q", "z"], 3);
    assert_eq!(names(&alone), order);
    assert_eq!(
        floats(&alone.iter().map(|r| r.score).collect::<Vec<_>>()),
        values
    );
}

fn pooled(switches: RankingConfig, initial: &[&str]) -> Vec<f64> {
    let heuristics = ByName {
        switches,
        boosts: [1.0, 10.0, 100.0],
        stamps: false,
    };
    let features = heuristics.query_features("");
    let with_config = score_pool_with_config(
        &heuristics,
        &features,
        RankingStage::Initial,
        &none(),
        &pool(initial),
        &0u8,
    );
    let with_default = score_pool(
        &heuristics,
        &features,
        RankingStage::Initial,
        &none(),
        &pool(initial),
    );
    assert_eq!(with_config, with_default);
    assert_eq!(with_config.len(), initial.len());
    floats(&with_config)
}

#[test]
fn boosts_that_are_on_follow_one_another() {
    let on = RankingConfig {
        filename_stem_boost: true,
        definition_boost: true,
        multiplicative_path_penalty: true,
    };
    assert_eq!(pooled(OFF, &["2.0", "4.0"]), vec![6.0, 8.0]);
    assert_eq!(pooled(on, &["2.0", "4.0"]), vec![223.0, 224.0]);
    let stem = RankingConfig {
        filename_stem_boost: true,
        ..OFF
    };
    assert_eq!(pooled(stem, &["2.0", "4.0"]), vec![46.0, 48.0]);
    let definition = RankingConfig {
        definition_boost: true,
        ..OFF
    };
    assert_eq!(pooled(definition, &["2.0", "4.0"]), vec![406.0, 408.0]);
    let penalty = RankingConfig {
        multiplicative_path_penalty: true,
        ..OFF
    };
    assert_eq!(pooled(penalty, &["2.0", "4.0"]), vec![3.0, 4.0]);
}

#[test]
fn best_score_of_a_pool_is_at_least_a_millionth() {
    assert_eq!(pooled(OFF, &["-3.0"]), vec![-3.0 + 1e-6]);
    assert_eq!(pooled(OFF, &["1e-9"]), vec![1e-9 + 1e-6]);
    assert!(pooled(OFF, &[]).is_empty());
}

#[test]
fn roles_are_labelled_by_class() {
    let label = file_role_label(
        "docs/a.md",
        Language::Markdown,
        |path: &str, language: Language| {
            path.starts_with("docs/") && language == Language::Markdown
        },
        |docs: bool| if docs { "docs" } else { "source" },
    );
    assert_eq!(label, "docs");
}
