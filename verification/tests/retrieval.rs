use vera_core::retrieval::{
    apply_filters, configured_max_file_size_bytes, fuse_and_augment_multi_query,
    multi_query_candidate_limit, normalize_queries, SavedIndexing,
};
use vera_core::score::Score;
use vera_core::types::{Language, SearchFilters, SearchResult};

fn result(line: u32) -> SearchResult {
    SearchResult {
        file_path: format!("src/f{}.rs", line),
        line_start: line,
        line_end: line,
        content: String::new(),
        language: Language::Rust,
        score: Score::zero(),
        symbol_name: None,
        symbol_type: None,
        part_index: Some(line),
    }
}

fn results(n: u32) -> Vec<SearchResult> {
    (0..n).map(result).collect()
}

fn lines(results: &[SearchResult]) -> Vec<u32> {
    results.iter().map(|r| r.line_start).collect()
}

fn strings(texts: &[&str]) -> Vec<String> {
    texts.iter().map(|t| t.to_string()).collect()
}

#[test]
fn filters_keep_order_and_limit() {
    let even = SearchFilters {
        predicate: Some(|r: &SearchResult| r.line_start % 2 == 0),
    };
    assert!(!even.is_empty());
    assert_eq!(lines(&apply_filters(results(9), &even, 3)), vec![0, 2, 4]);
    assert_eq!(
        lines(&apply_filters(results(9), &even, 50)),
        vec![0, 2, 4, 6, 8]
    );
    assert!(apply_filters(results(9), &even, 0).is_empty());
}

#[test]
fn filtering_twice_is_filtering_once() {
    let odd = SearchFilters {
        predicate: Some(|r: &SearchResult| r.line_start % 2 == 1),
    };
    let once = apply_filters(results(20), &odd, 6);
    let twice = apply_filters(once.clone(), &odd, 6);
    assert_eq!(lines(&once), lines(&twice));
    assert_eq!(
        lines(&apply_filters(results(20), &odd, 2)),
        lines(&once)[..2].to_vec()
    );
}

#[test]
fn no_filters_only_cut() {
    let none: SearchFilters<fn(&SearchResult) -> bool> = SearchFilters::default();
    assert!(none.is_empty());
    assert!(none.matches(&result(1)));
    assert_eq!(lines(&apply_filters(results(4), &none, 2)), vec![0, 1]);
    assert_eq!(lines(&apply_filters(results(4), &none, 9)), vec![0, 1, 2, 3]);
}

#[test]
fn queries_are_collapsed_and_deduplicated() {
    let normalized = normalize_queries(&strings(&[
        "  read \t config\n file ",
        "",
        " \u{3000}\u{a0} ",
        "Read config FILE",
        "write config",
        "read config file",
        "WRITE  config",
    ]));
    assert_eq!(normalized, strings(&["read config file", "write config"]));
}

#[test]
fn only_ascii_case_is_folded() {
    assert_eq!(
        normalize_queries(&strings(&["Größe", "GRÖSSE", "größe", "GRöße", "ÄB", "äb"])),
        strings(&["Größe", "GRÖSSE", "ÄB", "äb"])
    );
}

#[test]
fn normalizing_twice_is_normalizing_once() {
    let once = normalize_queries(&strings(&[" a  b ", "A B", "c\u{2028}d", "e"]));
    assert_eq!(once, strings(&["a b", "c d", "e"]));
    assert_eq!(normalize_queries(&once), once);
    assert!(normalize_queries(&[]).is_empty());
}

#[test]
fn a_list_followed_by_itself_normalizes_the_same() {
    let list = strings(&[" a  b ", "", "C", "c", "d e"]);
    let twice: Vec<String> = list.iter().chain(list.iter()).cloned().collect();
    assert_eq!(normalize_queries(&twice), normalize_queries(&list));
}

#[test]
fn candidate_limit_over_fetches() {
    assert_eq!(multi_query_candidate_limit(0), 20);
    assert_eq!(multi_query_candidate_limit(5), 20);
    assert_eq!(multi_query_candidate_limit(10), 20);
    assert_eq!(multi_query_candidate_limit(11), 22);
    assert_eq!(multi_query_candidate_limit(50), 100);
    assert_eq!(multi_query_candidate_limit(usize::MAX), usize::MAX);
    assert_eq!(multi_query_candidate_limit(usize::MAX / 2 + 1), usize::MAX);
}

#[test]
fn read_cap_falls_back_to_the_default() {
    let saved = SavedIndexing::Decoded {
        max_file_size_bytes: 77,
    };
    assert_eq!(configured_max_file_size_bytes(saved, 1_000), 77);
    for fallback in [
        SavedIndexing::Undecodable,
        SavedIndexing::Absent,
        SavedIndexing::Unreadable,
    ] {
        assert_eq!(configured_max_file_size_bytes(fallback, 1_000), 1_000);
    }
}

#[test]
fn fusion_weighs_all_result_sets_alike() {
    let filters: SearchFilters<fn(&SearchResult) -> bool> = SearchFilters::default();
    let sets = vec![results(3), results(2)];
    let queries = strings(&["a", "b"]);
    let merged: Result<Vec<SearchResult>, String> = fuse_and_augment_multi_query(
        &queries,
        &sets,
        &filters,
        Score::from_bits(60.0f64.to_bits()),
        20,
        2,
        |sets: &[Vec<SearchResult>], weights: &Vec<Score>, k: Score, limit: usize| {
            assert_eq!(sets.len(), 2);
            assert_eq!(weights.len(), 2);
            assert!(weights.iter().all(|w| w.to_bits() == 1.0f64.to_bits()));
            assert_eq!(k.to_bits(), 60.0f64.to_bits());
            assert_eq!(limit, 20);
            sets.concat()
        },
        |queries: &[String], fused: Vec<SearchResult>, _, limit: usize| {
            assert_eq!(queries.len(), 2);
            Ok(fused.into_iter().take(limit).collect())
        },
    );
    assert_eq!(lines(&merged.unwrap()), vec![0, 1]);
}

#[test]
fn failed_augmentation_is_handed_on() {
    let filters: SearchFilters<fn(&SearchResult) -> bool> = SearchFilters::default();
    let merged: Result<Vec<SearchResult>, String> = fuse_and_augment_multi_query(
        &[],
        &[],
        &filters,
        Score::zero(),
        1,
        1,
        |_: &[Vec<SearchResult>], weights: &Vec<Score>, _: Score, _: usize| {
            assert!(weights.is_empty());
            vec![]
        },
        |_: &[String], _: Vec<SearchResult>, _, _: usize| Err("no index".to_string()),
    );
    assert_eq!(merged.err(), Some("no index".to_string()));
}
