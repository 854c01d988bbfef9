use vera_core::context_enrichment::{
    auto_merge_hierarchical_results, enrich_search_results, infer_parent_scope,
    EnrichedSearchResult,
};
use vera_core::score::Score;
use vera_core::types::{Language, SearchResult, SymbolType};

fn score(value: f64) -> Score {
    Score::from_bits(value.to_bits())
}

fn result(path: &str, lines: (u32, u32), content: &str, value: f64, name: &str) -> SearchResult {
    SearchResult {
        file_path: path.to_string(),
        line_start: lines.0,
        line_end: lines.1,
        content: content.to_string(),
        language: Language::Rust,
        score: score(value),
        symbol_name: if name.is_empty() {
            None
        } else {
            Some(name.to_string())
        },
        symbol_type: Some(SymbolType::Method),
        part_index: None,
    }
}

fn scope_of(path: &str, name: &str) -> Option<String> {
    infer_parent_scope(&result(path, (1, 2), "", 1.0, name))
}

#[test]
fn test_infer_parent_scope_from_symbol_hierarchy() {
    let r = SearchResult {
        file_path: "crates/vera-core/src/retrieval/hybrid.rs".to_string(),
        line_start: 10,
        line_end: 20,
        content: "fn fuse() {}".to_string(),
        language: Language::Rust,
        score: score(1.0),
        symbol_name: Some("HybridSearcher::fuse".to_string()),
        symbol_type: Some(SymbolType::Method),
        part_index: None,
    };

    let scope = infer_parent_scope(&r);
    assert_eq!(scope, Some("HybridSearcher".to_string()));
}

#[test]
fn test_infer_parent_scope_from_file_path() {
    let r = SearchResult {
        file_path: "crates/vera-core/src/retrieval/hybrid.rs".to_string(),
        line_start: 10,
        line_end: 20,
        content: "fn fuse() {}".to_string(),
        language: Language::Rust,
        score: score(1.0),
        symbol_name: Some("fuse".to_string()),
        symbol_type: Some(SymbolType::Function),
        part_index: None,
    };

    let scope = infer_parent_scope(&r);
    assert_eq!(scope, Some("retrieval::hybrid".to_string()));
}

#[test]
fn test_formatted_content_with_breadcrumbs() {
    let r = SearchResult {
        file_path: "src/service.rs".to_string(),
        line_start: 15,
        line_end: 25,
        content: "pub fn handle_request() {}".to_string(),
        language: Language::Rust,
        score: score(0.9),
        symbol_name: Some("service::handle_request".to_string()),
        symbol_type: Some(SymbolType::Function),
        part_index: None,
    };

    let enriched = EnrichedSearchResult {
        result: r,
        parent_scope: Some("service".to_string()),
        enclosing_signature: Some("impl ApiServer".to_string()),
    };

    let formatted = enriched.formatted_content();
    assert!(formatted.starts_with("// Scope: service\n// Enclosing: impl ApiServer\n"));
    assert!(formatted.contains("pub fn handle_request() {}"));
}

#[test]
fn test_auto_merge_hierarchical_results() {
    let r1 = SearchResult {
        file_path: "src/engine.rs".to_string(),
        line_start: 10,
        line_end: 25,
        content: "fn start() {}".to_string(),
        language: Language::Rust,
        score: score(0.8),
        symbol_name: Some("Engine::start".to_string()),
        symbol_type: Some(SymbolType::Method),
        part_index: None,
    };
    let r2 = SearchResult {
        file_path: "src/engine.rs".to_string(),
        line_start: 30,
        line_end: 45,
        content: "fn stop() {}".to_string(),
        language: Language::Rust,
        score: score(0.95),
        symbol_name: Some("Engine::stop".to_string()),
        symbol_type: Some(SymbolType::Method),
        part_index: None,
    };
    let r3 = SearchResult {
        file_path: "src/other.rs".to_string(),
        line_start: 1,
        line_end: 5,
        content: "fn helper() {}".to_string(),
        language: Language::Rust,
        score: score(0.7),
        symbol_name: Some("helper".to_string()),
        symbol_type: Some(SymbolType::Function),
        part_index: None,
    };

    let enriched = enrich_search_results(vec![r1, r2, r3], None);
    assert_eq!(enriched.len(), 3);

    let merged = auto_merge_hierarchical_results(enriched, 2);
    assert_eq!(merged.len(), 2);

    // The Engine container was merged
    let engine_item = merged
        .iter()
        .find(|m| m.parent_scope.as_deref() == Some("Engine"))
        .unwrap();
    assert_eq!(engine_item.result.line_start, 10);
    assert_eq!(engine_item.result.line_end, 45);
    assert_eq!(engine_item.result.score, score(0.95));
    assert!(engine_item.result.content.contains("fn start() {}"));
    assert!(engine_item.result.content.contains("fn stop() {}"));
    assert!(
        engine_item
            .result
            .content
            .contains("// ── Sibling Chunk ──")
    );
}

#[test]
fn scope_comes_from_the_last_separator() {
    assert_eq!(scope_of("x.py", "pkg.mod.Class"), Some("pkg.mod".to_string()));
    assert_eq!(scope_of("x.rs", "a::b::c"), Some("a::b".to_string()));
    assert_eq!(scope_of("x.rs", "a::b.c"), Some("a".to_string()));
    assert_eq!(scope_of("x.rs", "a:::b"), Some("a:".to_string()));
    assert_eq!(scope_of("x.rs", "::top"), Some(String::new()));
}

#[test]
fn module_scope_comes_from_the_first_source_directory() {
    assert_eq!(scope_of("src/a/mod.rs", ""), Some("a".to_string()));
    assert_eq!(scope_of("x/src/y/src/z.rs", ""), Some("y::src::z".to_string()));
    assert_eq!(scope_of("src/a.rs.rs", "main"), Some("a".to_string()));
    assert_eq!(scope_of("src/a/mod/mod.rs", ""), Some("a".to_string()));
    assert_eq!(scope_of("src/ünï/cödé.rs", ""), Some("ünï::cödé".to_string()));
    assert_eq!(scope_of("src/.rs", ""), None);
    assert_eq!(scope_of("src/", ""), None);
    assert_eq!(scope_of("lib/a.rs", "plain"), None);
}

#[test]
fn symbol_scope_does_not_depend_on_the_file() {
    assert_eq!(scope_of("src/a.rs", "S::f"), scope_of("lib/b.rs", "S::f"));
}

#[test]
fn content_without_context_stays_as_it_is() {
    let item = EnrichedSearchResult {
        result: result("lib/a.rs", (1, 2), "body", 1.0, "f"),
        parent_scope: None,
        enclosing_signature: None,
    };
    assert_eq!(item.formatted_content(), "body");
    let with_signature = EnrichedSearchResult {
        enclosing_signature: Some("impl A".to_string()),
        ..item.clone()
    };
    assert_eq!(
        with_signature.formatted_content(),
        "// Enclosing: impl A\nbody"
    );
    let with_scope = EnrichedSearchResult {
        parent_scope: Some("a".to_string()),
        ..item
    };
    assert_eq!(with_scope.formatted_content(), "// Scope: a\nbody");
}

#[test]
fn enrichment_gives_every_result_the_signature() {
    let enriched = enrich_search_results(
        vec![
            result("src/a.rs", (1, 2), "one", 0.5, "A::f"),
            result("lib/b.rs", (3, 4), "two", 0.25, ""),
        ],
        Some("impl A"),
    );
    assert_eq!(enriched.len(), 2);
    assert_eq!(enriched[0].parent_scope, Some("A".to_string()));
    assert_eq!(enriched[0].enclosing_signature, Some("impl A".to_string()));
    assert_eq!(enriched[0].result.content, "one");
    assert_eq!(enriched[1].parent_scope, None);
    assert_eq!(enriched[1].enclosing_signature, Some("impl A".to_string()));
    assert_eq!(enriched[1].result.line_end, 4);
}

fn pool() -> Vec<EnrichedSearchResult> {
    enrich_search_results(
        vec![
            result("src/e.rs", (30, 45), "c0", 0.8, "E::a"),
            result("src/o.rs", (1, 5), "c1", 0.7, "O::a"),
            result("src/e.rs", (10, 25), "c2", 0.95, "E::b"),
            result("lib/x.rs", (1, 5), "c3", 0.7, ""),
            result("src/o.rs", (8, 9), "c4", 0.2, "O::b"),
            result("src/e.rs", (50, 60), "c5", 0.1, "E::c"),
            result("lib/x.rs", (1, 5), "c6", 0.7, ""),
        ],
        None,
    )
}

#[test]
fn siblings_merge_in_the_place_of_the_first() {
    let merged = auto_merge_hierarchical_results(pool(), 3);
    let contents: Vec<&str> = merged.iter().map(|m| m.result.content.as_str()).collect();
    let marker = "\n\n// ── Sibling Chunk ──\n";
    let first = format!("c0{}c2{}c5", marker, marker);
    assert_eq!(contents, vec![first.as_str(), "c1", "c3", "c4", "c6"]);
    assert_eq!(merged[0].result.line_start, 10);
    assert_eq!(merged[0].result.line_end, 60);
    assert_eq!(merged[0].result.score, score(0.95));
    assert_eq!(merged[0].result.symbol_name, Some("E::a".to_string()));
}

#[test]
fn results_without_scope_are_not_merged() {
    let merged = auto_merge_hierarchical_results(pool(), 2);
    assert_eq!(merged.len(), 4);
    assert_eq!(merged[2].result.content, "c3");
    assert_eq!(merged[3].result.content, "c6");
}

#[test]
fn merging_twice_is_merging_once() {
    for min in 0..5 {
        let once = auto_merge_hierarchical_results(pool(), min);
        let twice = auto_merge_hierarchical_results(once.clone(), min);
        assert_eq!(once.len(), twice.len());
        for (a, b) in once.iter().zip(twice.iter()) {
            assert_eq!(a.formatted_content(), b.formatted_content());
            assert_eq!(a.result.line_start, b.result.line_start);
            assert_eq!(a.result.line_end, b.result.line_end);
            assert_eq!(a.result.score, b.result.score);
        }
    }
}

#[test]
fn two_siblings_are_the_least_that_merge() {
    let merged = auto_merge_hierarchical_results(
        vec![
            EnrichedSearchResult {
                result: result("src/engine.rs", (1, 2), "a", 0.5, ""),
                parent_scope: Some("Engine".to_string()),
                enclosing_signature: None,
            },
            EnrichedSearchResult {
                result: result("src/engine.rs", (5, 6), "b", 0.4, ""),
                parent_scope: Some("Engine".to_string()),
                enclosing_signature: None,
            },
        ],
        1,
    );
    assert_eq!(merged.len(), 1);
    assert_eq!(merged[0].result.line_start, 1);
    assert_eq!(merged[0].result.line_end, 6);
    assert_eq!(merged[0].result.score, score(0.5));
    for min in 0..3 {
        assert_eq!(auto_merge_hierarchical_results(pool(), min).len(), 4);
    }
    assert_eq!(auto_merge_hierarchical_results(pool(), 8).len(), 7);
    assert_eq!(auto_merge_hierarchical_results(pool()[..1].to_vec(), 0).len(), 1);
    assert_eq!(auto_merge_hierarchical_results(vec![], 2).len(), 0);
}

#[test]
fn merged_content_joins_the_siblings() {
    let merged = auto_merge_hierarchical_results(pool(), 2);
    assert_eq!(
        merged[0].result.content,
        ["c0", "c2", "c5"].join("\n\n// ── Sibling Chunk ──\n")
    );
    assert_eq!(
        merged[1].result.content,
        ["c1", "c4"].join("\n\n// ── Sibling Chunk ──\n")
    );
}

#[test]
fn same_scope_in_other_files_is_another_container() {
    let enriched = enrich_search_results(
        vec![
            result("src/a.rs", (1, 2), "one", 0.5, "A::f"),
            result("src/b.rs", (3, 4), "two", 0.25, "A::g"),
        ],
        None,
    );
    assert_eq!(auto_merge_hierarchical_results(enriched, 2).len(), 2);
}

#[test]
fn a_score_that_is_no_number_is_not_replaced() {
    let enriched = enrich_search_results(
        vec![
            result("src/a.rs", (1, 2), "one", f64::NAN, "A::f"),
            result("src/a.rs", (3, 4), "two", 0.25, "A::g"),
        ],
        None,
    );
    let merged = auto_merge_hierarchical_results(enriched, 2);
    assert_eq!(merged.len(), 1);
    assert!(merged[0].result.score.is_nan());
}

#[test]
fn merging_loses_no_container() {
    let key = |m: &EnrichedSearchResult| (m.result.file_path.clone(), m.parent_scope.clone());
    let before: Vec<_> = pool().iter().map(key).collect();
    for min in 0..5 {
        let after: Vec<_> = auto_merge_hierarchical_results(pool(), min)
            .iter()
            .map(key)
            .collect();
        assert!(after.len() <= before.len());
        assert!(before.iter().all(|k| after.contains(k)));
        assert!(after.iter().all(|k| before.contains(k)));
    }
}
