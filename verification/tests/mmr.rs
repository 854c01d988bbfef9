use vera_core::mmr::mmr_order;
use vera_core::score::{max_of, min_of, Score};

struct Candidate {
    item: String,
    score: f32,
    embedding: Option<Vec<f32>>,
}

fn exact(value: f32) -> Score {
    Score::from_bits((value as f64).to_bits())
}

fn back(score: Score) -> f32 {
    f64::from_bits(score.to_bits()) as f32
}

fn cosine_similarity(a: &[f32], b: &[f32]) -> f32 {
    let dot: f32 = a.iter().zip(b).map(|(x, y)| x * y).sum();
    let norm_a: f32 = a.iter().map(|x| x * x).sum();
    let norm_b: f32 = b.iter().map(|y| y * y).sum();
    dot / (norm_a * norm_b).sqrt()
}

fn mmr_diversify(candidates: &[Candidate], target_k: usize, lambda: f32) -> Vec<String> {
    let scores: Vec<Score> = candidates.iter().map(|c| exact(c.score)).collect();
    let max_score = back(max_of(Score::negative_infinity(), &scores));
    let min_score = back(min_of(Score::infinity(), &scores));
    let range = if (max_score - min_score).abs() > 1e-6 {
        max_score - min_score
    } else {
        1.0
    };
    mmr_order(
        candidates.len(),
        target_k,
        |i: usize, j: usize| match (&candidates[i].embedding, &candidates[j].embedding) {
            (Some(a), Some(b)) => Some(exact(cosine_similarity(a, b))),
            _ => None,
        },
        |i: usize, near: Score| {
            let rel = ((candidates[i].score - min_score) / range).clamp(0.0, 1.0);
            exact(lambda * rel - (1.0 - lambda) * back(near))
        },
    )
    .into_iter()
    .map(|i| candidates[i].item.clone())
    .collect()
}

#[test]
fn test_mmr_diversify_empty_and_zero_k() {
    let empty: Vec<Candidate> = vec![];
    let res = mmr_diversify(&empty, 5, 0.7);
    assert!(res.is_empty());

    let cands = vec![Candidate {
        item: "a".to_string(),
        score: 1.0,
        embedding: Some(vec![1.0, 0.0]),
    }];
    let res0 = mmr_diversify(&cands, 0, 0.7);
    assert!(res0.is_empty());
}

#[test]
fn test_mmr_diversifies_away_from_duplicate_chunks() {
    // Candidate 0: query match A (score 1.0, direction [1, 0])
    // Candidate 1: duplicate of A with high score (score 0.95, direction [0.99, 0.01])
    // Candidate 2: distinct code B (score 0.80, direction [0, 1])
    let cands = vec![
        Candidate {
            item: "doc_A1".to_string(),
            score: 1.0,
            embedding: Some(vec![1.0, 0.0]),
        },
        Candidate {
            item: "doc_A2_duplicate".to_string(),
            score: 0.95,
            embedding: Some(vec![0.999, 0.001]),
        },
        Candidate {
            item: "doc_B_distinct".to_string(),
            score: 0.80,
            embedding: Some(vec![0.0, 1.0]),
        },
    ];

    // With pure relevance (lambda = 1.0), order is A1, A2, B
    let pure_rel = mmr_diversify(&cands, 2, 1.0);
    assert_eq!(pure_rel, vec!["doc_A1", "doc_A2_duplicate"]);

    // With diversity (lambda = 0.5), B is picked over duplicate A2
    let diversified = mmr_diversify(&cands, 2, 0.5);
    assert_eq!(diversified, vec!["doc_A1", "doc_B_distinct"]);
}

fn ranked(values: &[f32], target_k: usize) -> Vec<usize> {
    mmr_order(
        values.len(),
        target_k,
        |_: usize, _: usize| None,
        |i: usize, _: Score| exact(values[i]),
    )
}

#[test]
fn pure_relevance_ranks_a_pool_that_is_not_ordered() {
    let cand = |item: &str, score: f32| Candidate {
        item: item.to_string(),
        score,
        embedding: None,
    };
    let pool = vec![cand("lo", 0.2), cand("hi", 0.9)];
    assert_eq!(mmr_diversify(&pool, 2, 1.0), vec!["hi", "lo"]);
    assert_eq!(mmr_diversify(&pool, 7, 1.0), vec!["hi", "lo"]);
    assert_eq!(mmr_diversify(&pool, 1, 1.0), vec!["hi"]);
    assert_eq!(ranked(&[0.1, 0.9, 0.5], 3), vec![1, 2, 0]);
    assert_eq!(ranked(&[0.9, 0.5, 0.5], 3), vec![0, 1, 2]);
}

#[test]
fn equal_worth_goes_to_the_first() {
    assert_eq!(ranked(&[0.5, 0.5, 0.9, 0.9], 4), vec![2, 3, 0, 1]);
    assert_eq!(
        ranked(&[f32::NAN, f32::NEG_INFINITY, f32::NAN], 3),
        vec![0, 1, 2]
    );
}

#[test]
fn fewer_candidates_start_the_same() {
    let values = [0.3, 0.8, 0.1, 0.8, 0.5];
    let all = ranked(&values, 5);
    for k in 0..5 {
        assert_eq!(ranked(&values, k), all[..k].to_vec());
    }
    let mut sorted = all.clone();
    sorted.sort();
    assert_eq!(sorted, vec![0, 1, 2, 3, 4]);
}

#[test]
fn nearest_selected_candidate_counts() {
    // Similarities to candidate 0: -0.5 counts as none; to candidate 1: 0.9.
    let order = mmr_order(
        3,
        3,
        |i: usize, j: usize| {
            assert_eq!(i, if j == 0 { i } else { 2 });
            Some(exact(if j == 0 { -0.5 } else { 0.9 }))
        },
        |i: usize, near: Score| {
            if i == 2 {
                assert!(back(near) == 0.0 || back(near) == 0.9);
            } else {
                assert_eq!(near, Score::zero());
            }
            exact(1.0 - i as f32 * 0.1 - back(near))
        },
    );
    assert_eq!(order, vec![0, 1, 2]);
}

#[test]
fn redundant_candidate_comes_last() {
    // All are equally relevant; candidate 1 repeats candidate 0.
    let order = mmr_order(
        3,
        3,
        |i: usize, j: usize| Some(exact(if i + j == 1 { 1.0 } else { 0.1 })),
        |_: usize, near: Score| exact(0.5 - 0.5 * back(near)),
    );
    assert_eq!(order, vec![0, 2, 1]);
}
