use vera_core::score::{max_of, min_of, Score};

fn score(value: f64) -> Score {
    Score::from_bits(value.to_bits())
}

fn samples() -> Vec<f64> {
    vec![
        f64::NEG_INFINITY,
        f64::MIN,
        -1.5,
        -f64::MIN_POSITIVE,
        -5e-324,
        -0.0,
        0.0,
        5e-324,
        1e-6,
        0.7,
        0.95,
        1.0,
        f64::MAX,
        f64::INFINITY,
        f64::NAN,
        -f64::NAN,
    ]
}

#[test]
fn scores_compare_as_their_values() {
    for a in samples() {
        assert_eq!(score(a).is_nan(), a.is_nan());
        assert_eq!(score(a).to_bits(), a.to_bits());
        for b in samples() {
            assert_eq!(score(a).exceeds(score(b)), a > b, "{} and {}", a, b);
        }
    }
}

#[test]
fn larger_and_smaller_are_those_of_the_values() {
    for a in samples() {
        for b in samples() {
            let larger = f64::from_bits(score(a).max(score(b)).to_bits());
            let smaller = f64::from_bits(score(a).min(score(b)).to_bits());
            if a.is_nan() && b.is_nan() {
                assert!(larger.is_nan() && smaller.is_nan());
            } else {
                assert!(larger == a.max(b));
                assert!(smaller == a.min(b));
            }
        }
    }
}

#[test]
fn constants_have_their_bits() {
    assert_eq!(Score::zero(), score(0.0));
    assert_eq!(Score::infinity(), score(f64::INFINITY));
    assert_eq!(Score::negative_infinity(), score(f64::NEG_INFINITY));
}

#[test]
fn extremes_of_many_scores() {
    let all: Vec<Score> = vec![score(0.3), score(f64::NAN), score(-2.0), score(0.9)];
    assert_eq!(max_of(Score::negative_infinity(), &all), score(0.9));
    assert_eq!(min_of(Score::infinity(), &all), score(-2.0));
    assert_eq!(max_of(score(1.0), &all), score(1.0));
    assert_eq!(max_of(Score::negative_infinity(), &vec![]), score(f64::NEG_INFINITY));
}

#[test]
fn zeros_are_told_apart_by_sign() {
    for (a, b) in [(0.0, -0.0), (-0.0, 0.0)] {
        assert_eq!(score(a).max(score(b)), score(0.0));
        assert_eq!(score(a).min(score(b)), score(-0.0));
        assert!(!score(a).exceeds(score(b)));
    }
}
