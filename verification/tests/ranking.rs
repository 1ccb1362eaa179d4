use nix_search::ranking::{
    best_results, is_listed_before, rank, to_unit_score, QueryResult, INFINITY, LIMIT, ONE,
};

fn hit(key: usize, score: f64) -> QueryResult {
    QueryResult { key, score: score.to_bits() }
}

#[test]
fn the_constants_are_the_patterns_of_one_and_infinity() {
    assert_eq!(ONE, 1.0f64.to_bits());
    assert_eq!(INFINITY, f64::INFINITY.to_bits());
    assert_eq!(LIMIT, 10);
}

#[test]
fn a_score_within_the_range_is_kept() {
    for x in [0.0f64, 1e-300, 0.25, 0.5, 0.33333333333333337, 0.9999999999999999, 1.0] {
        assert_eq!(to_unit_score(x.to_bits()), x.to_bits());
    }
}

#[test]
fn a_score_above_one_becomes_one() {
    for x in [1.0000000000000002f64, 1.5, 2.0, 1e300, f64::MAX, f64::INFINITY] {
        assert_eq!(to_unit_score(x.to_bits()), 1.0f64.to_bits());
    }
}

#[test]
fn a_score_below_zero_or_not_a_number_becomes_zero() {
    for x in [-0.0f64, -1e-300, -0.5, -1.0, f64::MIN, f64::NEG_INFINITY, f64::NAN, -f64::NAN] {
        assert_eq!(to_unit_score(x.to_bits()), 0.0f64.to_bits());
    }
}

#[test]
fn the_order_of_patterns_is_the_order_of_scores() {
    let scores = [0.0f64, 1e-310, 1e-300, 0.1, 0.25, 0.3, 0.5, 0.75, 0.9999999999999999, 1.0];
    for a in scores {
        for b in scores {
            assert_eq!(a < b, a.to_bits() < b.to_bits());
        }
    }
}

#[test]
fn the_higher_score_is_listed_first() {
    assert!(is_listed_before(&hit(5, 0.75), &hit(1, 0.5)));
    assert!(!is_listed_before(&hit(1, 0.5), &hit(5, 0.75)));
}

#[test]
fn with_equal_scores_the_lower_key_is_listed_first() {
    assert!(is_listed_before(&hit(1, 0.5), &hit(2, 0.5)));
    assert!(!is_listed_before(&hit(2, 0.5), &hit(1, 0.5)));
    assert!(!is_listed_before(&hit(1, 0.5), &hit(1, 0.5)));
}

#[test]
fn rank_orders_by_falling_score() {
    let hits = vec![hit(0, 0.25), hit(1, 1.0), hit(2, 0.5)];
    assert_eq!(rank(&hits, 10), vec![hit(1, 1.0), hit(2, 0.5), hit(0, 0.25)]);
}

#[test]
fn rank_breaks_ties_by_rising_key() {
    let hits = vec![hit(7, 0.5), hit(3, 0.5), hit(9, 1.0), hit(1, 0.5), hit(4, 1.0)];
    assert_eq!(
        rank(&hits, 10),
        vec![hit(4, 1.0), hit(9, 1.0), hit(1, 0.5), hit(3, 0.5), hit(7, 0.5)]
    );
}

#[test]
fn rank_keeps_the_best_up_to_the_limit() {
    let hits = vec![hit(0, 0.1), hit(1, 0.9), hit(2, 0.5), hit(3, 0.7), hit(4, 0.3)];
    assert_eq!(rank(&hits, 3), vec![hit(1, 0.9), hit(3, 0.7), hit(2, 0.5)]);
    assert_eq!(rank(&hits, 1), vec![hit(1, 0.9)]);
    assert_eq!(rank(&hits, 5).len(), 5);
    assert_eq!(rank(&hits, 6).len(), 5);
}

#[test]
fn rank_with_limit_zero_or_no_hits_is_empty() {
    let hits = vec![hit(0, 0.1), hit(1, 0.9)];
    assert_eq!(rank(&hits, 0), Vec::<QueryResult>::new());
    assert_eq!(rank(&Vec::new(), 10), Vec::<QueryResult>::new());
}

#[test]
fn rank_lists_a_repeated_result_once() {
    let hits = vec![hit(2, 0.5), hit(1, 0.5), hit(2, 0.5), hit(1, 0.5)];
    assert_eq!(rank(&hits, 10), vec![hit(1, 0.5), hit(2, 0.5)]);
}

#[test]
fn rank_does_not_depend_on_the_order_of_the_hits() {
    let mut hits: Vec<QueryResult> = Vec::new();
    let mut seed: u64 = 12345;
    for key in 0..40usize {
        seed = seed.wrapping_mul(6364136223846793005).wrapping_add(1442695040888963407);
        let score = ((seed >> 33) % 5) as f64 / 4.0;
        hits.push(hit(key, score));
    }
    let expected = rank(&hits, 10);
    assert_eq!(expected.len(), 10);
    for round in 0..20 {
        let mut shuffled = hits.clone();
        for i in (1..shuffled.len()).rev() {
            seed = seed.wrapping_mul(6364136223846793005).wrapping_add(1442695040888963407);
            let j = ((seed >> 33) as usize) % (i + 1);
            shuffled.swap(i, j);
        }
        assert_eq!(rank(&shuffled, 10), expected, "round {}", round);
    }
}

#[test]
fn rank_agrees_with_a_sort_of_std() {
    let mut hits: Vec<QueryResult> = Vec::new();
    let mut seed: u64 = 987;
    for key in 0..60usize {
        seed = seed.wrapping_mul(6364136223846793005).wrapping_add(1442695040888963407);
        let score = ((seed >> 40) % 7) as f64 / 6.0;
        hits.push(hit((key * 37) % 61, score));
    }
    let mut sorted = hits.clone();
    sorted.sort_by(|a, b| b.score.cmp(&a.score).then(a.key.cmp(&b.key)));
    for limit in [0usize, 1, 2, 9, 10, 11, 59, 60, 61, 1000] {
        let expected: Vec<QueryResult> = sorted.iter().take(limit).copied().collect();
        assert_eq!(rank(&hits, limit), expected, "limit {}", limit);
    }
}

#[test]
fn best_results_are_at_most_ten() {
    let hits: Vec<QueryResult> = (0..25).map(|k| hit(k, 0.5)).collect();
    let best = best_results(&hits);
    assert_eq!(best, (0..10).map(|k| hit(k, 0.5)).collect::<Vec<_>>());
}

#[test]
fn best_results_bring_scores_into_the_range() {
    let hits = vec![hit(0, 1.0000000000000002), hit(1, 0.5), hit(2, -0.25), hit(3, 1.0)];
    assert_eq!(
        best_results(&hits),
        vec![hit(0, 1.0), hit(3, 1.0), hit(1, 0.5), hit(2, 0.0)]
    );
}

#[test]
fn best_results_of_nothing_are_nothing() {
    assert_eq!(best_results(&Vec::new()), Vec::<QueryResult>::new());
}
