use league_simulator_rust::QuantileSearch;
use statrs::distribution::{DiscreteCDF, Poisson};

/// The quantile of a Poisson distribution: the library's search, asked
/// about the cumulative distribution that statrs computes.
fn poisson_quantile(p: f64, lambda: f64) -> f64 {
    if p <= 0.0 {
        return 0.0;
    }
    if p >= 1.0 {
        return f64::INFINITY;
    }
    let poisson = Poisson::new(lambda).unwrap();
    let mut search = QuantileSearch::new((lambda * 3.0 + 20.0) as u64);
    while let Some(count) = search.probe() {
        search.narrow(poisson.cdf(count) < p);
    }
    search.result() as f64
}

/// Runs a search against a list of answers: `below[k]` is the answer for count `k`.
fn search_in(below: &[bool], upper: u64) -> (u64, Vec<u64>) {
    let mut search = QuantileSearch::new(upper);
    let mut asked = Vec::new();
    while let Some(count) = search.probe() {
        asked.push(count);
        search.narrow(below[count as usize]);
    }
    (search.result(), asked)
}

#[test]
fn test_poisson_quantile_matches_r() {
    // Lambda = 1.3218390805, various p values
    let lambda = 1.3218390805;

    let test_cases = vec![
        (0.1, 0.0),
        (0.2, 0.0),
        (0.3, 1.0),
        (0.4, 1.0),
        (0.5, 1.0),
        (0.6, 1.0),
        (0.7, 2.0),
        (0.8, 2.0),
        (0.9, 3.0),
    ];

    for (p, expected) in test_cases {
        let result = poisson_quantile(p, lambda);
        assert_eq!(result, expected, "qpois({}, {}) should be {}, got {}", p, lambda, expected, result);
    }
}

#[test]
fn test_boundary_cases() {
    // Test at exact CDF boundaries
    let lambda = 1.5;

    // P(X <= 1) = 0.557825 for Poisson(1.5)
    // So qpois(0.557825) should be 1, qpois(0.557826) should be 2
    let p_boundary = 0.557825;

    assert_eq!(poisson_quantile(p_boundary, lambda), 1.0);
    assert_eq!(poisson_quantile(p_boundary + 0.0001, lambda), 2.0);
}

#[test]
fn test_poisson_quantile() {
    // For lambda=1.5, p=0.5 should give approximately 1
    let q = poisson_quantile(0.5, 1.5);
    assert!(q >= 1.0 && q <= 2.0, "Median of Poisson(1.5) should be around 1-2");

    // Edge cases
    assert_eq!(poisson_quantile(0.0, 1.5), 0.0, "p=0 should give 0");
    assert!(poisson_quantile(0.99999, 1.5) < 20.0, "p~1 should give finite value");

    // Test with different lambdas
    let q_small = poisson_quantile(0.5, 0.5);
    let q_large = poisson_quantile(0.5, 5.0);
    assert!(q_large > q_small, "Larger lambda should give larger quantile");
}

#[test]
fn quantile_at_the_exact_cumulative_probability() {
    // The smallest k with CDF(k) >= p: at p = CDF(1) that is 1, just above it 2.
    let lambda = 1.5;
    let poisson = Poisson::new(lambda).unwrap();
    let at_one = poisson.cdf(1);
    assert_eq!(poisson_quantile(at_one, lambda), 1.0);
    assert_eq!(poisson_quantile(at_one + 1e-4, lambda), 2.0);
    let at_zero = poisson.cdf(0);
    assert_eq!(poisson_quantile(at_zero, lambda), 0.0);
    assert_eq!(poisson_quantile(at_zero + 1e-9, lambda), 1.0);
}

#[test]
fn quantile_is_smallest_count_reaching_p() {
    for lambda in [0.001, 0.3, 1.3218390805, 2.5, 7.0] {
        let poisson = Poisson::new(lambda).unwrap();
        for step in 1..100 {
            let p = f64::from(step) / 100.0;
            let k = poisson_quantile(p, lambda) as u64;
            assert!(poisson.cdf(k) >= p, "lambda {} p {}", lambda, p);
            if k > 0 {
                assert!(poisson.cdf(k - 1) < p, "lambda {} p {}", lambda, p);
            }
        }
    }
}

#[test]
fn search_finds_first_count_not_below() {
    for upper in 0..40u64 {
        for first_not_below in 0..=upper {
            let below: Vec<bool> = (0..upper).map(|k| k < first_not_below).collect();
            let (result, asked) = search_in(&below, upper);
            assert_eq!(result, first_not_below);
            assert!(asked.iter().all(|&k| k < upper));
            // Halving: at most log2(upper) + 1 questions.
            assert!(asked.len() as u32 <= 64 - upper.leading_zeros());
        }
    }
}

#[test]
fn search_asks_about_the_midpoint() {
    // Bracket [0, 23]: midpoints 11, 5, 2, 1, 0; the answers lead to 1.
    let below: Vec<bool> = (0..23).map(|k| k < 1).collect();
    let (result, asked) = search_in(&below, 23);
    assert_eq!(asked, vec![11, 5, 2, 1, 0]);
    assert_eq!(result, 1);
    // Everything below: the search ends at the bound.
    let (result, asked) = search_in(&[true; 23], 23);
    assert_eq!(asked, vec![11, 17, 20, 22]);
    assert_eq!(result, 23);
}

#[test]
fn search_with_empty_bracket_asks_nothing() {
    let search = QuantileSearch::new(0);
    assert_eq!(search.probe(), None);
    assert_eq!(search.result(), 0);
}

#[test]
fn search_does_not_overflow_at_the_top_of_the_range() {
    let mut search = QuantileSearch::new(u64::MAX);
    let mut questions = 0;
    while let Some(_) = search.probe() {
        search.narrow(true);
        questions += 1;
    }
    assert_eq!(search.result(), u64::MAX);
    assert_eq!(questions, 64);
}
