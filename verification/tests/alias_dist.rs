use markovpass::alias_dist::AliasDistribution;
use markovpass::errors::AliasDistributionError;
use rand::rngs::StdRng;
use rand::SeedableRng;

fn masses(dist: &AliasDistribution) -> Vec<u128> {
    let mut masses = vec![0u128; dist.len()];
    let total = dist.total();
    for column in 0..dist.len() {
        let kept = dist.probability_table()[column];
        masses[column] += kept;
        masses[dist.alias_table()[column]] += total - kept;
    }
    masses
}

#[test]
fn test_new() {
    let mut test_cases: Vec<Vec<i64>> = Vec::new();
    test_cases.push(vec![1, 2, 3, 4]);
    test_cases.push(vec![2, 2, 2, 2, 2]);
    test_cases.push(vec![3, 0, 5]);
    test_cases.push(vec![1, 2, 3, 4, 5, 6, 7, 8]);

    for weights in test_cases {
        let total: i64 = weights.iter().sum();
        let count = weights.len() as f64;
        let dist = AliasDistribution::new(&weights).unwrap();
        assert_eq!(dist.total(), total as u128);
        let mut ps = vec![0.0; weights.len()];
        for (i, (&j, &kept)) in dist
            .alias_table()
            .iter()
            .zip(dist.probability_table())
            .enumerate()
        {
            let p = kept as f64 / total as f64;
            ps[i] += p / count;
            ps[j] += (1.0 - p) / count;
        }
        for (p, w) in ps.iter().zip(&weights) {
            assert!((*p - *w as f64 / total as f64).abs() < 1.0e-6);
        }
        let exact = masses(&dist);
        for (mass, w) in exact.iter().zip(&weights) {
            assert_eq!(*mass, weights.len() as u128 * *w as u128);
        }
    }
}

#[test]
fn test_negative_weight() {
    let err = AliasDistribution::new(&vec![32, -3, 45]).unwrap_err();
    assert_eq!(err, AliasDistributionError::InvalidWeight);
}

#[test]
fn test_zero_distribution() {
    let err = AliasDistribution::new(&vec![0, 0, 0]).unwrap_err();
    assert_eq!(err, AliasDistributionError::NullDistribution);
}

#[test]
fn test_empty_distribution() {
    let err = AliasDistribution::new(&Vec::new()).unwrap_err();
    assert_eq!(err, AliasDistributionError::NullDistribution);
}

#[test]
fn test_choice() {
    let dist = AliasDistribution::new(&vec![1, 2, 3]).unwrap();
    let mut rng = StdRng::seed_from_u64(1);
    let choice = dist.choice(&mut rng);
    assert!(choice < 3, "{} is too large", choice);
}

#[test]
fn negative_weight_comes_before_null_distribution() {
    let err = AliasDistribution::new(&vec![0, -1, 0]).unwrap_err();
    assert_eq!(err, AliasDistributionError::InvalidWeight);
    let err = AliasDistribution::new(&vec![i64::MIN]).unwrap_err();
    assert_eq!(err, AliasDistributionError::InvalidWeight);
}

#[test]
fn tables_of_known_weights() {
    let dist = AliasDistribution::new(&vec![1, 3]).unwrap();
    assert_eq!(dist.len(), 2);
    assert_eq!(dist.total(), 4);
    assert_eq!(dist.weights(), &vec![1u64, 3]);
    // Column 0 keeps 2 of its 4 levels and gives 2 to index 1; column 1 keeps all.
    assert_eq!(dist.probability_table(), &vec![2, 4]);
    assert_eq!(dist.alias_table(), &vec![1, 1]);
    assert_eq!(dist.select(0, 0), 0);
    assert_eq!(dist.select(0, 1), 0);
    assert_eq!(dist.select(0, 2), 1);
    assert_eq!(dist.select(0, 3), 1);
    assert_eq!(dist.select(1, 0), 1);
    assert_eq!(dist.select(1, 3), 1);
}

#[test]
fn every_draw_is_counted_in_proportion() {
    let weights: Vec<i64> = vec![5, 0, 1, 9, 2, 0, 7];
    let dist = AliasDistribution::new(&weights).unwrap();
    let mut hits = vec![0u128; weights.len()];
    for column in 0..dist.len() {
        for level in 0..dist.total() {
            hits[dist.select(column, level)] += 1;
        }
    }
    for (k, w) in weights.iter().enumerate() {
        assert_eq!(hits[k], weights.len() as u128 * *w as u128);
    }
}

#[test]
fn a_single_weight_is_always_chosen() {
    let dist = AliasDistribution::new(&vec![0, 7, 0]).unwrap();
    let mut rng = StdRng::seed_from_u64(99);
    for _ in 0..200 {
        assert_eq!(dist.choice(&mut rng), 1);
    }
}

#[test]
fn largest_weights_do_not_overflow() {
    let weights: Vec<i64> = vec![i64::MAX, i64::MAX, 1, i64::MAX];
    let dist = AliasDistribution::new(&weights).unwrap();
    assert_eq!(dist.total(), 3 * (i64::MAX as u128) + 1);
    let exact = masses(&dist);
    for (mass, w) in exact.iter().zip(&weights) {
        assert_eq!(*mass, 4 * *w as u128);
    }
}

#[test]
fn sampling_approximates_the_weights() {
    let cases: Vec<Vec<i64>> = vec![
        vec![1, 2, 3, 4],
        vec![3, 0, 5],
        vec![1, 1],
        vec![10, 1, 1, 1, 1, 1, 1, 1, 1, 1, 1],
    ];
    let mut rng = StdRng::seed_from_u64(20240229);
    for weights in cases {
        let dist = AliasDistribution::new(&weights).unwrap();
        let total: i64 = weights.iter().sum();
        let draws = 200_000;
        let mut counts = vec![0u32; weights.len()];
        for _ in 0..draws {
            counts[dist.choice(&mut rng)] += 1;
        }
        for (count, w) in counts.iter().zip(&weights) {
            let seen = *count as f64 / draws as f64;
            let wanted = *w as f64 / total as f64;
            assert!((seen - wanted).abs() < 1.0e-2);
            if *w == 0 {
                assert_eq!(*count, 0);
            }
        }
    }
}

#[test]
fn choice_is_reproducible_from_a_seed() {
    let dist = AliasDistribution::new(&vec![4, 1, 3, 2]).unwrap();
    let mut first = StdRng::seed_from_u64(7);
    let mut second = StdRng::seed_from_u64(7);
    for _ in 0..100 {
        assert_eq!(dist.choice(&mut first), dist.choice(&mut second));
    }
}

#[test]
fn sampler_of_counts() {
    let dist = AliasDistribution::from_counts(&vec![2, 0, 6]).unwrap();
    assert_eq!(dist.len(), 3);
    assert_eq!(dist.total(), 8);
    assert_eq!(dist.weights(), &vec![2u64, 0, 6]);
    let exact = masses(&dist);
    assert_eq!(exact, vec![6, 0, 18]);
    let err = AliasDistribution::from_counts(&vec![0, 0]).unwrap_err();
    assert_eq!(err, AliasDistributionError::NullDistribution);
    let err = AliasDistribution::from_counts(&Vec::new()).unwrap_err();
    assert_eq!(err, AliasDistributionError::NullDistribution);
}

#[test]
fn largest_counts_do_not_overflow() {
    let weights: Vec<u64> = vec![u64::MAX, 1, u64::MAX];
    let dist = AliasDistribution::from_counts(&weights).unwrap();
    assert_eq!(dist.total(), 2 * (u64::MAX as u128) + 1);
    let exact = masses(&dist);
    for (mass, w) in exact.iter().zip(&weights) {
        assert_eq!(*mass, 3 * *w as u128);
    }
}

fn entropy(weights: &[u64]) -> f64 {
    let total: f64 = weights.iter().map(|w| *w as f64).sum();
    weights.iter().fold(0.0, |acc, weight| {
        if *weight == 0 {
            return acc;
        }
        let prob = *weight as f64 / total;
        acc - prob * prob.log2()
    })
}

#[test]
fn test_entropy() {
    let dist = AliasDistribution::new(&vec![1, 1]).unwrap();
    assert!((entropy(dist.weights()) - 1.0).abs() < 1.0e-6);
    let dist = AliasDistribution::new(&vec![1, 1, 2, 4]).unwrap();
    assert!((entropy(dist.weights()) - 1.75).abs() < 1.0e-6);
    let dist = AliasDistribution::new(&vec![0, 5, 0]).unwrap();
    assert_eq!(entropy(dist.weights()), 0.0);
}
