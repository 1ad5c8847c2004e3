use permu::perm::is_permutation;
use permu::sampler::{sample_one, sample_pl};
use permu::Error;

#[test]
fn sample_pl_rejects_empty_weights() {
    assert_eq!(sample_pl(Vec::new(), 3).unwrap_err(), Error::InvalidWeightError);
}

#[test]
fn sample_pl_rejects_zero_weight() {
    assert_eq!(sample_pl(vec![5, 0, 2], 1).unwrap_err(), Error::InvalidWeightError);
}

#[test]
fn sample_pl_returns_permutations() {
    let pop = sample_pl(vec![3, 1, 2, 4], 50).unwrap();
    assert_eq!(pop.len(), 50);
    for p in &pop {
        assert_eq!(p.len(), 4);
        assert!(is_permutation(p));
    }
}

#[test]
fn sample_pl_single_item() {
    let pop = sample_pl(vec![7], 10).unwrap();
    assert_eq!(pop, vec![vec![0]; 10]);
}

#[test]
fn sample_one_is_permutation() {
    for _ in 0..20 {
        let p = sample_one(&vec![1, 1, 1, 1, 1]);
        assert!(is_permutation(&p));
    }
}

#[test]
fn dominant_weight_is_drawn_first_with_matching_frequency() {
    let n_samples = 20000;
    let pop = sample_pl(vec![1000, 1, 1], n_samples).unwrap();
    let firsts = pop.iter().filter(|p| p[0] == 0).count();
    let freq = firsts as f64 / n_samples as f64;
    // expected frequency 1000/1002, far outside any plausible deviation
    assert!(freq > 0.97, "frequency {} too far from 1000/1002", freq);
}

#[test]
fn zero_samples_give_empty_population() {
    let pop = sample_pl(vec![2, 3], 0).unwrap();
    assert!(pop.is_empty());
}
