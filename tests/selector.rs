use blobstore::error::StoreError;
use blobstore::next_file::SumSizeFile;
use blobstore::storage::RootDir;
use blobstore::wrr::{gcd, WeightedRoundRobin};

fn candidate(weight: i32) -> RootDir {
    let v = RootDir::new("v".to_string(), "./v".to_string(), weight > 0, 0, SumSizeFile::new());
    if weight > 0 {
        v.with_weight(weight)
    } else {
        v
    }
}

fn selector(weights: &[i32]) -> WeightedRoundRobin {
    let candidates: Vec<RootDir> = weights.iter().map(|w| candidate(*w)).collect();
    WeightedRoundRobin::new(&candidates)
}

fn picks(s: &mut WeightedRoundRobin, n: usize) -> Vec<usize> {
    (0..n).map(|_| s.next().unwrap().unwrap()).collect()
}

#[test]
fn selector_trace_for_five_one_one() {
    let mut s = selector(&[5, 1, 1]);
    assert_eq!(picks(&mut s, 7), vec![0, 0, 0, 0, 0, 1, 2]);
}

#[test]
fn selector_windows_match_weights() {
    let mut s = selector(&[5, 1, 1]);
    let seq = picks(&mut s, 30);
    for start in 0..=(seq.len() - 7) {
        let window = &seq[start..start + 7];
        assert_eq!(window.iter().filter(|i| **i == 0).count(), 5);
        assert_eq!(window.iter().filter(|i| **i == 1).count(), 1);
        assert_eq!(window.iter().filter(|i| **i == 2).count(), 1);
    }
}

#[test]
fn selector_uses_the_gcd_of_weights() {
    let mut s = selector(&[4, 2]);
    assert_eq!(picks(&mut s, 6), vec![0, 0, 1, 0, 0, 1]);
}

#[test]
fn selector_skips_zero_weights() {
    let mut s = selector(&[0, 3, 0]);
    assert_eq!(picks(&mut s, 4), vec![1, 1, 1, 1]);
}

#[test]
fn selector_without_candidates_fails_every_time() {
    let mut s = selector(&[]);
    for _ in 0..3 {
        assert_eq!(s.next(), Err(StoreError::NoCandidates));
    }
}

#[test]
fn selector_with_zero_weights_gives_none_every_time() {
    let mut s = selector(&[0, 0, 0]);
    for _ in 0..5 {
        assert_eq!(s.next(), Ok(None));
    }
}

#[test]
fn single_candidate_every_time() {
    let mut s = selector(&[3]);
    assert_eq!(picks(&mut s, 5), vec![0, 0, 0, 0, 0]);
}

#[test]
fn gcd_values() {
    assert_eq!(gcd(12, 18), 6);
    assert_eq!(gcd(0, 5), 5);
    assert_eq!(gcd(7, 0), 7);
    assert_eq!(gcd(0, 0), 0);
}
