use slam_core::map::{count_matches, landmarks_within, merge_selection, nearest_landmark, nearest_within};

fn order_key(x: f64) -> u64 {
    let b = (x + 0.0).to_bits();
    if b >> 63 == 1 { !b } else { b | (1u64 << 63) }
}

fn value_key(x: f64) -> u64 {
    if x.is_nan() { u64::MAX } else { order_key(x) }
}

fn bound_key(x: f64) -> u64 {
    if x.is_nan() { 0 } else { order_key(x) }
}

fn distance_keys(points: &[(f64, f64)], x: f64, y: f64) -> Vec<u64> {
    points
        .iter()
        .map(|p| value_key(((p.0 - x).powi(2) + (p.1 - y).powi(2)).sqrt()))
        .collect()
}

#[test]
fn test_nearest_landmark() {
    let points = [(1.0, 0.0), (5.0, 0.0)];
    let keys = distance_keys(&points, 0.0, 0.0);
    let idx = nearest_landmark(&keys, bound_key(f64::INFINITY)).unwrap();
    assert_eq!(idx, 0);
    let dist = ((points[idx].0 - 0.0f64).powi(2) + (points[idx].1 - 0.0f64).powi(2)).sqrt();
    assert!((dist - 1.0).abs() < 1e-9);
}

#[test]
fn test_landmarks_within() {
    let points = [(1.0, 0.0), (5.0, 0.0), (9.0, 0.0)];
    let keys = distance_keys(&points, 0.0, 0.0);
    let within = landmarks_within(&keys, bound_key(3.0));
    assert_eq!(within.len(), 1);
}

#[test]
fn nearest_of_no_landmark_is_none() {
    assert_eq!(nearest_landmark(&vec![], bound_key(f64::INFINITY)), None);
}

#[test]
fn nearest_prefers_the_first_of_equal_distances() {
    let keys = vec![value_key(3.0), value_key(2.0), value_key(2.0), value_key(4.0)];
    assert_eq!(nearest_landmark(&keys, bound_key(f64::INFINITY)), Some(1));
}

#[test]
fn nearest_ignores_distances_at_or_beyond_the_bound() {
    let keys = vec![value_key(f64::INFINITY), value_key(f64::NAN)];
    assert_eq!(nearest_landmark(&keys, bound_key(f64::INFINITY)), None);
    let keys = vec![value_key(2.0), value_key(3.0)];
    assert_eq!(nearest_landmark(&keys, bound_key(2.0)), None);
    assert_eq!(nearest_landmark(&keys, bound_key(2.5)), Some(0));
}

#[test]
fn within_lists_indices_in_order() {
    let keys = vec![value_key(0.5), value_key(4.0), value_key(0.0), value_key(2.9), value_key(3.0)];
    assert_eq!(landmarks_within(&keys, bound_key(3.0)), vec![0, 2, 3]);
    assert_eq!(landmarks_within(&keys, bound_key(f64::NAN)), Vec::<usize>::new());
}

#[test]
fn keys_order_distances() {
    let xs = [0.0, -0.0, 1e-300, 0.5, 1.0, 2.0, 1e300, f64::INFINITY];
    for a in xs.iter() {
        for b in xs.iter() {
            assert_eq!(a < b, value_key(*a) < bound_key(*b));
        }
    }
}

fn dist(a: (f64, f64), b: (f64, f64)) -> f64 {
    ((a.0 - b.0).powi(2) + (a.1 - b.1).powi(2)).sqrt()
}

#[test]
fn test_map_similarity() {
    let m1 = [(0.0, 0.0), (1.0, 0.0)];
    let m2 = [(0.1, 0.0), (1.1, 0.0)];
    let rows: Vec<Vec<u64>> = m1.iter().map(|p| distance_keys(&m2, p.0, p.1)).collect();
    let matches = count_matches(&rows, bound_key(f64::INFINITY), bound_key(0.5));
    let sim = matches as f64 / m1.len().max(m2.len()) as f64;
    assert!(sim > 0.5, "sim={}", sim);
}

#[test]
fn test_map_merge() {
    let m1 = vec![(0.0, 0.0)];
    let m2 = vec![(5.0, 5.0), (0.1, 0.1)]; // Near m1's landmark
    let to_map: Vec<Vec<u64>> = m2.iter().map(|p| distance_keys(&m1, p.0, p.1)).collect();
    let among: Vec<Vec<u64>> = (0..m2.len()).map(|k| (0..k).map(|l| value_key(dist(m2[l], m2[k]))).collect()).collect();
    let taken = merge_selection(&to_map, &among, bound_key(f64::INFINITY), bound_key(0.5));
    assert_eq!(m1.len() + taken.len(), 2); // 1 original + 1 new (1 duplicate skipped)
    assert_eq!(taken, vec![0]);
}

#[test]
fn merge_skips_candidates_close_to_earlier_taken_ones() {
    let m2 = vec![(0.0, 0.0), (0.2, 0.0), (3.0, 0.0), (0.0, 0.3)];
    let to_map: Vec<Vec<u64>> = vec![vec![]; m2.len()];
    let among: Vec<Vec<u64>> = (0..m2.len()).map(|k| (0..k).map(|l| value_key(dist(m2[l], m2[k]))).collect()).collect();
    let taken = merge_selection(&to_map, &among, bound_key(f64::INFINITY), bound_key(0.5));
    assert_eq!(taken, vec![0, 2]);
}

#[test]
fn nearest_within_compares_only_the_nearest() {
    let keys = vec![value_key(2.0), value_key(0.4)];
    assert!(nearest_within(&keys, bound_key(f64::INFINITY), bound_key(0.5)));
    assert!(!nearest_within(&keys, bound_key(f64::INFINITY), bound_key(0.4)));
    assert!(!nearest_within(&vec![], bound_key(f64::INFINITY), bound_key(1.0)));
}
