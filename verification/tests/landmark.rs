use slam_core::landmark::{Landmark, LandmarkDB};
use slam_core::map::landmarks_within;

fn order_key(x: f64) -> u64 {
    let b = (x + 0.0).to_bits();
    if b >> 63 == 1 { !b } else { b | (1u64 << 63) }
}

fn value_key(x: f64) -> u64 {
    if x.is_nan() { u64::MAX } else { order_key(x) }
}

fn bound_key(x: f64) -> u64 {
    if x.is_nan() { 0 } else { order_key(x) }
}

/// One key per stored landmark: the descriptor distance where the
/// landmark is within the association thresholds, no match otherwise.
fn match_keys(db: &LandmarkDB<f64>, d: &Landmark<f64>) -> Vec<u64> {
    (0..db.len())
        .map(|id| {
            let s = db.get(id).unwrap();
            let pos = ((s.x - d.x).powi(2) + (s.y - d.y).powi(2)).sqrt();
            let desc = s
                .descriptor
                .iter()
                .zip(d.descriptor.iter())
                .map(|(a, b)| (a - b).powi(2))
                .sum::<f64>()
                .sqrt();
            if pos < 1.0 && desc < 2.0 { value_key(desc) } else { u64::MAX }
        })
        .collect()
}

fn associate(db: &mut LandmarkDB<f64>, d: Landmark<f64>) -> usize {
    let keys = match_keys(db, &d);
    db.associate_or_create(&keys, bound_key(f64::INFINITY), d)
}

#[test]
fn test_landmark_creation() {
    let lm: Landmark<f64> = Landmark::new(1.0, 2.0, vec![1.0, 2.0, 3.0]);
    assert!((lm.x - 1.0).abs() < 1e-9);
    assert!(lm.id.is_none());
}

#[test]
fn test_landmark_association() {
    let mut db = LandmarkDB::new();
    let lm1 = Landmark::new(1.0, 1.0, vec![1.0, 0.0]);
    let id1 = associate(&mut db, lm1);
    assert_eq!(id1, 0);

    // Same position, same descriptor → should associate
    let lm2 = Landmark::new(1.05, 0.95, vec![0.99, 0.01]);
    let id2 = associate(&mut db, lm2);
    assert_eq!(id1, id2);
    assert_eq!(db.len(), 1);
}

#[test]
fn test_new_landmark_creation() {
    let mut db = LandmarkDB::new();
    let lm1 = Landmark::new(1.0, 1.0, vec![1.0, 0.0]);
    associate(&mut db, lm1);
    let lm2 = Landmark::new(10.0, 10.0, vec![0.0, 1.0]);
    let id2 = associate(&mut db, lm2);
    assert_eq!(id2, 1);
    assert_eq!(db.len(), 2);
}

#[test]
fn test_landmark_detection_from_scan() {
    let scan = [(5.0f64, 0.0f64), (3.0, 1.0), (10.0, 2.0)];
    let keys: Vec<u64> = scan.iter().map(|&(range, _)| value_key(range)).collect();
    let kept = landmarks_within(&keys, bound_key(8.0));
    assert_eq!(kept.len(), 2); // Only range < 8.0
}

#[test]
fn created_landmark_is_found_under_its_id() {
    let mut db: LandmarkDB<i32> = LandmarkDB::new();
    assert!(db.is_empty());
    let a = db.associate_or_create(&vec![], 5, Landmark::new(1, 2, vec![7]));
    let b = db.associate_or_create(&vec![9], 5, Landmark::new(3, 4, vec![]));
    assert_eq!((a, b), (0, 1));
    let first = db.get(0).unwrap();
    assert_eq!((first.id, first.x, first.y, first.descriptor.clone()), (Some(0), 1, 2, vec![7]));
    assert_eq!(db.get(1).unwrap().id, Some(1));
    assert!(db.get(2).is_none());
    assert_eq!(db.next_id(), 2);
    assert!(!db.is_empty());
}

#[test]
fn stored_landmark_takes_its_identifier_whatever_it_carried() {
    let mut db: LandmarkDB<i32> = LandmarkDB::new();
    let mut lm = Landmark::new(0, 0, vec![]);
    lm.id = Some(41);
    let id = db.associate_or_create(&vec![], 1, lm);
    assert_eq!(id, 0);
    assert_eq!(db.get(0).unwrap().id, Some(0));
}

#[test]
fn best_match_is_the_first_smallest_key() {
    let mut db: LandmarkDB<i32> = LandmarkDB::new();
    for x in 0..3 {
        let keys = vec![u64::MAX; db.len()];
        db.associate_or_create(&keys, 5, Landmark::new(x, 0, vec![]));
    }
    assert_eq!(db.associate_or_create(&vec![4, 2, 2], 5, Landmark::new(9, 9, vec![])), 1);
    assert_eq!(db.len(), 3);
    assert_eq!(db.associate_or_create(&vec![5, 6, 7], 5, Landmark::new(9, 9, vec![])), 3);
    assert_eq!(db.get(3).unwrap().x, 9);
}

#[test]
fn missing_keys_do_not_match_and_extra_keys_are_ignored() {
    let mut db: LandmarkDB<i32> = LandmarkDB::new();
    db.associate_or_create(&vec![], 5, Landmark::new(0, 0, vec![]));
    db.associate_or_create(&vec![9], 5, Landmark::new(1, 0, vec![]));
    // Only the first landmark has a key, and it matches.
    assert_eq!(db.associate_or_create(&vec![3], 5, Landmark::new(2, 0, vec![])), 0);
    // The third key has no landmark; nothing matches.
    assert_eq!(db.associate_or_create(&vec![9, 9, 1], 5, Landmark::new(2, 0, vec![])), 2);
    assert_eq!(db.len(), 3);
}

#[test]
fn moving_a_landmark_keeps_its_identifier_and_descriptor() {
    let mut db: LandmarkDB<f64> = LandmarkDB::new();
    db.associate_or_create(&vec![], 1, Landmark::new(1.0, 1.0, vec![0.5]));
    db.move_landmark(0, 2.0, 3.0);
    let lm = db.get(0).unwrap();
    assert_eq!((lm.id, lm.x, lm.y, lm.descriptor.clone()), (Some(0), 2.0, 3.0, vec![0.5]));
}
