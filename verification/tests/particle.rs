use slam_core::particle::{hash_sample, noise_samples, resample_indices, resample_seed};

fn order_key(x: f64) -> u64 {
    let b = (x + 0.0).to_bits();
    if b >> 63 == 1 { !b } else { b | (1u64 << 63) }
}

fn sample(seed: u64) -> u64 {
    (seed.wrapping_mul(6364136223846793005).wrapping_add(1442695040888963407) >> 16) & 0xFFFF
}

#[test]
fn hash_sample_takes_bits_16_to_32_of_the_hash() {
    // 0 * M + I = 0x1405_7B7E_F767_814F, bits 16..32 = 0xF767.
    assert_eq!(hash_sample(0, 0), 0xF767);
    for i in [0u64, 1, 2, 49, 199, 1 << 40] {
        assert_eq!(hash_sample(i, 0), sample(i));
        assert_eq!(hash_sample(i, 7919), sample(i + 7919));
        assert!(hash_sample(i, 104729) < 65536);
    }
}

#[test]
fn noise_samples_give_three_samples_per_particle() {
    let s = noise_samples(50);
    assert_eq!(s.len(), 50);
    for (i, t) in s.iter().enumerate() {
        let i = i as u64;
        assert_eq!(*t, (sample(i), sample(i + 7919), sample(i + 104729)));
    }
}

#[test]
fn resample_seed_takes_bits_16_to_32_of_the_product() {
    assert_eq!(resample_seed(0), 0);
    assert_eq!(resample_seed(1), (1103515245 >> 16) & 0xFFFF);
    let bits = 2.0f64.to_bits();
    assert_eq!(resample_seed(bits), (bits.wrapping_mul(1103515245) >> 16) & 0xFFFF);
    assert!(resample_seed(u64::MAX) <= 0xFFFF);
}

fn resample_plan(weights: &[f64], r: f64) -> (Vec<u64>, Vec<u64>) {
    let n = weights.len();
    let step = 1.0 / n as f64;
    let mut c = 0.0;
    let mut cumulative = Vec::new();
    for (i, w) in weights.iter().enumerate() {
        c = if i == 0 { *w } else { c + w };
        cumulative.push(order_key(c));
    }
    let thresholds = (0..n).map(|m| order_key(r + m as f64 * step)).collect();
    (thresholds, cumulative)
}

/// The sampling offset drawn from the first particle's x coordinate.
fn offset(first_x: f64, n: usize) -> f64 {
    (resample_seed(first_x.to_bits()) as f64 / u16::MAX as f64) * (1.0 / n as f64)
}

#[test]
fn test_resampling() {
    // Particles spread around the origin; the first particle's x seeds the offset.
    let samples = noise_samples(50);
    let first_x = 0.0 + ((samples[0].0 as f64 / 65535.0) - 0.5) * 5.0 * 2.0;
    let weights = vec![1.0 / 50.0; 50];
    let (u, c) = resample_plan(&weights, offset(first_x, 50));
    let picked = resample_indices(&u, &c);
    assert_eq!(picked.len(), 50);
}

#[test]
fn equal_weights_keep_each_particle_once() {
    // Two particles of weight 0.5, the first at x = 1.1.
    let weights = vec![0.5, 0.5];
    let r = offset(1.1, 2);
    assert!(r > 0.0 && r <= 0.5);
    let (u, c) = resample_plan(&weights, r);
    assert_eq!(resample_indices(&u, &c), vec![0, 1]);
}

#[test]
fn offset_stays_within_one_step() {
    for x in [1.0f64, 1.1, -3.7, 1e-300, 123456.789] {
        let r = offset(x, 4);
        assert!(r >= 0.0 && r <= 0.25);
    }
    // The bit pattern of 1.0 ends in 52 zero bits: its seed, and offset, are 0.
    assert_eq!(resample_seed(1.0f64.to_bits()), 0);
}

#[test]
fn zero_offset_on_a_weight_boundary_keeps_the_earlier_particle() {
    // A sampling point equal to a cumulative weight does not move past it.
    let (u, c) = resample_plan(&[0.5, 0.5], 0.0);
    assert_eq!(resample_indices(&u, &c), vec![0, 0]);
}

#[test]
fn uniform_weights_keep_every_particle() {
    let weights = vec![0.25; 4];
    let (u, c) = resample_plan(&weights, 0.1);
    assert_eq!(resample_indices(&u, &c), vec![0, 1, 2, 3]);
}

#[test]
fn heavy_particle_is_picked_repeatedly() {
    let weights = vec![0.05, 0.8, 0.05, 0.1];
    let (u, c) = resample_plan(&weights, 0.1);
    // thresholds 0.1, 0.35, 0.6, 0.85 against cumulative 0.05, 0.85, 0.9, 1.0
    assert_eq!(resample_indices(&u, &c), vec![1, 1, 1, 1]);
}

#[test]
fn resampling_stops_at_the_last_particle() {
    let weights = vec![0.0, 0.0, 0.0];
    let (u, c) = resample_plan(&weights, 0.5);
    assert_eq!(resample_indices(&u, &c), vec![2, 2, 2]);
    assert_eq!(resample_indices(&vec![], &vec![]), Vec::<usize>::new());
}
