//! Integer parts of particle-filter localization: the hash that spreads
//! particles around a pose, the seed of the resampling offset, and the
//! index walk of low-variance resampling.
//!
//! Weights and thresholds are given to the resampling walk as keys that
//! order them as the values themselves are ordered.

use vstd::prelude::*;

verus! {

/// Multiplier of the linear congruential hash used to spread particles.
pub const HASH_MULTIPLIER: u64 = 6364136223846793005;

/// Increment of the linear congruential hash used to spread particles.
pub const HASH_INCREMENT: u64 = 1442695040888963407;

/// The 16-bit sample drawn from `h`: bits 16..32 of `h`.
pub open spec fn sample_bits(h: int) -> int {
    (h / 65536) % 65536
}

/// The hash of a seed: `seed * HASH_MULTIPLIER` reduced modulo 2^64, plus
/// `HASH_INCREMENT`, reduced modulo 2^64 again.
pub open spec fn lcg_hash(seed: int) -> int {
    ((seed * HASH_MULTIPLIER) % 0x1_0000_0000_0000_0000 + HASH_INCREMENT) % 0x1_0000_0000_0000_0000
}

/// The 16-bit pseudo-random sample for particle `index` shifted by `offset`.
pub fn hash_sample(index: u64, offset: u64) -> (r: u64)
    requires
        index + offset <= u64::MAX,
    ensures
        r == sample_bits(lcg_hash(index + offset)),
        r < 65536,
{
    let seed: u64 = index + offset;
    let m: u64 = seed.wrapping_mul(HASH_MULTIPLIER);
    assert(m == (seed * HASH_MULTIPLIER) % 0x1_0000_0000_0000_0000);
    let h: u64 = m.wrapping_add(HASH_INCREMENT);
    assert(h == (m + HASH_INCREMENT) % 0x1_0000_0000_0000_0000);
    let r: u64 = (h >> 16u64) & 0xFFFFu64;
    assert(r == (h / 65536) % 65536) by (bit_vector)
        requires r == (h >> 16u64) & 0xFFFFu64;
    r
}

/// Offsets added to a particle's index to draw its x, y and heading
/// samples.
pub const X_OFFSET: u64 = 0;

/// See [`X_OFFSET`].
pub const Y_OFFSET: u64 = 7919;

/// See [`X_OFFSET`].
pub const THETA_OFFSET: u64 = 104729;

/// The three 16-bit samples (x, y, heading) of each of `count` particles
/// spread around a pose.
pub fn noise_samples(count: usize) -> (s: Vec<(u64, u64, u64)>)
    requires
        count + THETA_OFFSET <= u64::MAX,
    ensures
        s@.len() == count,
        forall|i: int| 0 <= i < count ==> {
            &&& (#[trigger] s@[i]).0 == sample_bits(lcg_hash(i + X_OFFSET))
            &&& s@[i].1 == sample_bits(lcg_hash(i + Y_OFFSET))
            &&& s@[i].2 == sample_bits(lcg_hash(i + THETA_OFFSET))
        },
{
    let mut s: Vec<(u64, u64, u64)> = Vec::new();
    let mut i: usize = 0;
    while i < count
        invariant
            i <= count,
            count + THETA_OFFSET <= u64::MAX,
            s@.len() == i,
            forall|k: int| 0 <= k < i ==> {
                &&& (#[trigger] s@[k]).0 == sample_bits(lcg_hash(k + X_OFFSET))
                &&& s@[k].1 == sample_bits(lcg_hash(k + Y_OFFSET))
                &&& s@[k].2 == sample_bits(lcg_hash(k + THETA_OFFSET))
            },
        decreases count - i,
    {
        let k: u64 = i as u64;
        let a: u64 = hash_sample(k, X_OFFSET);
        let b: u64 = hash_sample(k, Y_OFFSET);
        let c: u64 = hash_sample(k, THETA_OFFSET);
        s.push((a, b, c));
        i = i + 1;
    }
    s
}

/// Multiplier of the hash that seeds the resampling offset.
pub const SEED_MULTIPLIER: u64 = 1103515245;

/// The 16-bit seed of the resampling offset, drawn from the bit pattern
/// of the first particle's x coordinate: bits 16..32 of
/// `bits * SEED_MULTIPLIER` modulo 2^64. Divided by `u16::MAX`, it gives
/// a fraction of one sampling step.
pub fn resample_seed(bits: u64) -> (r: u64)
    ensures
        r == sample_bits((bits * SEED_MULTIPLIER) % 0x1_0000_0000_0000_0000),
        r <= 0xFFFF,
{
    let m: u64 = bits.wrapping_mul(SEED_MULTIPLIER);
    let r: u64 = (m >> 16u64) & 0xFFFFu64;
    assert(r == (m / 65536) % 65536) by (bit_vector)
        requires r == (m >> 16u64) & 0xFFFFu64;
    r
}

/// Where the resampling walk stops for threshold `u`, starting at
/// particle `i`: it moves to the next particle while `u` exceeds the
/// cumulative weight at the current particle and a next particle exists.
pub open spec fn settle(u: u64, cumulative: Seq<u64>, i: int) -> int
    decreases cumulative.len() - i,
{
    if 0 <= i < cumulative.len() - 1 && u > cumulative[i] {
        settle(u, cumulative, i + 1)
    } else {
        i
    }
}

/// The particles picked for the first `m` thresholds: each walk starts
/// where the previous one stopped, the first at particle 0.
pub open spec fn picks(thresholds: Seq<u64>, cumulative: Seq<u64>, m: nat) -> Seq<int>
    decreases m,
{
    if m == 0 {
        Seq::empty()
    } else {
        let p = picks(thresholds, cumulative, (m - 1) as nat);
        let from: int = if m == 1 { 0 } else { p.last() };
        p.push(settle(thresholds[m - 1], cumulative, from))
    }
}

/// `i` is the first particle whose cumulative weight reaches the
/// threshold `u`, or the last particle when none before it does.
pub open spec fn is_first_reaching(u: u64, cumulative: Seq<u64>, i: int) -> bool {
    &&& 0 <= i < cumulative.len()
    &&& forall|j: int| 0 <= j < i ==> u > #[trigger] cumulative[j]
    &&& (i == cumulative.len() - 1 || u <= cumulative[i])
}

/// The keys never decrease along the sequence.
pub open spec fn non_decreasing(s: Seq<u64>) -> bool {
    forall|i: int, j: int| 0 <= i <= j < s.len() ==> #[trigger] s[i] <= #[trigger] s[j]
}

/// Low-variance resampling: for each threshold in turn, the index of the
/// particle that is copied into the new particle set. `thresholds[m]` is
/// the m-th sampling point and `cumulative[i]` the sum of the weights of
/// particles `0..=i`.
pub fn resample_indices(thresholds: &Vec<u64>, cumulative: &Vec<u64>) -> (picked: Vec<usize>)
    requires
        thresholds@.len() == cumulative@.len(),
    ensures
        picked@.map_values(|i: usize| i as int) == picks(thresholds@, cumulative@, thresholds@.len()),
        non_decreasing(thresholds@) ==> forall|m: int|
            0 <= m < picked@.len() ==> is_first_reaching(thresholds@[m], cumulative@, #[trigger] picked@[m] as int),
{
    let n: usize = cumulative.len();
    let mut picked: Vec<usize> = Vec::new();
    let mut i: usize = 0;
    let mut m: usize = 0;
    let ghost f = |i: usize| i as int;
    assert(picked@.map_values(f) =~= picks(thresholds@, cumulative@, 0));
    while m < n
        invariant
            n == cumulative@.len(),
            n == thresholds@.len(),
            m <= n,
            f == (|i: usize| i as int),
            picked@.map_values(f) == picks(thresholds@, cumulative@, m as nat),
            i == (if m == 0 { 0 } else { picks(thresholds@, cumulative@, m as nat).last() }),
            i < n || n == 0,
            picked@.len() == m,
        decreases n - m,
    {
        let u: u64 = thresholds[m];
        let ghost start = i as int;
        while i < n - 1 && u > cumulative[i]
            invariant
                n == cumulative@.len(),
                m < n,
                i < n,
                u == thresholds@[m as int],
                settle(u, cumulative@, start) == settle(u, cumulative@, i as int),
            decreases n - i,
        {
            i = i + 1;
        }
        let ghost before = picked@;
        picked.push(i);
        assert(picked@.map_values(f) =~= before.map_values(f).push(i as int));
        m = m + 1;
    }
    proof {
        if non_decreasing(thresholds@) {
            lemma_picks_first_reaching(thresholds@, cumulative@, n as nat);
            assert forall|m: int| 0 <= m < picked@.len() implies is_first_reaching(
                thresholds@[m],
                cumulative@,
                #[trigger] picked@[m] as int,
            ) by {
                assert(picked@.map_values(f)[m] == picked@[m] as int);
                assert(picks(thresholds@, cumulative@, n as nat)[m] == picked@[m] as int);
                assert(is_first_reaching(thresholds@[m], cumulative@, picks(thresholds@, cumulative@, n as nat)[m]));
            }
        }
    }
    picked
}

/// Each resampling walk stops at a particle that exists, never before the
/// previous walk's particle, and where its threshold no longer exceeds the
/// cumulative weight unless it is the last particle.
pub proof fn lemma_picks_ordered(thresholds: Seq<u64>, cumulative: Seq<u64>, m: nat)
    requires
        thresholds.len() == cumulative.len(),
        m <= thresholds.len(),
    ensures
        ({
            let p = picks(thresholds, cumulative, m);
            &&& p.len() == m
            &&& forall|k: int| 0 <= k < m ==> 0 <= #[trigger] p[k] < cumulative.len()
            &&& forall|k: int, l: int| 0 <= k <= l < m ==> #[trigger] p[k] <= #[trigger] p[l]
            &&& forall|k: int| 0 <= k < m ==>
                    #[trigger] p[k] == cumulative.len() - 1 || thresholds[k] <= cumulative[p[k]]
        }),
    decreases m,
{
    if m > 0 {
        lemma_picks_ordered(thresholds, cumulative, (m - 1) as nat);
        let p = picks(thresholds, cumulative, (m - 1) as nat);
        let from: int = if m == 1 { 0 } else { p.last() };
        lemma_settle(thresholds[m - 1], cumulative, from);
    }
}

/// When the thresholds never decrease, each walk picks the first particle
/// whose cumulative weight reaches its threshold (or the last particle).
pub proof fn lemma_picks_first_reaching(thresholds: Seq<u64>, cumulative: Seq<u64>, m: nat)
    requires
        thresholds.len() == cumulative.len(),
        m <= thresholds.len(),
        non_decreasing(thresholds),
    ensures
        forall|k: int| 0 <= k < m ==>
            is_first_reaching(thresholds[k], cumulative, #[trigger] picks(thresholds, cumulative, m)[k]),
    decreases m,
{
    if m > 0 {
        lemma_picks_first_reaching(thresholds, cumulative, (m - 1) as nat);
        lemma_picks_ordered(thresholds, cumulative, (m - 1) as nat);
        let p = picks(thresholds, cumulative, (m - 1) as nat);
        let from: int = if m == 1 { 0 } else { p.last() };
        let u = thresholds[m - 1];
        if m > 1 {
            assert(is_first_reaching(thresholds[m - 2], cumulative, p[m - 2]));
            assert(thresholds[m - 2] <= u);
            assert forall|j: int| 0 <= j < from implies u > #[trigger] cumulative[j] by {
                assert(thresholds[m - 2] > cumulative[j]);
            }
        }
        lemma_settle_first_reaching(u, cumulative, from);
        let q = picks(thresholds, cumulative, m);
        assert forall|k: int| 0 <= k < m implies is_first_reaching(thresholds[k], cumulative, #[trigger] q[k]) by {
            if k < m - 1 {
                assert(q[k] == p[k]);
            }
        }
    }
}

/// A walk started at a particle before which every cumulative weight is
/// below the threshold stops at the first particle that reaches it.
pub proof fn lemma_settle_first_reaching(u: u64, cumulative: Seq<u64>, i: int)
    requires
        0 <= i < cumulative.len(),
        forall|j: int| 0 <= j < i ==> u > #[trigger] cumulative[j],
    ensures
        is_first_reaching(u, cumulative, settle(u, cumulative, i)),
    decreases cumulative.len() - i,
{
    if i < cumulative.len() - 1 && u > cumulative[i] {
        lemma_settle_first_reaching(u, cumulative, i + 1);
    }
}

/// When the cumulative weights never decrease and the m-th threshold lies
/// above the cumulative weight of particle `m - 1` and at most at that of
/// particle `m`, resampling keeps every particle exactly once, in order.
pub proof fn lemma_resample_keeps_each(thresholds: Seq<u64>, cumulative: Seq<u64>)
    requires
        thresholds.len() == cumulative.len(),
        non_decreasing(cumulative),
        forall|m: int| 0 < m < thresholds.len() ==> cumulative[m - 1] < #[trigger] thresholds[m],
        forall|m: int| 0 <= m < thresholds.len() - 1 ==> #[trigger] thresholds[m] <= cumulative[m],
    ensures
        forall|m: int| 0 <= m < thresholds.len() ==> #[trigger] picks(thresholds, cumulative, thresholds.len())[m] == m,
{
    let n = thresholds.len();
    assert forall|i: int, j: int| 0 <= i <= j < n implies #[trigger] thresholds[i] <= #[trigger] thresholds[j] by {
        if i < j {
            assert(thresholds[i] <= cumulative[i]);
            assert(cumulative[i] <= cumulative[j - 1]);
            assert(cumulative[j - 1] < thresholds[j]);
        }
    }
    lemma_picks_first_reaching(thresholds, cumulative, n);
    let p = picks(thresholds, cumulative, n);
    assert forall|m: int| 0 <= m < n implies #[trigger] p[m] == m by {
        assert(is_first_reaching(thresholds[m], cumulative, p[m]));
        assert(is_first_reaching(thresholds[m], cumulative, m)) by {
            assert forall|j: int| 0 <= j < m implies thresholds[m] > #[trigger] cumulative[j] by {
                assert(cumulative[j] <= cumulative[m - 1]);
            }
        }
        if p[m] < m {
            assert(thresholds[m] > cumulative[p[m]]);
        } else if m < p[m] {
            assert(thresholds[m] > cumulative[m]);
        }
    }
}

/// The walk from a particle stops at that particle or a later one, at a
/// particle that exists, where its threshold no longer exceeds the
/// cumulative weight unless it is the last particle.
pub proof fn lemma_settle(u: u64, cumulative: Seq<u64>, i: int)
    requires
        0 <= i < cumulative.len(),
    ensures
        i <= settle(u, cumulative, i) < cumulative.len(),
        settle(u, cumulative, i) == cumulative.len() - 1 || u <= cumulative[settle(u, cumulative, i)],
    decreases cumulative.len() - i,
{
    if i < cumulative.len() - 1 && u > cumulative[i] {
        lemma_settle(u, cumulative, i + 1);
    }
}

} // verus!
