//! Landmark selection over distance keys.
//!
//! A landmark map compares landmarks by their distance to a query point.
//! Here each distance is given as a key: an integer that orders distances
//! as the distances themselves are ordered, smaller key meaning nearer.
//! The functions decide which landmarks a query selects.

use vstd::prelude::*;

verus! {

/// `i` is the position of the first smallest key of `keys`, and that key
/// is below `bound`.
pub open spec fn is_nearest(keys: Seq<u64>, bound: u64, i: int) -> bool {
    &&& 0 <= i < keys.len()
    &&& keys[i] < bound
    &&& forall|j: int| 0 <= j < keys.len() ==> keys[i] <= #[trigger] keys[j]
    &&& forall|j: int| 0 <= j < i ==> keys[i] < #[trigger] keys[j]
}

/// Some key of `keys` is below `bound`.
pub open spec fn any_below(keys: Seq<u64>, bound: u64) -> bool {
    exists|j: int| 0 <= j < keys.len() && #[trigger] keys[j] < bound
}

/// The landmark nearest to a query point: the position of the first
/// smallest distance key, provided that key is below `bound` (a landmark
/// at the bound's distance or further never counts). `None` when no key
/// is below `bound`, in particular when there is no landmark.
pub fn nearest_landmark(keys: &Vec<u64>, bound: u64) -> (r: Option<usize>)
    ensures
        r is None <==> !any_below(keys@, bound),
        r matches Some(i) ==> is_nearest(keys@, bound, i as int),
{
    let mut best: Option<usize> = None;
    let mut best_key: u64 = bound;
    let n: usize = keys.len();
    let mut i: usize = 0;
    while i < n
        invariant
            n == keys@.len(),
            i <= n,
            best is None ==> best_key == bound && forall|j: int| 0 <= j < i ==> keys@[j] >= bound,
            best matches Some(b) ==> {
                &&& b < i
                &&& best_key == keys@[b as int]
                &&& best_key < bound
                &&& forall|j: int| 0 <= j < i ==> best_key <= #[trigger] keys@[j]
                &&& forall|j: int| 0 <= j < b ==> best_key < #[trigger] keys@[j]
            },
        decreases n - i,
    {
        if keys[i] < best_key {
            best = Some(i);
            best_key = keys[i];
        }
        i = i + 1;
    }
    proof {
        if best is None {
            assert(!any_below(keys@, bound));
        }
    }
    best
}

/// The landmarks within a radius of a query point: the positions, in
/// increasing order, of the keys below `bound`.
pub fn landmarks_within(keys: &Vec<u64>, bound: u64) -> (r: Vec<usize>)
    ensures
        forall|k: int| 0 <= k < r@.len() ==> (#[trigger] r@[k]) < keys@.len() && keys@[r@[k] as int] < bound,
        forall|k: int, l: int| 0 <= k < l < r@.len() ==> #[trigger] r@[k] < #[trigger] r@[l],
        forall|j: int| 0 <= j < keys@.len() && #[trigger] keys@[j] < bound ==> r@.contains(j as usize),
{
    let mut r: Vec<usize> = Vec::new();
    let n: usize = keys.len();
    let mut i: usize = 0;
    while i < n
        invariant
            n == keys@.len(),
            i <= n,
            forall|k: int| 0 <= k < r@.len() ==> (#[trigger] r@[k]) < i && keys@[r@[k] as int] < bound,
            forall|k: int, l: int| 0 <= k < l < r@.len() ==> #[trigger] r@[k] < #[trigger] r@[l],
            forall|j: int| 0 <= j < i && #[trigger] keys@[j] < bound ==> r@.contains(j as usize),
        decreases n - i,
    {
        if keys[i] < bound {
            let ghost before = r@;
            r.push(i);
            assert forall|j: int| 0 <= j < i + 1 && #[trigger] keys@[j] < bound implies r@.contains(j as usize) by {
                if j < i {
                    let k = choose|k: int| 0 <= k < before.len() && before[k] == j as usize;
                    assert(r@[k] == j as usize);
                } else {
                    assert(r@[r@.len() - 1] == j as usize);
                }
            }
        }
        i = i + 1;
    }
    r
}

/// Some key is below both the bound and the threshold: the nearest
/// landmark exists and lies closer than the threshold.
pub open spec fn has_match(keys: Seq<u64>, bound: u64, threshold: u64) -> bool {
    exists|j: int| 0 <= j < keys.len() && #[trigger] keys[j] < bound && keys[j] < threshold
}

/// Whether the nearest landmark (its key below `bound`) lies closer than
/// `threshold`.
pub fn nearest_within(keys: &Vec<u64>, bound: u64, threshold: u64) -> (b: bool)
    ensures
        b == has_match(keys@, bound, threshold),
{
    match nearest_landmark(keys, bound) {
        Some(j) => {
            if keys[j] < threshold {
                true
            } else {
                assert forall|m: int| 0 <= m < keys@.len() && #[trigger] keys@[m] < bound implies !(keys@[m]
                    < threshold) by {
                    assert(keys@[j as int] <= keys@[m]);
                }
                false
            }
        },
        None => false,
    }
}

/// The rows of a key matrix as sequences.
pub open spec fn rows_of(rows: Seq<Vec<u64>>) -> Seq<Seq<u64>> {
    rows.map_values(|r: Vec<u64>| r@)
}

/// How many rows have a match: the nearest landmark of the row lies
/// closer than the threshold.
pub open spec fn match_count(rows: Seq<Seq<u64>>, bound: u64, threshold: u64) -> nat
    decreases rows.len(),
{
    if rows.len() == 0 {
        0
    } else {
        match_count(rows.drop_last(), bound, threshold) + if has_match(rows.last(), bound, threshold) {
            1nat
        } else {
            0nat
        }
    }
}

/// Map similarity's matches: for each landmark of one map, a row of
/// distance keys to the landmarks of the other map; counts the landmarks
/// whose nearest landmark in the other map lies closer than `threshold`.
pub fn count_matches(rows: &Vec<Vec<u64>>, bound: u64, threshold: u64) -> (count: usize)
    ensures
        count == match_count(rows_of(rows@), bound, threshold),
        count == rows@.map_values(|r: Vec<u64>| r@).filter(
            |r: Seq<u64>| exists|j: int| 0 <= j < r.len() && r[j] < bound && r[j] < threshold,
        ).len(),
{
    let n: usize = rows.len();
    let mut count: usize = 0;
    let mut i: usize = 0;
    let ghost all = rows_of(rows@);
    while i < n
        invariant
            n == rows@.len(),
            all == rows_of(rows@),
            i <= n,
            count == match_count(all.take(i as int), bound, threshold),
            count <= i,
        decreases n - i,
    {
        let hit = nearest_within(&rows[i], bound, threshold);
        assert(all.take(i + 1).drop_last() =~= all.take(i as int));
        assert(all.take(i + 1).last() == rows@[i as int]@);
        if hit {
            count = count + 1;
        }
        i = i + 1;
    }
    assert(all.take(n as int) =~= all);
    proof {
        lemma_match_count_counts_close_rows(all, bound, threshold);
    }
    count
}

/// Map similarity counts exactly the rows in which some landmark lies
/// below the bound and closer than the threshold, that is, the rows whose
/// nearest landmark lies closer than the threshold: a row all of whose
/// keys are at or beyond the threshold is not counted.
pub proof fn lemma_match_count_counts_close_rows(rows: Seq<Seq<u64>>, bound: u64, threshold: u64)
    ensures
        match_count(rows, bound, threshold) == rows.filter(
            |r: Seq<u64>| exists|j: int| 0 <= j < r.len() && r[j] < bound && r[j] < threshold,
        ).len(),
    decreases rows.len(),
{
    reveal(Seq::filter);
    if rows.len() > 0 {
        lemma_match_count_counts_close_rows(rows.drop_last(), bound, threshold);
        let r = rows.last();
        assert(has_match(r, bound, threshold) == exists|j: int| 0 <= j < r.len() && r[j] < bound && r[j] < threshold);
    }
}

/// Candidate `a` is a match in `row`: its key is below both the bound and
/// the threshold.
pub open spec fn close(row: Seq<u64>, a: int, bound: u64, threshold: u64) -> bool {
    0 <= a < row.len() && row[a] < bound && row[a] < threshold
}

/// Some candidate of `accepted` is a match in `row`.
pub open spec fn close_to_any(row: Seq<u64>, accepted: Seq<usize>, bound: u64, threshold: u64) -> bool {
    exists|i: int| 0 <= i < accepted.len() && close(row, #[trigger] accepted[i] as int, bound, threshold)
}

/// Row `k` of a key matrix, empty when the matrix has no such row.
pub open spec fn row_at(rows: Seq<Seq<u64>>, k: int) -> Seq<u64> {
    if 0 <= k < rows.len() { rows[k] } else { Seq::empty() }
}

/// The candidates a merge takes from the first `m`, in order: a
/// candidate is taken unless it matches a landmark already in the map or
/// a candidate taken before it.
pub open spec fn merge_accepted(
    to_map: Seq<Seq<u64>>,
    among: Seq<Seq<u64>>,
    bound: u64,
    threshold: u64,
    m: nat,
) -> Seq<usize>
    decreases m,
{
    if m == 0 {
        Seq::empty()
    } else {
        let acc = merge_accepted(to_map, among, bound, threshold, (m - 1) as nat);
        let k = m - 1;
        if !has_match(row_at(to_map, k), bound, threshold) && !close_to_any(row_at(among, k), acc, bound, threshold) {
            acc.push(k as usize)
        } else {
            acc
        }
    }
}

/// Merging another map into this one: the landmarks of the other map
/// (candidates) that are taken, in order. `to_map[k]` holds the distance
/// keys from candidate `k` to the landmarks already in this map and
/// `among[k][l]` the key from candidate `k` to candidate `l`; a candidate
/// is skipped as a duplicate when its nearest landmark, among those in the
/// map and the candidates taken before it, lies closer than `threshold`.
pub fn merge_selection(to_map: &Vec<Vec<u64>>, among: &Vec<Vec<u64>>, bound: u64, threshold: u64) -> (taken:
    Vec<usize>)
    ensures
        taken@ == merge_accepted(rows_of(to_map@), rows_of(among@), bound, threshold, to_map@.len()),
        forall|i: int| 0 <= i < taken@.len() ==> #[trigger] taken@[i] < to_map@.len(),
        forall|i: int, j: int| 0 <= i < j < taken@.len() ==> #[trigger] taken@[i] < #[trigger] taken@[j],
        forall|k: int| 0 <= k < to_map@.len() ==> (#[trigger] taken@.contains(k as usize) <==> {
            &&& !(exists|j: int| 0 <= j < to_map@[k]@.len() && to_map@[k]@[j] < bound && to_map@[k]@[j] < threshold)
            &&& !(exists|l: int|
                0 <= l < k && #[trigger] taken@.contains(l as usize) && k < among@.len() && l < among@[k]@.len()
                    && among@[k]@[l] < bound && among@[k]@[l] < threshold)
        }),
{
    let n: usize = to_map.len();
    let mut taken: Vec<usize> = Vec::new();
    let ghost tm = rows_of(to_map@);
    let ghost am = rows_of(among@);
    let mut k: usize = 0;
    while k < n
        invariant
            n == to_map@.len(),
            tm == rows_of(to_map@),
            am == rows_of(among@),
            k <= n,
            taken@ == merge_accepted(tm, am, bound, threshold, k as nat),
            forall|i: int| 0 <= i < taken@.len() ==> #[trigger] taken@[i] < k,
        decreases n - k,
    {
        assert(row_at(tm, k as int) == to_map@[k as int]@);
        let matched = nearest_within(&to_map[k], bound, threshold);
        let mut dup = matched;
        if !matched && k < among.len() {
            assert(row_at(am, k as int) == among@[k as int]@);
            let row = &among[k];
            let mut i: usize = 0;
            while i < taken.len() && !dup
                invariant
                    i <= taken@.len(),
                    row@ == row_at(am, k as int),
                    !matched,
                    dup ==> close_to_any(row@, taken@, bound, threshold),
                    !dup ==> forall|j: int| 0 <= j < i ==> !close(row@, #[trigger] taken@[j] as int, bound, threshold),
                decreases taken@.len() - i,
            {
                let a: usize = taken[i];
                if a < row.len() && row[a] < bound && row[a] < threshold {
                    dup = true;
                }
                i = i + 1;
            }
        }
        if !dup {
            taken.push(k);
        }
        k = k + 1;
    }
    proof {
        lemma_merge_takes_exactly(tm, am, bound, threshold, n as nat);
        assert forall|k: int| 0 <= k < n implies (#[trigger] taken@.contains(k as usize) <==> {
            &&& !(exists|j: int| 0 <= j < to_map@[k]@.len() && to_map@[k]@[j] < bound && to_map@[k]@[j] < threshold)
            &&& !(exists|l: int|
                0 <= l < k && #[trigger] taken@.contains(l as usize) && k < among@.len() && l < among@[k]@.len()
                    && among@[k]@[l] < bound && among@[k]@[l] < threshold)
        }) by {
            assert(tm[k] == to_map@[k]@);
            if k < among@.len() {
                assert(am[k] == among@[k]@);
            }
        }
    }
    taken
}

/// A merge takes candidates in increasing order, and takes candidate `k`
/// exactly when no landmark already in the map lies below the bound and
/// closer than the threshold to it (`to_map[k][j]`), and no earlier taken
/// candidate `l` does either (`among[k][l]`).
pub proof fn lemma_merge_takes_exactly(
    to_map: Seq<Seq<u64>>,
    among: Seq<Seq<u64>>,
    bound: u64,
    threshold: u64,
    m: nat,
)
    requires
        m <= usize::MAX,
        m <= to_map.len(),
    ensures
        ({
            let acc = merge_accepted(to_map, among, bound, threshold, m);
            &&& forall|i: int| 0 <= i < acc.len() ==> #[trigger] acc[i] < m
            &&& forall|i: int, j: int| 0 <= i < j < acc.len() ==> #[trigger] acc[i] < #[trigger] acc[j]
            &&& forall|k: int| 0 <= k < m ==> (#[trigger] acc.contains(k as usize) <==> {
                &&& !(exists|j: int| 0 <= j < to_map[k].len() && to_map[k][j] < bound && to_map[k][j] < threshold)
                &&& !(exists|l: int|
                    0 <= l < k && #[trigger] acc.contains(l as usize) && k < among.len() && l < among[k].len()
                        && among[k][l] < bound && among[k][l] < threshold)
            })
        }),
{
    lemma_merge_skips_duplicates(to_map, among, bound, threshold, m);
    let acc = merge_accepted(to_map, among, bound, threshold, m);
    assert forall|k: int| 0 <= k < m implies (#[trigger] acc.contains(k as usize) <==> {
        &&& !(exists|j: int| 0 <= j < to_map[k].len() && to_map[k][j] < bound && to_map[k][j] < threshold)
        &&& !(exists|l: int|
            0 <= l < k && #[trigger] acc.contains(l as usize) && k < among.len() && l < among[k].len()
                && among[k][l] < bound && among[k][l] < threshold)
    }) by {
        assert(row_at(to_map, k) == to_map[k]);
        if acc.contains(k as usize) {
            let i = choose|i: int| 0 <= i < acc.len() && acc[i] == k as usize;
            assert(!has_match(row_at(to_map, acc[i] as int), bound, threshold));
            if exists|l: int|
                0 <= l < k && #[trigger] acc.contains(l as usize) && k < among.len() && l < among[k].len()
                    && among[k][l] < bound && among[k][l] < threshold {
                let l = choose|l: int|
                    0 <= l < k && #[trigger] acc.contains(l as usize) && k < among.len() && l < among[k].len()
                        && among[k][l] < bound && among[k][l] < threshold;
                let j = choose|j: int| 0 <= j < acc.len() && acc[j] == l as usize;
                if i <= j {
                    if i < j {
                        assert(acc[i] < acc[j]);
                    }
                    assert(false);
                }
                assert(row_at(among, k) == among[k]);
                assert(close(row_at(among, acc[i] as int), acc[j] as int, bound, threshold));
            }
        } else {
            if !has_match(row_at(to_map, k), bound, threshold) {
                let j = choose|j: int|
                    0 <= j < acc.len() && acc[j] < k && close(row_at(among, k), #[trigger] acc[j] as int, bound, threshold);
                let l = acc[j] as int;
                assert(acc.contains(l as usize));
                assert(k < among.len());
                assert(row_at(among, k) == among[k]);
            }
        }
    }
}

/// A merge takes candidates in increasing order; no candidate it takes
/// matches a landmark already in the map or a candidate taken before it;
/// and every candidate it skips matches a landmark already in the map or
/// an earlier candidate it took.
pub proof fn lemma_merge_skips_duplicates(
    to_map: Seq<Seq<u64>>,
    among: Seq<Seq<u64>>,
    bound: u64,
    threshold: u64,
    m: nat,
)
    requires
        m <= usize::MAX,
    ensures
        ({
            let acc = merge_accepted(to_map, among, bound, threshold, m);
            &&& forall|i: int| 0 <= i < acc.len() ==> #[trigger] acc[i] < m
            &&& forall|i: int, j: int| 0 <= i < j < acc.len() ==> #[trigger] acc[i] < #[trigger] acc[j]
            &&& forall|i: int| 0 <= i < acc.len() ==> !has_match(row_at(to_map, #[trigger] acc[i] as int), bound, threshold)
            &&& forall|i: int, j: int| 0 <= j < i < acc.len() ==> !close(
                    row_at(among, #[trigger] acc[i] as int),
                    #[trigger] acc[j] as int,
                    bound,
                    threshold,
                )
            &&& forall|k: int| 0 <= k < m && !acc.contains(k as usize) ==> has_match(row_at(to_map, k), bound, threshold)
                    || exists|j: int| 0 <= j < acc.len() && acc[j] < k && close(row_at(among, k), #[trigger] acc[j] as int, bound, threshold)
        }),
    decreases m,
{
    if m > 0 {
        lemma_merge_skips_duplicates(to_map, among, bound, threshold, (m - 1) as nat);
        let prev = merge_accepted(to_map, among, bound, threshold, (m - 1) as nat);
        let acc = merge_accepted(to_map, among, bound, threshold, m);
        let k = m - 1;
        let taken = !has_match(row_at(to_map, k), bound, threshold) && !close_to_any(row_at(among, k), prev, bound, threshold);
        assert((k as usize) as int == k);
        if taken {
            assert(acc == prev.push(k as usize));
            assert(forall|i: int| 0 <= i < prev.len() ==> acc[i] == prev[i]);
            assert forall|i: int, j: int| 0 <= j < i < acc.len() implies !close(
                row_at(among, #[trigger] acc[i] as int),
                #[trigger] acc[j] as int,
                bound,
                threshold,
            ) by {
                if i == acc.len() - 1 {
                    assert(acc[j] == prev[j]);
                    if close(row_at(among, k), prev[j] as int, bound, threshold) {
                        assert(close_to_any(row_at(among, k), prev, bound, threshold));
                    }
                }
            }
            assert forall|q: int| 0 <= q < m && !acc.contains(q as usize) implies has_match(row_at(to_map, q), bound, threshold)
                || exists|j: int| 0 <= j < acc.len() && acc[j] < q && close(row_at(among, q), #[trigger] acc[j] as int, bound, threshold) by {
                if q < k {
                    if prev.contains(q as usize) {
                        let w = choose|w: int| 0 <= w < prev.len() && prev[w] == q as usize;
                        assert(acc[w] == q as usize);
                    }
                    if !has_match(row_at(to_map, q), bound, threshold) {
                        let j = choose|j: int| 0 <= j < prev.len() && prev[j] < q && close(row_at(among, q), #[trigger] prev[j] as int, bound, threshold);
                        assert(acc[j] == prev[j]);
                    }
                } else {
                    assert(acc[acc.len() - 1] == k as usize);
                }
            }
        } else {
            assert(acc == prev);
            assert forall|q: int| 0 <= q < m && !acc.contains(q as usize) implies has_match(row_at(to_map, q), bound, threshold)
                || exists|j: int| 0 <= j < acc.len() && acc[j] < q && close(row_at(among, q), #[trigger] acc[j] as int, bound, threshold) by {
                if q == k && !has_match(row_at(to_map, q), bound, threshold) {
                    let j = choose|j: int| 0 <= j < prev.len() && close(row_at(among, k), #[trigger] prev[j] as int, bound, threshold);
                    assert(prev[j] < k);
                }
            }
        }
    }
}

} // verus!
