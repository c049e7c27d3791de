//! Perceptual k-means clustering over numeric triples.
//!
//! The clusterer works on [`Triple`] values: three nonnegative fixed-point
//! coordinates. LAB samples are carried with offset chroma (`a + 440`,
//! `b + 440` in milli-units) so that every sum stays nonnegative; raw RGB
//! samples are the plain byte values. Seeding is deterministic (striding
//! through the sample sequence), each iteration assigns every sample to
//! the nearest centroid (ties to the lowest index) and recomputes each
//! centroid as the componentwise floor mean of its members; a centroid
//! with no members keeps its previous value.

use vstd::prelude::*;
use vstd::arithmetic::div_mod::{lemma_div_is_ordered, lemma_div_multiples_vanish};
use rayon::iter::{IndexedParallelIterator, IntoParallelIterator, ParallelIterator};
use crate::color::{Lab, rgb_to_lab, lab_to_rgb, spec_rgb_to_lab, spec_lab_to_rgb};
use crate::ImageError;

verus! {

/// A clustering sample: three nonnegative coordinates. The first is a
/// lightness in milli-units (or a red byte), the other two are offset
/// chroma milli-units (or green/blue bytes).
#[derive(Clone, Copy, PartialEq, Eq, Structural, Debug)]
pub struct Triple {
    pub x: u64,
    pub y: u64,
    pub z: u64,
}

/// Coordinate ranges of every sample and centroid: wide enough for both
/// the offset LAB domain and the raw RGB domain.
pub open spec fn triple_wf(t: Triple) -> bool {
    t.x <= 100_000 && t.y <= 880_000 && t.z <= 880_000
}

/// All elements of a sample or centroid sequence are in range.
pub open spec fn triples_wf(s: Seq<Triple>) -> bool {
    forall|i: int| 0 <= i < s.len() ==> triple_wf(#[trigger] s[i])
}

/// Squared Euclidean distance of two triples.
pub open spec fn spec_tdist_sq(a: Triple, b: Triple) -> int {
    (a.x - b.x) * (a.x - b.x) + (a.y - b.y) * (a.y - b.y) + (a.z - b.z) * (a.z - b.z)
}

/// Quotient bound: `x <= b * d` gives `x / d <= b`.
proof fn lemma_div_le(x: int, b: int, d: int)
    requires
        0 < d,
        x <= b * d,
    ensures
        x / d <= b,
{
    lemma_div_is_ordered(x, b * d, d);
    assert(b * d == d * b) by (nonlinear_arith);
    lemma_div_multiples_vanish(b, d);
}

/// Squared Euclidean distance of two in-range triples.
pub fn tdist_sq(a: Triple, b: Triple) -> (d: u64)
    requires
        triple_wf(a),
        triple_wf(b),
    ensures
        d as int == spec_tdist_sq(a, b),
        d <= 3_000_000_000_000,
{
    let dx = if a.x >= b.x {
        a.x - b.x
    } else {
        b.x - a.x
    };
    let dy = if a.y >= b.y {
        a.y - b.y
    } else {
        b.y - a.y
    };
    let dz = if a.z >= b.z {
        a.z - b.z
    } else {
        b.z - a.z
    };
    proof {
        assert((dx as int) * (dx as int) == (a.x - b.x) * (a.x - b.x) && (dx as int) * (
        dx as int) <= 1_000_000_000_000) by (nonlinear_arith)
            requires
                dx <= 1_000_000u64,
                dx as int == if a.x >= b.x {
                    a.x - b.x
                } else {
                    b.x - a.x
                },
        ;
        assert((dy as int) * (dy as int) == (a.y - b.y) * (a.y - b.y) && (dy as int) * (
        dy as int) <= 1_000_000_000_000) by (nonlinear_arith)
            requires
                dy <= 1_000_000u64,
                dy as int == if a.y >= b.y {
                    a.y - b.y
                } else {
                    b.y - a.y
                },
        ;
        assert((dz as int) * (dz as int) == (a.z - b.z) * (a.z - b.z) && (dz as int) * (
        dz as int) <= 1_000_000_000_000) by (nonlinear_arith)
            requires
                dz <= 1_000_000u64,
                dz as int == if a.z >= b.z {
                    a.z - b.z
                } else {
                    b.z - a.z
                },
        ;
    }
    dx * dx + dy * dy + dz * dz
}

/// The index of the nearest centroid among the first `n`, scanning from
/// index 0 and keeping the current best on ties.
pub open spec fn spec_nearest_upto(cents: Seq<Triple>, s: Triple, n: int) -> int
    decreases n,
{
    if n <= 1 {
        0
    } else {
        let prev = spec_nearest_upto(cents, s, n - 1);
        if spec_tdist_sq(s, cents[n - 1]) < spec_tdist_sq(s, cents[prev]) {
            n - 1
        } else {
            prev
        }
    }
}

/// The index of the nearest centroid: the first one of smallest distance.
pub open spec fn spec_nearest(cents: Seq<Triple>, s: Triple) -> int {
    spec_nearest_upto(cents, s, cents.len() as int)
}

/// The nearest index is always a valid index.
pub proof fn lemma_nearest_in_range(cents: Seq<Triple>, s: Triple, n: int)
    requires
        1 <= n <= cents.len(),
    ensures
        0 <= spec_nearest_upto(cents, s, n) < n,
    decreases n,
{
    if n > 1 {
        lemma_nearest_in_range(cents, s, n - 1);
    }
}

/// Find the nearest centroid for one sample.
pub fn nearest_centroid(cents: &Vec<Triple>, s: Triple) -> (idx: usize)
    requires
        cents.len() >= 1,
        triples_wf(cents@),
        triple_wf(s),
    ensures
        idx < cents.len(),
        idx as int == spec_nearest(cents@, s),
{
    let mut best: usize = 0;
    let mut best_d: u64 = tdist_sq(s, cents[0]);
    let mut i: usize = 1;
    while i < cents.len()
        invariant
            1 <= i <= cents.len(),
            cents.len() >= 1,
            triples_wf(cents@),
            triple_wf(s),
            best < i,
            best as int == spec_nearest_upto(cents@, s, i as int),
            best_d as int == spec_tdist_sq(s, cents@[best as int]),
        decreases cents.len() - i,
    {
        let d = tdist_sq(s, cents[i]);
        if d < best_d {
            best = i;
            best_d = d;
        }
        i = i + 1;
    }
    best
}

/// The assignment vector: every sample mapped to its nearest centroid.
pub open spec fn spec_assign(samples: Seq<Triple>, cents: Seq<Triple>) -> Seq<usize> {
    Seq::new(samples.len(), |i: int| spec_nearest(cents, samples[i]) as usize)
}

/// Relies on rayon: an indexed parallel map over `0..n` collected into a
/// `Vec` places the image of index `i` at position `i`; the closure only
/// calls the verified `nearest_centroid`.
#[verifier::external_body]
fn par_assign(samples: &Vec<Triple>, cents: &Vec<Triple>) -> (r: Vec<usize>)
    requires
        cents.len() >= 1,
        triples_wf(samples@),
        triples_wf(cents@),
    ensures
        r@ == spec_assign(samples@, cents@),
{
    (0..samples.len()).into_par_iter().map(|i: usize| nearest_centroid(cents, samples[i])).collect()
}

/// How many of the first `n` samples are assigned to cluster `j`.
pub open spec fn spec_count_upto(asg: Seq<usize>, j: int, n: int) -> int
    decreases n,
{
    if n <= 0 {
        0
    } else {
        spec_count_upto(asg, j, n - 1) + if asg[n - 1] == j {
            1int
        } else {
            0int
        }
    }
}

/// Componentwise sum of the first `n` samples assigned to cluster `j`.
pub open spec fn spec_sum_upto(samples: Seq<Triple>, asg: Seq<usize>, j: int, n: int) -> (
    int,
    int,
    int,
)
    decreases n,
{
    if n <= 0 {
        (0, 0, 0)
    } else {
        let prev = spec_sum_upto(samples, asg, j, n - 1);
        if asg[n - 1] == j {
            (prev.0 + samples[n - 1].x, prev.1 + samples[n - 1].y, prev.2 + samples[n - 1].z)
        } else {
            prev
        }
    }
}

/// The cluster sums are bounded by the coordinate ranges times the count,
/// and the count by the number of samples.
pub proof fn lemma_sums_bounded(samples: Seq<Triple>, asg: Seq<usize>, j: int, n: int)
    requires
        triples_wf(samples),
        0 <= n <= samples.len(),
    ensures
        0 <= spec_count_upto(asg, j, n) <= n,
        0 <= spec_sum_upto(samples, asg, j, n).0 <= 100_000 * spec_count_upto(asg, j, n),
        0 <= spec_sum_upto(samples, asg, j, n).1 <= 880_000 * spec_count_upto(asg, j, n),
        0 <= spec_sum_upto(samples, asg, j, n).2 <= 880_000 * spec_count_upto(asg, j, n),
    decreases n,
{
    if n > 0 {
        lemma_sums_bounded(samples, asg, j, n - 1);
    }
}

/// The centroids after one update step: each cluster with members moves
/// to their componentwise floor mean, an empty cluster keeps its value.
pub open spec fn spec_update(samples: Seq<Triple>, asg: Seq<usize>, cents: Seq<Triple>) -> Seq<
    Triple,
> {
    Seq::new(
        cents.len(),
        |j: int|
            {
                let cnt = spec_count_upto(asg, j, samples.len() as int);
                let sums = spec_sum_upto(samples, asg, j, samples.len() as int);
                if cnt > 0 {
                    Triple {
                        x: (sums.0 / cnt) as u64,
                        y: (sums.1 / cnt) as u64,
                        z: (sums.2 / cnt) as u64,
                    }
                } else {
                    cents[j]
                }
            },
    )
}

/// One update step: accumulate per-cluster sums and counts, then move
/// every non-empty cluster to its floor mean.
fn update_centroids(samples: &Vec<Triple>, asg: &Vec<usize>, cents: &Vec<Triple>) -> (r: Vec<
    Triple,
>)
    requires
        samples.len() == asg.len(),
        samples.len() <= 4_000_000_000,
        cents.len() >= 1,
        triples_wf(samples@),
        triples_wf(cents@),
        forall|i: int| 0 <= i < asg.len() ==> (#[trigger] asg@[i]) < cents.len(),
    ensures
        r@ == spec_update(samples@, asg@, cents@),
        r.len() == cents.len(),
        triples_wf(r@),
{
    let k = cents.len();
    let n = samples.len();
    let mut sums_x: Vec<u64> = Vec::new();
    let mut sums_y: Vec<u64> = Vec::new();
    let mut sums_z: Vec<u64> = Vec::new();
    let mut counts: Vec<u64> = Vec::new();
    let mut j: usize = 0;
    while j < k
        invariant
            j <= k,
            sums_x.len() == j,
            sums_y.len() == j,
            sums_z.len() == j,
            counts.len() == j,
            forall|t: int|
                0 <= t < j ==> sums_x@[t] == 0 && sums_y@[t] == 0 && sums_z@[t] == 0
                    && counts@[t] == 0,
        decreases k - j,
    {
        sums_x.push(0);
        sums_y.push(0);
        sums_z.push(0);
        counts.push(0);
        j = j + 1;
    }
    let mut i: usize = 0;
    while i < n
        invariant
            i <= n,
            n == samples.len() == asg.len(),
            n <= 4_000_000_000,
            k == cents.len() >= 1,
            triples_wf(samples@),
            forall|t: int| 0 <= t < n ==> (#[trigger] asg@[t]) < k,
            sums_x.len() == k,
            sums_y.len() == k,
            sums_z.len() == k,
            counts.len() == k,
            forall|t: int|
                0 <= t < k ==> (#[trigger] counts@[t]) as int == spec_count_upto(
                    asg@,
                    t,
                    i as int,
                ),
            forall|t: int|
                 0 <= t < k ==> ((#[trigger] sums_x@[t]) as int, sums_y@[t] as int,
                sums_z@[t] as int) == spec_sum_upto(samples@, asg@, t, i as int),
        decreases n - i,
    {
        let c = asg[i];
        let s = samples[i];
        proof {
            lemma_sums_bounded(samples@, asg@, c as int, i as int);
            assert(100_000 * spec_count_upto(asg@, c as int, i as int) <= 100_000 * (n as int))
                by (nonlinear_arith)
                requires
                    spec_count_upto(asg@, c as int, i as int) <= n as int,
            ;
            assert(880_000 * spec_count_upto(asg@, c as int, i as int) <= 880_000 * (n as int))
                by (nonlinear_arith)
                requires
                    spec_count_upto(asg@, c as int, i as int) <= n as int,
            ;
        }
        let sx = sums_x[c];
        sums_x.set(c, sx + s.x);
        let sy = sums_y[c];
        sums_y.set(c, sy + s.y);
        let sz = sums_z[c];
        sums_z.set(c, sz + s.z);
        let cc = counts[c];
        counts.set(c, cc + 1);
        i = i + 1;
    }
    let mut r: Vec<Triple> = Vec::new();
    let mut j2: usize = 0;
    while j2 < k
        invariant
            j2 <= k,
            n == samples.len() == asg.len(),
            k == cents.len(),
            triples_wf(samples@),
            triples_wf(cents@),
            sums_x.len() == k,
            sums_y.len() == k,
            sums_z.len() == k,
            counts.len() == k,
            forall|t: int|
                0 <= t < k ==> (#[trigger] counts@[t]) as int == spec_count_upto(
                    asg@,
                    t,
                    n as int,
                ),
            forall|t: int|
                 0 <= t < k ==> ((#[trigger] sums_x@[t]) as int, sums_y@[t] as int,
                sums_z@[t] as int) == spec_sum_upto(samples@, asg@, t, n as int),
            r.len() == j2,
            forall|t: int|
                0 <= t < j2 ==> (#[trigger] r@[t]) == spec_update(samples@, asg@, cents@)[t],
            forall|t: int| 0 <= t < j2 ==> triple_wf(#[trigger] r@[t]),
        decreases k - j2,
    {
        let cnt = counts[j2];
        if cnt > 0 {
            proof {
                lemma_sums_bounded(samples@, asg@, j2 as int, n as int);
                lemma_div_le(spec_sum_upto(samples@, asg@, j2 as int, n as int).0, 100_000,
                    cnt as int);
                lemma_div_le(spec_sum_upto(samples@, asg@, j2 as int, n as int).1, 880_000,
                    cnt as int);
                lemma_div_le(spec_sum_upto(samples@, asg@, j2 as int, n as int).2, 880_000,
                    cnt as int);
                lemma_div_is_ordered(0, spec_sum_upto(samples@, asg@, j2 as int, n as int).0,
                    cnt as int);
                lemma_div_is_ordered(0, spec_sum_upto(samples@, asg@, j2 as int, n as int).1,
                    cnt as int);
                lemma_div_is_ordered(0, spec_sum_upto(samples@, asg@, j2 as int, n as int).2,
                    cnt as int);
            }
            r.push(Triple { x: sums_x[j2] / cnt, y: sums_y[j2] / cnt, z: sums_z[j2] / cnt });
        } else {
            r.push(cents[j2]);
        }
        j2 = j2 + 1;
    }
    proof {
        assert(r@ =~= spec_update(samples@, asg@, cents@));
    }
    r
}

/// The centroids and assignment vector after `iters` full iterations
/// from the given seed centroids. Zero iterations keep the seeds and an
/// all-zero assignment vector.
pub open spec fn spec_kmeans(samples: Seq<Triple>, init: Seq<Triple>, iters: int) -> (
    Seq<Triple>,
    Seq<usize>,
)
    decreases iters,
{
    if iters <= 0 {
        (init, Seq::new(samples.len(), |i: int| 0usize))
    } else {
        let prev = spec_kmeans(samples, init, iters - 1);
        let asg = spec_assign(samples, prev.0);
        (spec_update(samples, asg, prev.0), asg)
    }
}

/// All-zero assignment vector.
fn zero_assignments(n: usize) -> (r: Vec<usize>)
    ensures
        r@ == Seq::new(n as nat, |i: int| 0usize),
{
    let mut r: Vec<usize> = Vec::new();
    let mut i: usize = 0;
    while i < n
        invariant
            i <= n,
            r.len() == i,
            forall|t: int| 0 <= t < i ==> (#[trigger] r@[t]) == 0usize,
        decreases n - i,
    {
        r.push(0);
        i = i + 1;
    }
    proof {
        assert(r@ =~= Seq::new(n as nat, |i: int| 0usize));
    }
    r
}

/// Run the clusterer: `max_iter` iterations of assignment and update
/// from the given seed centroids.
///
/// The result is a pure function of the inputs — repeated runs return
/// identical centroids and assignments — and every assignment index is a
/// valid centroid index.
pub fn kmeans_run(samples: &Vec<Triple>, init: Vec<Triple>, max_iter: usize) -> (res: (
    Vec<Triple>,
    Vec<usize>,
))
    requires
        1 <= samples.len() <= 4_000_000_000,
        init.len() >= 1,
        triples_wf(samples@),
        triples_wf(init@),
    ensures
        res.0@ == spec_kmeans(samples@, init@, max_iter as int).0,
        res.1@ == spec_kmeans(samples@, init@, max_iter as int).1,
        res.0.len() == init.len(),
        res.1.len() == samples.len(),
        triples_wf(res.0@),
        forall|i: int| 0 <= i < res.1.len() ==> (#[trigger] res.1@[i]) < init.len(),
{
    let n = samples.len();
    let k = init.len();
    let mut cents = init;
    let mut asg = zero_assignments(n);
    let mut it: usize = 0;
    while it < max_iter
        invariant
            it <= max_iter,
            n == samples.len(),
            1 <= n <= 4_000_000_000,
            triples_wf(samples@),
            cents.len() == k >= 1,
            triples_wf(cents@),
            asg.len() == n,
            cents@ == spec_kmeans(samples@, init@, it as int).0,
            asg@ == spec_kmeans(samples@, init@, it as int).1,
            forall|i: int| 0 <= i < asg.len() ==> (#[trigger] asg@[i]) < k,
        decreases max_iter - it,
    {
        let new_asg = par_assign(samples, &cents);
        proof {
            assert forall|i: int| 0 <= i < new_asg.len() implies (#[trigger] new_asg@[i])
                < k by {
                lemma_nearest_in_range(cents@, samples@[i], k as int);
            }
        }
        let new_cents = update_centroids(samples, &new_asg, &cents);
        cents = new_cents;
        asg = new_asg;
        it = it + 1;
    }
    (cents, asg)
}

/// All coordinates of all triples lie within the given bounds.
pub open spec fn triples_bounded(s: Seq<Triple>, bx: int, by: int, bz: int) -> bool {
    forall|i: int|
        0 <= i < s.len() ==> (#[trigger] s[i]).x <= bx && s[i].y <= by && s[i].z <= bz
}

/// Cluster sums are bounded by the coordinate bounds times the count.
proof fn lemma_sums_bounded_gen(
    samples: Seq<Triple>,
    asg: Seq<usize>,
    j: int,
    n: int,
    bx: int,
    by: int,
    bz: int,
)
    requires
        triples_bounded(samples, bx, by, bz),
        0 <= n <= samples.len(),
        0 <= bx,
        0 <= by,
        0 <= bz,
    ensures
        0 <= spec_count_upto(asg, j, n) <= n,
        0 <= spec_sum_upto(samples, asg, j, n).0 <= bx * spec_count_upto(asg, j, n),
        0 <= spec_sum_upto(samples, asg, j, n).1 <= by * spec_count_upto(asg, j, n),
        0 <= spec_sum_upto(samples, asg, j, n).2 <= bz * spec_count_upto(asg, j, n),
    decreases n,
{
    if n > 0 {
        lemma_sums_bounded_gen(samples, asg, j, n - 1, bx, by, bz);
        let c = spec_count_upto(asg, j, n - 1);
        assert(bx * (c + 1) == bx * c + bx && by * (c + 1) == by * c + by && bz * (c + 1) == bz
            * c + bz) by (nonlinear_arith);
    }
}

/// An update step keeps every centroid within the coordinate bounds of
/// the samples and previous centroids.
pub proof fn lemma_update_bounded(
    samples: Seq<Triple>,
    asg: Seq<usize>,
    cents: Seq<Triple>,
    bx: int,
    by: int,
    bz: int,
)
    requires
        triples_bounded(samples, bx, by, bz),
        triples_bounded(cents, bx, by, bz),
        0 <= bx <= 1_000_000,
        0 <= by <= 1_000_000,
        0 <= bz <= 1_000_000,
    ensures
        triples_bounded(spec_update(samples, asg, cents), bx, by, bz),
{
    let upd = spec_update(samples, asg, cents);
    assert forall|j: int| 0 <= j < upd.len() implies (#[trigger] upd[j]).x <= bx && upd[j].y
        <= by && upd[j].z <= bz by {
        let n = samples.len() as int;
        let cnt = spec_count_upto(asg, j, n);
        lemma_sums_bounded_gen(samples, asg, j, n, bx, by, bz);
        if cnt > 0 {
            let sums = spec_sum_upto(samples, asg, j, n);
            lemma_div_le(sums.0, bx, cnt);
            lemma_div_le(sums.1, by, cnt);
            lemma_div_le(sums.2, bz, cnt);
            lemma_div_is_ordered(0, sums.0, cnt);
            lemma_div_is_ordered(0, sums.1, cnt);
            lemma_div_is_ordered(0, sums.2, cnt);
        }
    }
}

/// Every iteration keeps the centroids within the coordinate bounds of
/// the samples and seeds.
pub proof fn lemma_kmeans_bounded(
    samples: Seq<Triple>,
    init: Seq<Triple>,
    iters: int,
    bx: int,
    by: int,
    bz: int,
)
    requires
        triples_bounded(samples, bx, by, bz),
        triples_bounded(init, bx, by, bz),
        0 <= bx <= 1_000_000,
        0 <= by <= 1_000_000,
        0 <= bz <= 1_000_000,
    ensures
        triples_bounded(spec_kmeans(samples, init, iters).0, bx, by, bz),
    decreases
            if iters >= 0 {
                iters
            } else {
                0
            },
{
    if iters > 0 {
        lemma_kmeans_bounded(samples, init, iters - 1, bx, by, bz);
        let prev = spec_kmeans(samples, init, iters - 1).0;
        lemma_update_bounded(samples, spec_assign(samples, prev), prev, bx, by, bz);
    }
}

/// The seeding stride: every `max(1, n/k)`-th sample becomes a seed.
pub open spec fn spec_stride(n: int, k: int) -> int {
    if n / k >= 1 {
        n / k
    } else {
        1
    }
}

/// Deterministic strided seeding: seed `j` is the sample at index
/// `j * stride` while that is in range; the remaining slots repeat the
/// first sample (degenerate duplicate centroids are permitted).
pub open spec fn spec_seed_strided(labs: Seq<Triple>, k: int) -> Seq<Triple> {
    Seq::new(
        k as nat,
        |j: int|
            if j * spec_stride(labs.len() as int, k) < labs.len() {
                labs[j * spec_stride(labs.len() as int, k)]
            } else {
                labs[0]
            },
    )
}

/// Collect `k` seed centroids by striding through the samples.
pub fn seed_strided(labs: &Vec<Triple>, k: usize) -> (r: Vec<Triple>)
    requires
        labs.len() >= 1,
        k >= 1,
        triples_wf(labs@),
    ensures
        r@ == spec_seed_strided(labs@, k as int),
        r.len() == k,
        triples_wf(r@),
{
    let n = labs.len();
    let step = if n / k >= 1 {
        n / k
    } else {
        1
    };
    let mut r: Vec<Triple> = Vec::new();
    let mut j: usize = 0;
    while j < k
        invariant
            j <= k,
            k >= 1,
            n == labs.len() >= 1,
            triples_wf(labs@),
            step as int == spec_stride(n as int, k as int),
            1 <= step <= n,
            r.len() == j,
            forall|t: int| 0 <= t < j ==> (#[trigger] r@[t]) == spec_seed_strided(labs@, k as int)[t],
        decreases k - j,
    {
        proof {
            assert((j as int) * (step as int) <= 0xFFFF_FFFF_FFFF_FFFFint
                * 0xFFFF_FFFF_FFFF_FFFF) by (nonlinear_arith)
                requires
                    0 <= j as int <= 0xFFFF_FFFF_FFFF_FFFFint,
                    0 <= step as int <= 0xFFFF_FFFF_FFFF_FFFFint,
            ;
        }
        let idx = (j as u128) * (step as u128);
        if idx < n as u128 {
            let iu = idx as usize;
            r.push(labs[iu]);
        } else {
            r.push(labs[0]);
        }
        j = j + 1;
    }
    proof {
        assert(r@ =~= spec_seed_strided(labs@, k as int));
    }
    r
}

/// The offset-triple encoding of a LAB value: chroma shifted by +440
/// so that all coordinates are nonnegative.
pub open spec fn spec_lab_triple_of(c: Lab) -> Triple {
    Triple { x: c.l as u64, y: (c.a + 440_000) as u64, z: (c.b + 440_000) as u64 }
}

/// The offset triple standing for the LAB color of one RGB pixel.
pub open spec fn spec_pixel_triple(p: (u8, u8, u8)) -> Triple {
    let lab = spec_rgb_to_lab(p.0 as int, p.1 as int, p.2 as int);
    Triple { x: lab.0 as u64, y: (lab.1 + 440_000) as u64, z: (lab.2 + 440_000) as u64 }
}

/// Convert one pixel to its offset LAB triple.
pub fn pixel_triple(p: (u8, u8, u8)) -> (t: Triple)
    ensures
        t == spec_pixel_triple(p),
        triple_wf(t),
{
    let lab = rgb_to_lab(p.0, p.1, p.2);
    Triple { x: lab.l as u64, y: (lab.a + 440_000) as u64, z: (lab.b + 440_000) as u64 }
}

/// The RGB bytes of a centroid triple: the offset is removed and the
/// LAB value mapped back through the inverse transform.
pub open spec fn spec_triple_rgb(t: Triple) -> (int, int, int) {
    spec_lab_to_rgb(t.x as int, t.y as int - 440_000, t.z as int - 440_000)
}

/// Convert one centroid triple back to RGB bytes.
pub fn triple_rgb(t: Triple) -> (rgb: (u8, u8, u8))
    requires
        triple_wf(t),
    ensures
        (rgb.0 as int, rgb.1 as int, rgb.2 as int) == spec_triple_rgb(t),
{
    lab_to_rgb(t.x as i64, t.y as i64 - 440_000, t.z as i64 - 440_000)
}

/// The representative colors of a LAB-space clustering run: pixels are
/// converted to LAB, clustered for `iters` iterations from strided
/// seeds, and the final centroids converted back to RGB bytes.
pub open spec fn spec_kmeans_lab(pixels: Seq<(u8, u8, u8)>, k: int, iters: int) -> Seq<
    (int, int, int),
> {
    let labs = pixels.map_values(|p: (u8, u8, u8)| spec_pixel_triple(p));
    let init = spec_seed_strided(labs, k);
    let cents = spec_kmeans(labs, init, iters).0;
    Seq::new(k as nat, |j: int| spec_triple_rgb(cents[j]))
}

/// K-means color clustering in LAB space.
///
/// Returns the `k` representative colors of the pixel sequence after
/// `max_iter` iterations; the result is a pure function of the inputs.
/// An empty sample set or `k == 0` is an invalid parameter.
pub fn kmeans_lab(pixels: &[(u8, u8, u8)], k: usize, max_iter: usize) -> (res: Result<
    Vec<(u8, u8, u8)>,
    ImageError,
>)
    requires
        pixels@.len() <= 4_000_000_000,
    ensures
        match res {
            Ok(cols) => k >= 1 && pixels@.len() >= 1 && cols@.len() == k && forall|j: int|
                0 <= j < k ==> ((#[trigger] cols@[j]).0 as int, cols@[j].1 as int,
                cols@[j].2 as int) == spec_kmeans_lab(pixels@, k as int, max_iter as int)[j],
            Err(e) => e == ImageError::InvalidParameter && (k == 0 || pixels@.len() == 0),
        },
{
    let n = pixels.len();
    if k == 0 || n == 0 {
        return Err(ImageError::InvalidParameter);
    }
    let ghost glabs = pixels@.map_values(|p: (u8, u8, u8)| spec_pixel_triple(p));
    let mut labs: Vec<Triple> = Vec::new();
    let mut i: usize = 0;
    while i < n
        invariant
            i <= n,
            n == pixels@.len(),
            labs.len() == i,
            glabs == pixels@.map_values(|p: (u8, u8, u8)| spec_pixel_triple(p)),
            forall|t: int| 0 <= t < i ==> (#[trigger] labs@[t]) == glabs[t],
            triples_wf(labs@),
        decreases n - i,
    {
        let p = pixels[i];
        let t = pixel_triple(p);
        labs.push(t);
        i = i + 1;
    }
    proof {
        assert(labs@ =~= glabs);
    }
    let init = seed_strided(&labs, k);
    let run = kmeans_run(&labs, init, max_iter);
    let cents = run.0;
    let ghost gcents = spec_kmeans(glabs, spec_seed_strided(glabs, k as int), max_iter as int).0;
    let mut cols: Vec<(u8, u8, u8)> = Vec::new();
    let mut j: usize = 0;
    while j < k
        invariant
            j <= k,
            cents.len() == k,
            triples_wf(cents@),
            cents@ == gcents,
            cols.len() == j,
            forall|t: int|
                0 <= t < j ==> ((#[trigger] cols@[t]).0 as int, cols@[t].1 as int,
                cols@[t].2 as int) == spec_triple_rgb(gcents[t]),
        decreases k - j,
    {
        let rgb = triple_rgb(cents[j]);
        cols.push(rgb);
        j = j + 1;
    }
    Ok(cols)
}

/// Clustering is deterministic: two results that both satisfy the
/// contract of `kmeans_run` on the same inputs are equal.
pub proof fn lemma_kmeans_deterministic(
    samples: Seq<Triple>,
    init: Seq<Triple>,
    iters: int,
    r1: (Seq<Triple>, Seq<usize>),
    r2: (Seq<Triple>, Seq<usize>),
)
    requires
        r1 == spec_kmeans(samples, init, iters),
        r2 == spec_kmeans(samples, init, iters),
    ensures
        r1 == r2,
{
}

} // verus!
