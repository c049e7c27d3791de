//! Region segmentation: partition an image into `k` labeled regions by
//! k-means in LAB space, encode the regions as a byte mask, and extract
//! each observed mask value as an isolated RGBA layer.

use vstd::prelude::*;
use vstd::arithmetic::div_mod::{lemma_multiply_divide_lt, lemma_div_is_ordered};
use crate::cluster::{
    Triple, triples_wf, spec_kmeans, spec_pixel_triple, kmeans_run, pixel_triple,
};
use crate::quantize::spec_rgb_pixels;
use crate::ImageError;

verus! {

/// Number of clustering iterations of a segmentation run.
pub const SEG_ITERATIONS: usize = 10;

/// Spread seeding of a segmentation run: seed `j` is the sample at index
/// `j * n / k`, which spreads the seeds evenly over the sample sequence.
pub open spec fn spec_seed_spread(labs: Seq<Triple>, k: int) -> Seq<Triple> {
    Seq::new(k as nat, |j: int| labs[j * labs.len() / k])
}

/// Collect `k` seed centroids spread evenly over the samples.
pub fn seed_spread(labs: &Vec<Triple>, k: usize) -> (r: Vec<Triple>)
    requires
        labs.len() >= 1,
        k >= 1,
        triples_wf(labs@),
    ensures
        r@ == spec_seed_spread(labs@, k as int),
        r.len() == k,
        triples_wf(r@),
{
    let n = labs.len();
    let mut r: Vec<Triple> = Vec::new();
    let mut j: usize = 0;
    while j < k
        invariant
            j <= k,
            k >= 1,
            n == labs.len() >= 1,
            triples_wf(labs@),
            r.len() == j,
            forall|t: int| 0 <= t < j ==> (#[trigger] r@[t]) == spec_seed_spread(labs@, k as int)[t],
            triples_wf(r@),
        decreases k - j,
    {
        proof {
            assert((j as int) * (n as int) < (k as int) * (n as int)) by (nonlinear_arith)
                requires
                    j < k,
                    n >= 1,
            ;
            lemma_multiply_divide_lt((j as int) * (n as int), k as int, n as int);
            assert((k as int) * (n as int) == (n as int) * (k as int)) by (nonlinear_arith);
            assert((j as int) * (n as int) <= 0xFFFF_FFFF_FFFF_FFFFint
                * 0xFFFF_FFFF_FFFF_FFFF) by (nonlinear_arith)
                requires
                    0 <= j as int <= 0xFFFF_FFFF_FFFF_FFFFint,
                    0 <= n as int <= 0xFFFF_FFFF_FFFF_FFFFint,
            ;
        }
        let idx = ((j as u128) * (n as u128) / (k as u128)) as usize;
        r.push(labs[idx]);
        j = j + 1;
    }
    proof {
        assert(r@ =~= spec_seed_spread(labs@, k as int));
    }
    r
}

/// The region assignment of every pixel: k-means in LAB space over all
/// pixels, spread seeding, a fixed number of iterations.
pub open spec fn spec_segmentation(rgb: Seq<u8>, k: int) -> Seq<usize> {
    let labs = spec_rgb_pixels(rgb).map_values(|p: (u8, u8, u8)| spec_pixel_triple(p));
    spec_kmeans(labs, spec_seed_spread(labs, k), SEG_ITERATIONS as int).1
}

/// Cluster every pixel of a decoded RGB buffer into `k` regions in LAB
/// space and return the assignment vector.
///
/// The assignment vector has exactly one entry per pixel, every entry
/// is below `k`, and the result is a pure function of the inputs.
pub fn kmeans_segmentation(rgb: &Vec<u8>, width: usize, height: usize, k: usize) -> (res: Result<
    Vec<usize>,
    ImageError,
>)
    requires
        (width as int) * (height as int) <= 1_000_000_000,
        k <= 1_000_000_000,
    ensures
        match res {
            Ok(asg) => asg@ == spec_segmentation(rgb@, k as int) && asg@.len() == (width as int)
                * (height as int) && rgb@.len() == 3 * (width as int) * (height as int) && k >= 1
                && asg@.len() > 0 && forall|i: int|
                0 <= i < asg@.len() ==> (#[trigger] asg@[i]) < k,
            Err(e) => (e == ImageError::InvalidImage && rgb@.len() != 3 * (width as int) * (
            height as int)) || (e == ImageError::InvalidParameter && rgb@.len() == 3 * (
            width as int) * (height as int) && (k == 0 || rgb@.len() == 0)),
        },
{
    let n = width * height;
    proof {
        assert(3 * ((width as int) * (height as int)) == 3 * (width as int) * (height as int))
            by (nonlinear_arith);
    }
    if rgb.len() / 3 != n || rgb.len() % 3 != 0 {
        return Err(ImageError::InvalidImage);
    }
    if k == 0 || n == 0 {
        return Err(ImageError::InvalidParameter);
    }
    let ghost gpixels = spec_rgb_pixels(rgb@);
    let ghost glabs = gpixels.map_values(|p: (u8, u8, u8)| spec_pixel_triple(p));
    let mut labs: Vec<Triple> = Vec::new();
    let mut i: usize = 0;
    while i < n
        invariant
            i <= n,
            rgb@.len() == 3 * n,
            n <= 1_000_000_000,
            gpixels == spec_rgb_pixels(rgb@),
            glabs == gpixels.map_values(|p: (u8, u8, u8)| spec_pixel_triple(p)),
            labs.len() == i,
            forall|t: int| 0 <= t < i ==> (#[trigger] labs@[t]) == glabs[t],
            triples_wf(labs@),
        decreases n - i,
    {
        let t = pixel_triple((rgb[3 * i], rgb[3 * i + 1], rgb[3 * i + 2]));
        labs.push(t);
        i = i + 1;
    }
    proof {
        assert(labs@ =~= glabs);
    }
    let init = seed_spread(&labs, k);
    let run = kmeans_run(&labs, init, SEG_ITERATIONS);
    Ok(run.1)
}

/// The mask byte of one region index: `round(index / k * 255)`, a
/// monotone encoding of region identity.
pub open spec fn spec_mask_byte(idx: int, k: int) -> int {
    (idx * 510 + k) / (2 * k)
}

/// The segmentation mask of a decoded RGB buffer.
pub open spec fn spec_segment_mask(rgb: Seq<u8>, k: int) -> Seq<u8> {
    let asg = spec_segmentation(rgb, k);
    Seq::new(asg.len(), |i: int| spec_mask_byte(asg[i] as int, k) as u8)
}

/// Segment a decoded RGB buffer into `k` regions and encode the region
/// of every pixel as the mask byte `round(index / k * 255)`.
#[verifier::rlimit(100)]
pub fn segment_image(rgb: &Vec<u8>, width: usize, height: usize, k: usize) -> (res: Result<
    Vec<u8>,
    ImageError,
>)
    requires
        (width as int) * (height as int) <= 1_000_000_000,
        k <= 1_000_000_000,
    ensures
        match res {
            Ok(mask) => mask@ == spec_segment_mask(rgb@, k as int) && mask@.len() == (
            width as int) * (height as int) && rgb@.len() == 3 * (width as int) * (height as int)
                && k >= 1,
            Err(e) => (e == ImageError::InvalidImage && rgb@.len() != 3 * (width as int) * (
            height as int)) || (e == ImageError::InvalidParameter && rgb@.len() == 3 * (
            width as int) * (height as int) && (k == 0 || rgb@.len() == 0)),
        },
{
    let asg = match kmeans_segmentation(rgb, width, height, k) {
        Ok(a) => a,
        Err(e) => {
            return Err(e);
        },
    };
    let n = asg.len();
    let ghost gmask = spec_segment_mask(rgb@, k as int);
    let mut mask: Vec<u8> = Vec::new();
    let mut i: usize = 0;
    while i < n
        invariant
            i <= n,
            1 <= k <= 1_000_000_000,
            asg.len() == n,
            asg@ == spec_segmentation(rgb@, k as int),
            forall|t: int| 0 <= t < n ==> (#[trigger] asg@[t]) < k,
            gmask == spec_segment_mask(rgb@, k as int),
            gmask.len() == n,
            mask.len() == i,
            forall|t: int| 0 <= t < i ==> (#[trigger] mask@[t]) == gmask[t],
        decreases n - i,
    {
        let a = asg[i];
        proof {
            assert((a as int) * 510 + (k as int) < (2 * (k as int)) * 256) by (nonlinear_arith)
                requires
                    (a as int) < k as int,
            ;
            lemma_multiply_divide_lt((a as int) * 510 + (k as int), 2 * (k as int), 256);
            lemma_div_is_ordered(0, (a as int) * 510 + (k as int), 2 * (k as int));
        }
        let b = (((a as u64) * 510 + (k as u64)) / (2 * (k as u64))) as u8;
        mask.push(b);
        i = i + 1;
    }
    proof {
        assert(mask@ =~= gmask);
    }
    Ok(mask)
}

/// Whether some pixel of the mask carries the byte value `v`.
pub open spec fn spec_mask_contains(mask: Seq<u8>, v: int) -> bool {
    exists|i: int| 0 <= i < mask.len() && mask[i] == v
}

/// The observed mask values below `v`, in increasing order.
pub open spec fn spec_present_upto(mask: Seq<u8>, v: int) -> Seq<u8>
    decreases v,
{
    if v <= 0 {
        Seq::empty()
    } else {
        let prev = spec_present_upto(mask, v - 1);
        if spec_mask_contains(mask, v - 1) {
            prev.push((v - 1) as u8)
        } else {
            prev
        }
    }
}

/// All observed mask values, in increasing order.
pub open spec fn spec_present(mask: Seq<u8>) -> Seq<u8> {
    spec_present_upto(mask, 256)
}

/// The isolated RGBA layer of one mask value: pixels of that value keep
/// their color and become opaque, all others are fully transparent.
pub open spec fn spec_layer(rgb: Seq<u8>, mask: Seq<u8>, v: u8) -> Seq<u8> {
    Seq::new(
        mask.len() * 4,
        |t: int|
            if mask[t / 4] == v {
                if t % 4 == 0 {
                    rgb[3 * (t / 4)]
                } else if t % 4 == 1 {
                    rgb[3 * (t / 4) + 1]
                } else if t % 4 == 2 {
                    rgb[3 * (t / 4) + 2]
                } else {
                    255u8
                }
            } else {
                0u8
            },
    )
}

/// Extract one RGBA layer per observed mask value, in increasing order
/// of the value: grouping is by what the mask holds, not by an assumed
/// range of region identifiers.
pub fn extract_layers(rgb: &Vec<u8>, mask: &Vec<u8>, width: usize, height: usize) -> (res: Result<
    Vec<Vec<u8>>,
    ImageError,
>)
    requires
        (width as int) * (height as int) <= 1_000_000_000,
    ensures
        match res {
            Ok(layers) => rgb@.len() == 3 * (width as int) * (height as int) && mask@.len() == (
            width as int) * (height as int) && layers@.len() == spec_present(mask@).len()
                && forall|j: int|
                0 <= j < layers@.len() ==> (#[trigger] layers@[j])@ == spec_layer(
                    rgb@,
                    mask@,
                    spec_present(mask@)[j],
                ),
            Err(e) => e == ImageError::InvalidImage && (rgb@.len() != 3 * (width as int) * (
            height as int) || mask@.len() != (width as int) * (height as int)),
        },
{
    let n = width * height;
    proof {
        assert(3 * ((width as int) * (height as int)) == 3 * (width as int) * (height as int))
            by (nonlinear_arith);
    }
    if rgb.len() / 3 != n || rgb.len() % 3 != 0 || mask.len() != n {
        return Err(ImageError::InvalidImage);
    }
    let mut present: Vec<bool> = Vec::new();
    let mut v: usize = 0;
    while v < 256
        invariant
            v <= 256,
            present.len() == v,
            forall|t: int| 0 <= t < v ==> (#[trigger] present@[t]) == false,
        decreases 256 - v,
    {
        present.push(false);
        v = v + 1;
    }
    let mut i: usize = 0;
    while i < n
        invariant
            i <= n,
            mask.len() == n,
            present.len() == 256,
            forall|t: int|
                0 <= t < 256 ==> ((#[trigger] present@[t]) <==> exists|s: int|
                    0 <= s < i && mask@[s] == t),
        decreases n - i,
    {
        let m = mask[i] as usize;
        present.set(m, true);
        i = i + 1;
    }
    proof {
        assert forall|t: int| 0 <= t < 256 implies ((#[trigger] present@[t])
            <==> spec_mask_contains(mask@, t)) by {
        }
    }
    let mut layers: Vec<Vec<u8>> = Vec::new();
    let mut v2: usize = 0;
    while v2 < 256
        invariant
            v2 <= 256,
            n == mask.len(),
            rgb@.len() == 3 * n,
            n <= 1_000_000_000,
            present.len() == 256,
            forall|t: int|
                0 <= t < 256 ==> ((#[trigger] present@[t]) <==> spec_mask_contains(mask@, t)),
            layers@.len() == spec_present_upto(mask@, v2 as int).len(),
            forall|j: int|
                0 <= j < layers@.len() ==> (#[trigger] layers@[j])@ == spec_layer(
                    rgb@,
                    mask@,
                    spec_present_upto(mask@, v2 as int)[j],
                ),
        decreases 256 - v2,
    {
        if present[v2] {
            let ghost gl = spec_layer(rgb@, mask@, v2 as u8);
            let mut layer: Vec<u8> = Vec::new();
            let mut p: usize = 0;
            while p < n
                invariant
                    p <= n,
                    v2 < 256,
                    n == mask.len(),
                    rgb@.len() == 3 * n,
                    n <= 1_000_000_000,
                    gl == spec_layer(rgb@, mask@, v2 as u8),
                    gl.len() == 4 * n,
                    forall|t: int|
                        0 <= t < 4 * n ==> #[trigger] gl[t] == (if mask@[t / 4] == v2 as u8 {
                            if t % 4 == 0 {
                                rgb@[3 * (t / 4)]
                            } else if t % 4 == 1 {
                                rgb@[3 * (t / 4) + 1]
                            } else if t % 4 == 2 {
                                rgb@[3 * (t / 4) + 2]
                            } else {
                                255u8
                            }
                        } else {
                            0u8
                        }),
                    layer.len() == 4 * p,
                    forall|t: int| 0 <= t < 4 * p ==> (#[trigger] layer@[t]) == gl[t],
                decreases n - p,
            {
                if mask[p] as usize == v2 {
                    layer.push(rgb[3 * p]);
                    layer.push(rgb[3 * p + 1]);
                    layer.push(rgb[3 * p + 2]);
                    layer.push(255);
                } else {
                    layer.push(0);
                    layer.push(0);
                    layer.push(0);
                    layer.push(0);
                }
                p = p + 1;
            }
            proof {
                assert(layer@ =~= gl);
            }
            layers.push(layer);
        }
        v2 = v2 + 1;
    }
    Ok(layers)
}

} // verus!
