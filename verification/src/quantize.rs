//! Color quantization: replace every pixel by one of `k` representative
//! colors found by k-means clustering.
//!
//! The RGBA path clusters raw RGB byte triples and writes the assigned
//! centroid of each pixel back, forcing the alpha channel to fully
//! opaque. The LAB path clusters in LAB space and then maps every pixel
//! to the nearest centroid in LAB space independently, recomputed after
//! clustering rather than read from the stored assignment vector.

use vstd::prelude::*;
use crate::cluster::{
    Triple, triples_wf, triples_bounded, spec_seed_strided, spec_kmeans, spec_nearest,
    spec_pixel_triple, spec_triple_rgb, spec_kmeans_lab, seed_strided, kmeans_run,
    nearest_centroid, pixel_triple, triple_rgb, lemma_kmeans_bounded,
};
use crate::ImageError;

verus! {

/// The RGB samples of an RGBA buffer: one triple of raw byte values per
/// pixel, the alpha bytes skipped.
pub open spec fn spec_rgba_samples(rgba: Seq<u8>) -> Seq<Triple> {
    Seq::new(
        (rgba.len() / 4) as nat,
        |i: int| Triple { x: rgba[4 * i] as u64, y: rgba[4 * i + 1] as u64, z: rgba[4 * i + 2] as u64 },
    )
}

/// The quantized RGBA buffer: every pixel carries the bytes of the
/// centroid its final assignment names, and an opaque alpha byte.
pub open spec fn spec_quantize(rgba: Seq<u8>, k: int, iters: int) -> Seq<u8> {
    let samples = spec_rgba_samples(rgba);
    let run = spec_kmeans(samples, spec_seed_strided(samples, k), iters);
    let cents = run.0;
    let asg = run.1;
    Seq::new(
        rgba.len(),
        |t: int|
            {
                let c = cents[asg[t / 4] as int];
                if t % 4 == 0 {
                    c.x as u8
                } else if t % 4 == 1 {
                    c.y as u8
                } else if t % 4 == 2 {
                    c.z as u8
                } else {
                    255u8
                }
            },
    )
}

/// Quantize a decoded RGBA buffer to `k` colors by k-means over raw RGB
/// triples, with deterministic strided seeding and `max_iter` full
/// iterations; the alpha channel is forced opaque.
///
/// A buffer whose length does not match the dimensions is an invalid
/// image; `k == 0` or an empty image is an invalid parameter.
#[verifier::rlimit(100)]
pub fn quantize(rgba: &Vec<u8>, width: usize, height: usize, k: usize, max_iter: usize) -> (res:
    Result<Vec<u8>, ImageError>)
    requires
        (width as int) * (height as int) <= 1_000_000_000,
    ensures
        match res {
            Ok(out) => out@ == spec_quantize(rgba@, k as int, max_iter as int) && out@.len()
                == rgba@.len() && rgba@.len() == 4 * (width as int) * (height as int) && k >= 1
                && rgba@.len() > 0,
            Err(e) => (e == ImageError::InvalidImage && rgba@.len() != 4 * (width as int) * (
            height as int)) || (e == ImageError::InvalidParameter && rgba@.len() == 4 * (
            width as int) * (height as int) && (k == 0 || rgba@.len() == 0)),
        },
{
    let n = width * height;
    proof {
        assert(4 * ((width as int) * (height as int)) == 4 * (width as int) * (height as int))
            by (nonlinear_arith);
    }
    if rgba.len() / 4 != n || rgba.len() % 4 != 0 {
        return Err(ImageError::InvalidImage);
    }
    if k == 0 || n == 0 {
        return Err(ImageError::InvalidParameter);
    }
    let ghost gsamples = spec_rgba_samples(rgba@);
    let mut samples: Vec<Triple> = Vec::new();
    let mut i: usize = 0;
    while i < n
        invariant
            i <= n,
            rgba@.len() == 4 * n,
            n <= 1_000_000_000,
            gsamples == spec_rgba_samples(rgba@),
            samples.len() == i,
            forall|t: int| 0 <= t < i ==> (#[trigger] samples@[t]) == gsamples[t],
            triples_wf(samples@),
            triples_bounded(samples@, 255, 255, 255),
        decreases n - i,
    {
        let t = Triple { x: rgba[4 * i] as u64, y: rgba[4 * i + 1] as u64, z: rgba[4 * i + 2] as u64 };
        samples.push(t);
        i = i + 1;
    }
    proof {
        assert(samples@ =~= gsamples);
    }
    let init = seed_strided(&samples, k);
    proof {
        assert(triples_bounded(init@, 255, 255, 255));
        lemma_kmeans_bounded(samples@, init@, max_iter as int, 255, 255, 255);
    }
    let run = kmeans_run(&samples, init, max_iter);
    let cents = run.0;
    let asg = run.1;
    let ghost gout = spec_quantize(rgba@, k as int, max_iter as int);
    let mut out: Vec<u8> = Vec::new();
    let mut p: usize = 0;
    while p < n
        invariant
            p <= n,
            rgba@.len() == 4 * n,
            n <= 1_000_000_000,
            cents.len() == k,
            asg.len() == n,
            triples_bounded(cents@, 255, 255, 255),
            forall|t: int| 0 <= t < n ==> (#[trigger] asg@[t]) < k,
            gout == spec_quantize(rgba@, k as int, max_iter as int),
            gout.len() == 4 * n,
            forall|t: int|
                0 <= t < 4 * n ==> #[trigger] gout[t] == (if t % 4 == 0 {
                    cents@[asg@[t / 4] as int].x as u8
                } else if t % 4 == 1 {
                    cents@[asg@[t / 4] as int].y as u8
                } else if t % 4 == 2 {
                    cents@[asg@[t / 4] as int].z as u8
                } else {
                    255u8
                }),
            out.len() == 4 * p,
            forall|t: int| 0 <= t < 4 * p ==> (#[trigger] out@[t]) == gout[t],
        decreases n - p,
    {
        let c = cents[asg[p]];
        out.push(c.x as u8);
        out.push(c.y as u8);
        out.push(c.z as u8);
        out.push(255);
        p = p + 1;
    }
    proof {
        assert(out@ =~= gout);
    }
    Ok(out)
}

/// The RGB pixel tuples of a flat 3-channel byte buffer.
pub open spec fn spec_rgb_pixels(rgb: Seq<u8>) -> Seq<(u8, u8, u8)> {
    Seq::new((rgb.len() / 3) as nat, |i: int| (rgb[3 * i], rgb[3 * i + 1], rgb[3 * i + 2]))
}

/// The LAB-quantized RGB buffer: the representative colors are found by
/// LAB-space k-means, and every pixel then takes the centroid nearest to
/// it in LAB space, recomputed per pixel.
pub open spec fn spec_quantize_lab(rgb: Seq<u8>, k: int, iters: int) -> Seq<u8> {
    let pixels = spec_rgb_pixels(rgb);
    let cols = spec_kmeans_lab(pixels, k, iters);
    let cent_rgb = Seq::new(
        k as nat,
        |j: int| ((cols[j].0 as u8, cols[j].1 as u8, cols[j].2 as u8)),
    );
    let cent_lab = Seq::new(k as nat, |j: int| spec_pixel_triple(cent_rgb[j]));
    Seq::new(
        rgb.len(),
        |t: int|
            {
                let best = spec_nearest(cent_lab, spec_pixel_triple(pixels[t / 3]));
                let c = cent_rgb[best];
                if t % 3 == 0 {
                    c.0
                } else if t % 3 == 1 {
                    c.1
                } else {
                    c.2
                }
            },
    )
}

/// Quantize a decoded RGB buffer to `k` colors by k-means in LAB space:
/// cluster all pixels, convert the centroids to bytes, and replace every
/// pixel by the centroid nearest to it in LAB space.
#[verifier::rlimit(100)]
pub fn quantize_lab(rgb: &Vec<u8>, width: usize, height: usize, k: usize, max_iter: usize) -> (res:
    Result<Vec<u8>, ImageError>)
    requires
        (width as int) * (height as int) <= 1_000_000_000,
    ensures
        match res {
            Ok(out) => out@ == spec_quantize_lab(rgb@, k as int, max_iter as int) && out@.len()
                == rgb@.len() && rgb@.len() == 3 * (width as int) * (height as int) && k >= 1
                && rgb@.len() > 0,
            Err(e) => (e == ImageError::InvalidImage && rgb@.len() != 3 * (width as int) * (
            height as int)) || (e == ImageError::InvalidParameter && rgb@.len() == 3 * (
            width as int) * (height as int) && (k == 0 || rgb@.len() == 0)),
        },
{
    let n = width * height;
    proof {
        assert(3 * ((width as int) * (height as int)) == 3 * (width as int) * (height as int))
            by (nonlinear_arith);
    }
    if rgb.len() / 3 != n || rgb.len() % 3 != 0 {
        return Err(ImageError::InvalidImage);
    }
    if k == 0 || n == 0 {
        return Err(ImageError::InvalidParameter);
    }
    let ghost gpixels = spec_rgb_pixels(rgb@);
    let ghost glabs = gpixels.map_values(|p: (u8, u8, u8)| spec_pixel_triple(p));
    let mut labs: Vec<Triple> = Vec::new();
    let mut i: usize = 0;
    while i < n
        invariant
            i <= n,
            rgb@.len() == 3 * n,
            n <= 1_000_000_000,
            gpixels == spec_rgb_pixels(rgb@),
            glabs == gpixels.map_values(|p: (u8, u8, u8)| spec_pixel_triple(p)),
            labs.len() == i,
            forall|t: int| 0 <= t < i ==> (#[trigger] labs@[t]) == glabs[t],
            triples_wf(labs@),
        decreases n - i,
    {
        let t = pixel_triple((rgb[3 * i], rgb[3 * i + 1], rgb[3 * i + 2]));
        labs.push(t);
        i = i + 1;
    }
    proof {
        assert(labs@ =~= glabs);
    }
    let init = seed_strided(&labs, k);
    let run = kmeans_run(&labs, init, max_iter);
    let cents = run.0;
    let ghost gcols = spec_kmeans_lab(gpixels, k as int, max_iter as int);
    let ghost gcent_rgb = Seq::new(
        k as nat,
        |j: int| ((gcols[j].0 as u8, gcols[j].1 as u8, gcols[j].2 as u8)),
    );
    let ghost gcent_lab = Seq::new(k as nat, |j: int| spec_pixel_triple(gcent_rgb[j]));
    let mut cent_rgb: Vec<(u8, u8, u8)> = Vec::new();
    let mut cent_lab: Vec<Triple> = Vec::new();
    let mut j: usize = 0;
    while j < k
        invariant
            j <= k,
            cents.len() == k,
            triples_wf(cents@),
            forall|t: int| 0 <= t < k ==> #[trigger] spec_triple_rgb(cents@[t]) == gcols[t],
            gcent_rgb == Seq::new(
                k as nat,
                |jj: int| ((gcols[jj].0 as u8, gcols[jj].1 as u8, gcols[jj].2 as u8)),
            ),
            gcent_lab == Seq::new(k as nat, |jj: int| spec_pixel_triple(gcent_rgb[jj])),
            cent_rgb.len() == j,
            cent_lab.len() == j,
            forall|t: int| 0 <= t < j ==> (#[trigger] cent_rgb@[t]) == gcent_rgb[t],
            forall|t: int| 0 <= t < j ==> (#[trigger] cent_lab@[t]) == gcent_lab[t],
            triples_wf(cent_lab@),
        decreases k - j,
    {
        let rgbj = triple_rgb(cents[j]);
        let labj = pixel_triple(rgbj);
        cent_rgb.push(rgbj);
        cent_lab.push(labj);
        j = j + 1;
    }
    proof {
        assert(cent_rgb@ =~= gcent_rgb);
        assert(cent_lab@ =~= gcent_lab);
    }
    let ghost gout = spec_quantize_lab(rgb@, k as int, max_iter as int);
    let mut out: Vec<u8> = Vec::new();
    let mut p: usize = 0;
    while p < n
        invariant
            p <= n,
            rgb@.len() == 3 * n,
            n <= 1_000_000_000,
            k >= 1,
            gpixels == spec_rgb_pixels(rgb@),
            cent_rgb.len() == k,
            cent_lab.len() == k,
            cent_rgb@ == gcent_rgb,
            cent_lab@ == gcent_lab,
            triples_wf(cent_lab@),
            gout == spec_quantize_lab(rgb@, k as int, max_iter as int),
            gout.len() == 3 * n,
            forall|t: int|
                0 <= t < 3 * n ==> #[trigger] gout[t] == (if t % 3 == 0 {
                    gcent_rgb[spec_nearest(gcent_lab, spec_pixel_triple(gpixels[t / 3]))].0
                } else if t % 3 == 1 {
                    gcent_rgb[spec_nearest(gcent_lab, spec_pixel_triple(gpixels[t / 3]))].1
                } else {
                    gcent_rgb[spec_nearest(gcent_lab, spec_pixel_triple(gpixels[t / 3]))].2
                }),
            out.len() == 3 * p,
            forall|t: int| 0 <= t < 3 * p ==> (#[trigger] out@[t]) == gout[t],
        decreases n - p,
    {
        let pt = pixel_triple((rgb[3 * p], rgb[3 * p + 1], rgb[3 * p + 2]));
        let best = nearest_centroid(&cent_lab, pt);
        let c = cent_rgb[best];
        out.push(c.0);
        out.push(c.1);
        out.push(c.2);
        p = p + 1;
    }
    proof {
        assert(out@ =~= gout);
    }
    Ok(out)
}

} // verus!
