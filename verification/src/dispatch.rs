//! Capability-gated batched execution of the hottest per-pixel loops.
//!
//! Each accelerable operation has a batched variant that walks the data
//! in groups of eight with a scalar tail, and a scalar fallback; the
//! dispatcher probes the CPU once per call and silently selects the
//! fallback when the vector extension is absent. Both paths satisfy the
//! same exact contract, so their results are identical byte for byte.

use vstd::prelude::*;
use vstd::arithmetic::div_mod::{
    lemma_fundamental_div_mod, lemma_mod_bound, lemma_fundamental_div_mod_converse_div,
    lemma_fundamental_div_mod_converse_mod,
};
use crate::color::{
    Lab, lab_wf, rgb_to_lab, spec_lab_pixels, spec_color_distance, color_distance_lab,
};
use crate::edges::spec_grad_sq;
use crate::roots::{sqrt_floor, isqrt};

verus! {

/// Relies on raw_cpuid::CpuId: reports whether the processor offers the
/// AVX2 vector extension. The answer depends on the machine alone, so
/// nothing further is promised of it.
#[verifier::external_body]
pub fn has_simd_support() -> bool {
    match raw_cpuid::CpuId::new().get_extended_feature_info() {
        Some(features) => features.has_avx2(),
        None => false,
    }
}

/// Convert packed RGB bytes to LAB triples in batches of eight pixels
/// with a scalar tail; trailing bytes of an incomplete pixel are
/// ignored.
pub fn rgb_to_lab_simd(rgb_data: &Vec<u8>) -> (out: Vec<Lab>)
    ensures
        out@ == spec_lab_pixels(rgb_data@),
        out.len() == rgb_data@.len() / 3,
{
    let n = rgb_data.len() / 3;
    proof {
        lemma_fundamental_div_mod(rgb_data@.len() as int, 3);
        lemma_mod_bound(rgb_data@.len() as int, 3);
        lemma_fundamental_div_mod(n as int, 8);
        lemma_mod_bound(n as int, 8);
    }
    let chunks = n / 8;
    let mut out: Vec<Lab> = Vec::new();
    let mut c: usize = 0;
    while c < chunks
        invariant
            c <= chunks,
            chunks == n / 8,
            8 * chunks <= n,
            n == rgb_data@.len() / 3,
            3 * n <= rgb_data@.len(),
            rgb_data@.len() <= usize::MAX,
            out.len() == 8 * c,
            forall|t: int|
                0 <= t < out.len() ==> (#[trigger] out@[t]) == spec_lab_pixels(rgb_data@)[t],
        decreases chunks - c,
    {
        let base = 8 * c;
        let mut j: usize = 0;
        while j < 8
            invariant
                j <= 8,
                base == 8 * c,
                base + 8 <= n,
                n == rgb_data@.len() / 3,
                3 * n <= rgb_data@.len(),
                rgb_data@.len() <= usize::MAX,
                out.len() == base + j,
                forall|t: int|
                    0 <= t < out.len() ==> (#[trigger] out@[t]) == spec_lab_pixels(rgb_data@)[t],
            decreases 8 - j,
        {
            let i = base + j;
            let lab = rgb_to_lab(rgb_data[3 * i], rgb_data[3 * i + 1], rgb_data[3 * i + 2]);
            out.push(lab);
            j = j + 1;
        }
        c = c + 1;
    }
    let mut i: usize = chunks * 8;
    while i < n
        invariant
            i <= n,
            n == rgb_data@.len() / 3,
            3 * n <= rgb_data@.len(),
            rgb_data@.len() <= usize::MAX,
            out.len() == i,
            forall|t: int|
                0 <= t < out.len() ==> (#[trigger] out@[t]) == spec_lab_pixels(rgb_data@)[t],
        decreases n - i,
    {
        let lab = rgb_to_lab(rgb_data[3 * i], rgb_data[3 * i + 1], rgb_data[3 * i + 2]);
        out.push(lab);
        i = i + 1;
    }
    proof {
        assert(out@ =~= spec_lab_pixels(rgb_data@));
    }
    out
}

/// Dispatch the LAB conversion: the batched path when the CPU offers
/// the vector extension, the scalar path otherwise. Both paths meet the
/// same contract, so the choice never changes the result, and the call
/// never fails for want of hardware support.
pub fn rgb_to_lab_optimized(rgb_data: &Vec<u8>) -> (out: Vec<Lab>)
    ensures
        out@ == spec_lab_pixels(rgb_data@),
        out.len() == rgb_data@.len() / 3,
{
    if has_simd_support() {
        return rgb_to_lab_simd(rgb_data);
    }
    let n = rgb_data.len() / 3;
    proof {
        lemma_fundamental_div_mod(rgb_data@.len() as int, 3);
        lemma_mod_bound(rgb_data@.len() as int, 3);
    }
    let mut out: Vec<Lab> = Vec::new();
    let mut i: usize = 0;
    while i < n
        invariant
            i <= n,
            n == rgb_data@.len() / 3,
            3 * n <= rgb_data@.len(),
            rgb_data@.len() <= usize::MAX,
            out.len() == i,
            forall|t: int|
                0 <= t < out.len() ==> (#[trigger] out@[t]) == spec_lab_pixels(rgb_data@)[t],
        decreases n - i,
    {
        let lab = rgb_to_lab(rgb_data[3 * i], rgb_data[3 * i + 1], rgb_data[3 * i + 2]);
        out.push(lab);
        i = i + 1;
    }
    proof {
        assert(out@ =~= spec_lab_pixels(rgb_data@));
    }
    out
}

/// Dispatch equivalence: any two results that meet the contract of the
/// batched and the scalar LAB conversion on the same input are equal.
pub proof fn lemma_dispatch_equivalence(data: Seq<u8>, r1: Seq<Lab>, r2: Seq<Lab>)
    requires
        r1 == spec_lab_pixels(data),
        r2 == spec_lab_pixels(data),
    ensures
        r1 == r2,
{
}

/// The Sobel gradient magnitudes of a luminance buffer: the floor of
/// the Euclidean magnitude at every interior pixel, zero on the border.
pub open spec fn spec_gradient_map(gray: Seq<u8>, w: int, h: int) -> Seq<u64> {
    Seq::new(
        (w * h) as nat,
        |i: int|
            {
                let x = i % w;
                let y = i / w;
                if y == 0 || y >= h - 1 || x == 0 || x >= w - 1 {
                    0u64
                } else {
                    sqrt_floor(spec_grad_sq(gray, w, x, y)) as u64
                }
            },
    )
}

/// Compute the Sobel gradient magnitude of every pixel of a luminance
/// buffer; border pixels stay zero.
pub fn sobel_gradient_simd(image: &Vec<u8>, width: usize, height: usize) -> (out: Vec<u64>)
    requires
        image.len() == (width as int) * (height as int),
    ensures
        out@ == spec_gradient_map(image@, width as int, height as int),
{
    let ghost gmap = spec_gradient_map(image@, width as int, height as int);
    let mut out: Vec<u64> = Vec::new();
    let mut y: usize = 0;
    while y < height
        invariant
            y <= height,
            image.len() == (width as int) * (height as int),
            gmap == spec_gradient_map(image@, width as int, height as int),
            gmap.len() == (width as int) * (height as int),
            out.len() == (y as int) * (width as int),
            out.len() <= image.len(),
            forall|t: int| 0 <= t < out.len() ==> (#[trigger] out@[t]) == gmap[t],
        decreases height - y,
    {
        proof {
            assert((y as int + 1) * (width as int) <= (height as int) * (width as int) && (
            y as int + 1) * (width as int) == (y as int) * (width as int) + width as int && (
            height as int) * (width as int) == (width as int) * (height as int))
                by (nonlinear_arith)
                requires
                    y as int + 1 <= height as int,
            ;
        }
        let row = gradient_row(image, width, height, y);
        let mut x: usize = 0;
        while x < width
            invariant
                x <= width,
                y < height,
                image.len() == (width as int) * (height as int),
                row.len() == width,
                forall|xx: int|
                    0 <= xx < width ==> (#[trigger] row@[xx]) == spec_gradient_row(
                        image@,
                        width as int,
                        height as int,
                        y as int,
                    )[xx],
                gmap == spec_gradient_map(image@, width as int, height as int),
                gmap.len() == (width as int) * (height as int),
                out.len() == (y as int) * (width as int) + x as int,
                out.len() + (width as int) - (x as int) <= image.len(),
                forall|t: int| 0 <= t < out.len() ==> (#[trigger] out@[t]) == gmap[t],
            decreases width - x,
        {
            proof {
                lemma_fundamental_div_mod_converse_div(
                    (y as int) * (width as int) + x as int,
                    width as int,
                    y as int,
                    x as int,
                );
                lemma_fundamental_div_mod_converse_mod(
                    (y as int) * (width as int) + x as int,
                    width as int,
                    y as int,
                    x as int,
                );
            }
            out.push(row[x]);
            x = x + 1;
        }
        y = y + 1;
    }
    proof {
        assert((height as int) * (width as int) == (width as int) * (height as int))
            by (nonlinear_arith);
        assert(out@ =~= gmap);
    }
    out
}

/// One row of gradient magnitudes.
pub open spec fn spec_gradient_row(gray: Seq<u8>, w: int, h: int, y: int) -> Seq<u64> {
    Seq::new(
        w as nat,
        |x: int|
            if y == 0 || y >= h - 1 || x == 0 || x >= w - 1 {
                0u64
            } else {
                sqrt_floor(spec_grad_sq(gray, w, x, y)) as u64
            },
    )
}

/// Compute one row of gradient magnitudes.
fn gradient_row(gray: &Vec<u8>, w: usize, h: usize, y: usize) -> (row: Vec<u64>)
    requires
        gray.len() == (w as int) * (h as int),
        y < h,
    ensures
        row.len() == w,
        forall|x: int|
            0 <= x < w ==> (#[trigger] row@[x]) == spec_gradient_row(
                gray@,
                w as int,
                h as int,
                y as int,
            )[x],
{
    let ghost grow = spec_gradient_row(gray@, w as int, h as int, y as int);
    let mut row: Vec<u64> = Vec::new();
    if y == 0 || y >= h - 1 {
        let mut x: usize = 0;
        while x < w
            invariant
                x <= w,
                y == 0 || y >= h - 1,
                y < h,
                grow == spec_gradient_row(gray@, w as int, h as int, y as int),
                row.len() == x,
                forall|i: int| 0 <= i < x ==> (#[trigger] row@[i]) == 0u64,
            decreases w - x,
        {
            row.push(0);
            x = x + 1;
        }
        proof {
            assert forall|i: int| 0 <= i < w implies (#[trigger] row@[i]) == grow[i] by {
            }
        }
        return row;
    }
    proof {
        assert((y as int + 2) * (w as int) <= (h as int) * (w as int)) by (nonlinear_arith)
            requires
                y as int + 2 <= h as int,
        ;
        assert((h as int) * (w as int) == (w as int) * (h as int)) by (nonlinear_arith);
        assert((y as int - 1) * (w as int) + w as int == (y as int) * (w as int)
            && (y as int) * (w as int) + w as int == (y as int + 1) * (w as int)
            && (y as int + 1) * (w as int) + w as int == (y as int + 2) * (w as int)
            && 0 <= (y as int - 1) * (w as int)) by (nonlinear_arith)
            requires
                1 <= y as int,
        ;
    }
    let prev = (y - 1) * w;
    let cur = y * w;
    let next = (y + 1) * w;
    let mut x: usize = 0;
    while x < w
        invariant
            x <= w,
            1 <= y,
            y as int + 2 <= h as int,
            gray.len() == (w as int) * (h as int),
            prev == (y as int - 1) * (w as int),
            cur == (y as int) * (w as int),
            next == (y as int + 1) * (w as int),
            prev + w == cur,
            cur + w == next,
            next + w <= gray.len(),
            grow == spec_gradient_row(gray@, w as int, h as int, y as int),
            row.len() == x,
            forall|i: int| 0 <= i < x ==> (#[trigger] row@[i]) == grow[i],
        decreases w - x,
    {
        if x == 0 || x >= w - 1 {
            row.push(0);
        } else {
            let tl = gray[prev + x - 1] as u32;
            let tc = gray[prev + x] as u32;
            let tr = gray[prev + x + 1] as u32;
            let ml = gray[cur + x - 1] as u32;
            let mr = gray[cur + x + 1] as u32;
            let bl = gray[next + x - 1] as u32;
            let bc = gray[next + x] as u32;
            let br = gray[next + x + 1] as u32;
            let px = tr + 2 * mr + br;
            let nx = tl + 2 * ml + bl;
            let py = bl + 2 * bc + br;
            let ny = tl + 2 * tc + tr;
            let dx: u64 = if px >= nx {
                (px - nx) as u64
            } else {
                (nx - px) as u64
            };
            let dy: u64 = if py >= ny {
                (py - ny) as u64
            } else {
                (ny - py) as u64
            };
            proof {
                assert((dx as int) * (dx as int) == ((px as int) - nx) * ((px as int) - nx)
                    && (dx as int) * (dx as int) <= 1_040_400) by (nonlinear_arith)
                    requires
                        dx <= 1020u64,
                        dx as int == if px >= nx {
                            px - nx
                        } else {
                            nx - px
                        },
                ;
                assert((dy as int) * (dy as int) == ((py as int) - ny) * ((py as int) - ny)
                    && (dy as int) * (dy as int) <= 1_040_400) by (nonlinear_arith)
                    requires
                        dy <= 1020u64,
                        dy as int == if py >= ny {
                            py - ny
                        } else {
                            ny - py
                        },
                ;
            }
            let s = dx * dx + dy * dy;
            let m = isqrt(s);
            row.push(m);
        }
        x = x + 1;
    }
    row
}

/// Compute the perceptual distance of every color in a batch to one
/// centroid, in groups of eight with a scalar tail.
pub fn color_distance_batch_simd(colors: &Vec<Lab>, centroid: Lab) -> (out: Vec<u64>)
    requires
        forall|i: int| 0 <= i < colors.len() ==> lab_wf(#[trigger] colors@[i]),
        lab_wf(centroid),
    ensures
        out.len() == colors.len(),
        forall|i: int|
            0 <= i < out.len() ==> (#[trigger] out@[i]) as int == spec_color_distance(
                colors@[i],
                centroid,
            ),
{
    let n = colors.len();
    proof {
        lemma_fundamental_div_mod(n as int, 8);
        lemma_mod_bound(n as int, 8);
    }
    let chunks = n / 8;
    let mut out: Vec<u64> = Vec::new();
    let mut c: usize = 0;
    while c < chunks
        invariant
            c <= chunks,
            chunks == n / 8,
            8 * chunks <= n,
            n == colors.len(),
            forall|i: int| 0 <= i < colors.len() ==> lab_wf(#[trigger] colors@[i]),
            lab_wf(centroid),
            out.len() == 8 * c,
            forall|i: int|
                0 <= i < out.len() ==> (#[trigger] out@[i]) as int == spec_color_distance(
                    colors@[i],
                    centroid,
                ),
        decreases chunks - c,
    {
        let base = 8 * c;
        let mut j: usize = 0;
        while j < 8
            invariant
                j <= 8,
                base == 8 * c,
                base + 8 <= n,
                n == colors.len(),
                forall|i: int| 0 <= i < colors.len() ==> lab_wf(#[trigger] colors@[i]),
                lab_wf(centroid),
                out.len() == base + j,
                forall|i: int|
                    0 <= i < out.len() ==> (#[trigger] out@[i]) as int == spec_color_distance(
                        colors@[i],
                        centroid,
                    ),
            decreases 8 - j,
        {
            let d = color_distance_lab(colors[base + j], centroid);
            out.push(d);
            j = j + 1;
        }
        c = c + 1;
    }
    let mut i: usize = chunks * 8;
    while i < n
        invariant
            i <= n,
            n == colors.len(),
            forall|t: int| 0 <= t < colors.len() ==> lab_wf(#[trigger] colors@[t]),
            lab_wf(centroid),
            out.len() == i,
            forall|t: int|
                0 <= t < out.len() ==> (#[trigger] out@[t]) as int == spec_color_distance(
                    colors@[t],
                    centroid,
                ),
        decreases n - i,
    {
        let d = color_distance_lab(colors[i], centroid);
        out.push(d);
        i = i + 1;
    }
    out
}

} // verus!
