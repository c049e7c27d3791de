//! Local-contrast saliency estimation.
//!
//! The saliency of a pixel is its mean perceptual distance, in LAB
//! space, to every other pixel of the surrounding 11x11 window. Window
//! coordinates are clamped to the image bounds (replicate-border
//! policy), the center itself is skipped — also where clamping folds a
//! window position onto the center — and the mean is clamped to a byte.
//! Every pixel is evaluated, borders included.

use vstd::prelude::*;
use vstd::arithmetic::div_mod::{
    lemma_div_is_ordered, lemma_multiply_divide_lt, lemma_fundamental_div_mod_converse_div,
    lemma_fundamental_div_mod_converse_mod,
};
use crate::color::{
    Lab, lab_wf, rgb_to_lab, spec_lab_pixels, spec_color_distance, color_distance_lab,
    lemma_color_distance_identity,
};
use crate::ImageError;

verus! {

/// Half-width of the saliency window: the window spans
/// `(2 * 5 + 1) = 11` positions in each direction.
pub const SALIENCY_WINDOW: usize = 5;

/// A coordinate clamped into `[0, hi]`.
pub open spec fn spec_clamp_coord(v: int, hi: int) -> int {
    if v < 0 {
        0
    } else if v > hi {
        hi
    } else {
        v
    }
}

/// The summed perceptual distance and neighbor count over the first
/// `wi` positions of the 11x11 window around `(x, y)`. Position `wi`
/// stands for the offset `(wi % 11 - 5, wi / 11 - 5)`; positions that
/// clamp onto the center are skipped.
pub open spec fn spec_sal_acc(labs: Seq<Lab>, w: int, h: int, x: int, y: int, wi: int) -> (
    int,
    int,
)
    decreases wi,
{
    if wi <= 0 {
        (0, 0)
    } else {
        let prev = spec_sal_acc(labs, w, h, x, y, wi - 1);
        let nx = spec_clamp_coord(x + (wi - 1) % 11 - 5, w - 1);
        let ny = spec_clamp_coord(y + (wi - 1) / 11 - 5, h - 1);
        if nx == x && ny == y {
            prev
        } else {
            (prev.0 + spec_color_distance(labs[y * w + x], labs[ny * w + nx]), prev.1 + 1)
        }
    }
}

/// The saliency byte of one pixel: the mean window distance in whole
/// LAB units, clamped to `[0, 255]`; a pixel with no distinct window
/// positions (a 1x1 image) has saliency 0.
pub open spec fn spec_saliency_byte(labs: Seq<Lab>, w: int, h: int, x: int, y: int) -> int {
    let acc = spec_sal_acc(labs, w, h, x, y, 121);
    if acc.1 > 0 {
        let m = acc.0 / acc.1 / 1000;
        if m > 255 {
            255
        } else {
            m
        }
    } else {
        0
    }
}

/// The saliency map of a decoded RGB buffer, row-major.
pub open spec fn spec_saliency_map(rgb: Seq<u8>, w: int, h: int) -> Seq<u8> {
    let labs = spec_lab_pixels(rgb);
    Seq::new((w * h) as nat, |i: int| spec_saliency_byte(labs, w, h, i % w, i / w) as u8)
}

/// Clamp a window coordinate to the image bounds.
fn clamp_coord(base: usize, off: usize, hi: usize) -> (r: usize)
    requires
        base <= 1_000_000_000,
        off <= 10,
    ensures
        r as int == spec_clamp_coord(base as int + off as int - 5, hi as int),
        r <= hi,
{
    if base + off < 5 {
        0
    } else if base + off - 5 > hi {
        hi
    } else {
        base + off - 5
    }
}

/// The saliency byte of the pixel at `(x, y)`.
pub fn saliency_pixel(labs: &Vec<Lab>, w: usize, h: usize, x: usize, y: usize) -> (r: u8)
    requires
        labs.len() == (w as int) * (h as int),
        (w as int) * (h as int) <= 1_000_000_000,
        x < w,
        y < h,
        forall|i: int| 0 <= i < labs.len() ==> lab_wf(#[trigger] labs@[i]),
    ensures
        r as int == spec_saliency_byte(labs@, w as int, h as int, x as int, y as int),
{
    proof {
        assert(((y as int) * (w as int) + x as int) < (w as int) * (h as int) && (y as int) * (
        w as int) >= 0) by (nonlinear_arith)
            requires
                x < w,
                y < h,
        ;
    }
    let cidx = y * w + x;
    let mut sum: u64 = 0;
    let mut count: u64 = 0;
    let mut wi: usize = 0;
    while wi < 121
        invariant
            wi <= 121,
            labs.len() == (w as int) * (h as int),
            (w as int) * (h as int) <= 1_000_000_000,
            x < w,
            y < h,
            cidx == (y as int) * (w as int) + x as int,
            cidx < labs.len(),
            forall|i: int| 0 <= i < labs.len() ==> lab_wf(#[trigger] labs@[i]),
            (sum as int, count as int) == spec_sal_acc(
                labs@,
                w as int,
                h as int,
                x as int,
                y as int,
                wi as int,
            ),
            sum <= (wi as u64) * 3_500_000,
            count <= wi as u64,
        decreases 121 - wi,
    {
        proof {
            assert(x as int <= 1_000_000_000 && y as int <= 1_000_000_000) by (nonlinear_arith)
                requires
                    x < w,
                    y < h,
                    (w as int) * (h as int) <= 1_000_000_000,
            ;
        }
        let nx = clamp_coord(x, wi % 11, w - 1);
        let ny = clamp_coord(y, wi / 11, h - 1);
        if !(nx == x && ny == y) {
            proof {
                assert(((ny as int) * (w as int) + nx as int) < (w as int) * (h as int) && (
                ny as int) * (w as int) >= 0) by (nonlinear_arith)
                    requires
                        nx < w,
                        ny < h,
                ;
            }
            let nidx = ny * w + nx;
            let d = color_distance_lab(labs[cidx], labs[nidx]);
            sum = sum + d;
            count = count + 1;
        }
        wi = wi + 1;
    }
    if count > 0 {
        proof {
            lemma_div_is_ordered(0, sum as int, count as int);
            lemma_div_is_ordered(0, (sum as int) / (count as int), 1000);
        }
        let m = sum / count / 1000;
        if m > 255 {
            255
        } else {
            m as u8
        }
    } else {
        0
    }
}

/// Estimate the saliency of every pixel of a decoded RGB buffer.
pub fn detect_salient_regions(rgb: &Vec<u8>, width: usize, height: usize) -> (res: Result<
    Vec<u8>,
    ImageError,
>)
    requires
        (width as int) * (height as int) <= 1_000_000_000,
    ensures
        match res {
            Ok(out) => out@ == spec_saliency_map(rgb@, width as int, height as int) && out@.len()
                == (width as int) * (height as int) && rgb@.len() == 3 * (width as int) * (
            height as int),
            Err(e) => e == ImageError::InvalidImage && rgb@.len() != 3 * (width as int) * (
            height as int),
        },
{
    let n = width * height;
    proof {
        assert(3 * ((width as int) * (height as int)) == 3 * (width as int) * (height as int))
            by (nonlinear_arith);
    }
    if rgb.len() / 3 != n || rgb.len() % 3 != 0 {
        return Err(ImageError::InvalidImage);
    }
    let ghost glabs = spec_lab_pixels(rgb@);
    let mut labs: Vec<Lab> = Vec::new();
    let mut i: usize = 0;
    while i < n
        invariant
            i <= n,
            rgb@.len() == 3 * n,
            n <= 1_000_000_000,
            glabs == spec_lab_pixels(rgb@),
            labs.len() == i,
            forall|t: int| 0 <= t < i ==> (#[trigger] labs@[t]) == glabs[t],
            forall|t: int| 0 <= t < i ==> lab_wf(#[trigger] labs@[t]),
        decreases n - i,
    {
        let lab = rgb_to_lab(rgb[3 * i], rgb[3 * i + 1], rgb[3 * i + 2]);
        labs.push(lab);
        i = i + 1;
    }
    proof {
        assert(labs@ =~= glabs);
    }
    let ghost gmap = spec_saliency_map(rgb@, width as int, height as int);
    let mut out: Vec<u8> = Vec::new();
    let mut y: usize = 0;
    while y < height
        invariant
            y <= height,
            n == (width as int) * (height as int),
            n <= 1_000_000_000,
            labs.len() == n,
            labs@ == glabs,
            glabs == spec_lab_pixels(rgb@),
            forall|t: int| 0 <= t < n ==> lab_wf(#[trigger] labs@[t]),
            gmap == spec_saliency_map(rgb@, width as int, height as int),
            gmap.len() == n,
            out.len() == (y as int) * (width as int),
            out.len() <= n,
            forall|t: int| 0 <= t < out.len() ==> (#[trigger] out@[t]) == gmap[t],
        decreases height - y,
    {
        proof {
            assert((y as int + 1) * (width as int) <= (height as int) * (width as int) && (
            y as int + 1) * (width as int) == (y as int) * (width as int) + width as int && (
            height as int) * (width as int) == (width as int) * (height as int))
                by (nonlinear_arith)
                requires
                    y as int + 1 <= height as int,
            ;
        }
        let mut x: usize = 0;
        while x < width
            invariant
                x <= width,
                y < height,
                n == (width as int) * (height as int),
                n <= 1_000_000_000,
                labs.len() == n,
                labs@ == glabs,
                forall|t: int| 0 <= t < n ==> lab_wf(#[trigger] labs@[t]),
                gmap == spec_saliency_map(rgb@, width as int, height as int),
                gmap.len() == n,
                glabs == spec_lab_pixels(rgb@),
                out.len() == (y as int) * (width as int) + x as int,
                out.len() + (width as int) - (x as int) <= n,
                forall|t: int| 0 <= t < out.len() ==> (#[trigger] out@[t]) == gmap[t],
            decreases width - x,
        {
            let s = saliency_pixel(&labs, width, height, x, y);
            proof {
                lemma_fundamental_div_mod_converse_div(
                    (y as int) * (width as int) + x as int,
                    width as int,
                    y as int,
                    x as int,
                );
                lemma_fundamental_div_mod_converse_mod(
                    (y as int) * (width as int) + x as int,
                    width as int,
                    y as int,
                    x as int,
                );
            }
            out.push(s);
            x = x + 1;
        }
        y = y + 1;
    }
    proof {
        assert((height as int) * (width as int) == (width as int) * (height as int))
            by (nonlinear_arith);
        assert(out@ =~= gmap);
    }
    Ok(out)
}

/// In a uniform image every window distance is zero.
proof fn lemma_sal_acc_zero(labs: Seq<Lab>, w: int, h: int, x: int, y: int, wi: int)
    requires
        labs.len() == w * h,
        0 <= x < w,
        0 <= y < h,
        forall|i: int| 0 <= i < labs.len() ==> (#[trigger] labs[i]) == labs[0],
    ensures
        spec_sal_acc(labs, w, h, x, y, wi).0 == 0,
        spec_sal_acc(labs, w, h, x, y, wi).1 >= 0,
    decreases wi,
{
    if wi > 0 {
        lemma_sal_acc_zero(labs, w, h, x, y, wi - 1);
        let nx = spec_clamp_coord(x + (wi - 1) % 11 - 5, w - 1);
        let ny = spec_clamp_coord(y + (wi - 1) / 11 - 5, h - 1);
        if !(nx == x && ny == y) {
            assert(0 <= y * w + x < w * h && 0 <= ny * w + nx < w * h) by (nonlinear_arith)
                requires
                    0 <= x < w,
                    0 <= y < h,
                    0 <= nx < w,
                    0 <= ny < h,
            ;
            lemma_color_distance_identity(labs[0]);
        }
    }
}

/// Saliency uniformity: an image whose pixels all carry one color has
/// an all-zero saliency map.
pub proof fn lemma_saliency_uniform(rgb: Seq<u8>, w: int, h: int)
    requires
        rgb.len() == 3 * w * h,
        w >= 0,
        h >= 0,
        forall|i: int|
            0 <= i < w * h ==> (#[trigger] rgb[3 * i]) == rgb[0] && rgb[3 * i + 1] == rgb[1]
                && rgb[3 * i + 2] == rgb[2],
    ensures
        forall|i: int|
            0 <= i < w * h ==> (#[trigger] spec_saliency_map(rgb, w, h)[i]) == 0,
{
    let labs = spec_lab_pixels(rgb);
    assert(3 * (w * h) == 3 * w * h) by (nonlinear_arith);
    assert(w * h >= 0) by (nonlinear_arith)
        requires
            w >= 0,
            h >= 0,
    ;
    assert forall|i: int| 0 <= i < labs.len() implies (#[trigger] labs[i]) == labs[0] by {
    }
    assert forall|i: int| 0 <= i < w * h implies (#[trigger] spec_saliency_map(rgb, w, h)[i])
        == 0 by {
        assert(w >= 1 && h >= 1) by (nonlinear_arith)
            requires
                w * h > 0,
                w >= 0,
                h >= 0,
        ;
        lemma_multiply_divide_lt(i, w, h);
        vstd::arithmetic::div_mod::lemma_mod_bound(i, w);
        lemma_sal_acc_zero(labs, w, h, i % w, i / w, 121);
        let acc = spec_sal_acc(labs, w, h, i % w, i / w, 121);
        if acc.1 > 0 {
            vstd::arithmetic::div_mod::lemma_div_of0(acc.1);
            vstd::arithmetic::div_mod::lemma_div_of0(1000);
        }
    }
}

} // verus!
