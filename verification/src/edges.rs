//! Gradient-based edge detection and edge-map blending.
//!
//! The detector converts the image to luminance, convolves every
//! interior pixel with the 3x3 Sobel kernels, and classifies the
//! gradient magnitude against the threshold — exactly, by comparing the
//! squared magnitude with the squared threshold. The single-threshold
//! variant emits 255 or 0; the multi-scale variant emits 255 above the
//! threshold, 128 above half the threshold (a weak edge, with no
//! connectivity tracing) and 0 below.
//! Border pixels are never evaluated and stay 0. Rows are computed in
//! parallel; each row only reads the shared luminance buffer.

use vstd::prelude::*;
use vstd::arithmetic::div_mod::{
    lemma_div_is_ordered, lemma_multiply_divide_lt, lemma_fundamental_div_mod_converse_div,
    lemma_fundamental_div_mod_converse_mod, lemma_div_multiples_vanish, lemma_mod_bound,
};
use rayon::iter::{IndexedParallelIterator, IntoParallelIterator, ParallelIterator};
use crate::ImageError;

verus! {

/// The luminance byte of one RGB pixel: the BT.709-weighted mix
/// `(2126 r + 7152 g + 722 b) / 10000`, as the external image codec
/// computes it when collapsing color to gray.
pub open spec fn spec_luma(r: int, g: int, b: int) -> int {
    (2126 * r + 7152 * g + 722 * b) / 10000
}

/// The luminance buffer of a flat 3-channel RGB buffer.
pub open spec fn spec_luma_map(rgb: Seq<u8>) -> Seq<u8> {
    Seq::new(
        (rgb.len() / 3) as nat,
        |i: int| spec_luma(rgb[3 * i] as int, rgb[3 * i + 1] as int, rgb[3 * i + 2] as int) as u8,
    )
}

/// Convert a flat RGB buffer to its luminance buffer.
pub fn luminance(rgb: &Vec<u8>) -> (gray: Vec<u8>)
    ensures
        gray@ == spec_luma_map(rgb@),
        gray.len() == rgb@.len() / 3,
{
    let n = rgb.len() / 3;
    proof {
        vstd::arithmetic::div_mod::lemma_fundamental_div_mod(rgb@.len() as int, 3);
        lemma_mod_bound(rgb@.len() as int, 3);
    }
    let mut gray: Vec<u8> = Vec::new();
    let mut i: usize = 0;
    while i < n
        invariant
            i <= n,
            n == rgb@.len() / 3,
            3 * n <= rgb@.len(),
            rgb@.len() <= usize::MAX,
            gray.len() == i,
            forall|t: int| 0 <= t < i ==> (#[trigger] gray@[t]) == spec_luma_map(rgb@)[t],
        decreases n - i,
    {
        let sum = 2126 * (rgb[3 * i] as u64) + 7152 * (rgb[3 * i + 1] as u64) + 722 * (rgb[3 * i
            + 2] as u64);
        proof {
            lemma_div_le(sum as int, 255, 10000);
            lemma_div_is_ordered(0, sum as int, 10000);
        }
        gray.push((sum / 10000) as u8);
        i = i + 1;
    }
    proof {
        assert(gray@ =~= spec_luma_map(rgb@));
    }
    gray
}

/// Quotient bound: `x <= b * d` gives `x / d <= b`.
proof fn lemma_div_le(x: int, b: int, d: int)
    requires
        0 < d,
        x <= b * d,
    ensures
        x / d <= b,
{
    lemma_div_is_ordered(x, b * d, d);
    assert(b * d == d * b) by (nonlinear_arith);
    lemma_div_multiples_vanish(b, d);
}

/// The squared Sobel gradient magnitude at an interior pixel: the 3x3
/// X kernel `[[-1,0,1],[-2,0,2],[-1,0,1]]` and Y kernel
/// `[[-1,-2,-1],[0,0,0],[1,2,1]]` applied to the luminance
/// neighborhood, squared and summed.
pub open spec fn spec_grad_sq(gray: Seq<u8>, w: int, x: int, y: int) -> int {
    let tl = gray[(y - 1) * w + (x - 1)] as int;
    let tc = gray[(y - 1) * w + x] as int;
    let tr = gray[(y - 1) * w + (x + 1)] as int;
    let ml = gray[y * w + (x - 1)] as int;
    let mr = gray[y * w + (x + 1)] as int;
    let bl = gray[(y + 1) * w + (x - 1)] as int;
    let bc = gray[(y + 1) * w + x] as int;
    let br = gray[(y + 1) * w + (x + 1)] as int;
    let gx = (tr + 2 * mr + br) - (tl + 2 * ml + bl);
    let gy = (bl + 2 * bc + br) - (tl + 2 * tc + tr);
    gx * gx + gy * gy
}

/// The classified edge byte of an interior pixel: strong (255) when
/// the gradient magnitude exceeds the threshold, which over integers is
/// the exact comparison `gx^2 + gy^2 > t^2`; the three-level classifier
/// adds a weak level (128) above half the threshold,
/// `4 (gx^2 + gy^2) > t^2`.
pub open spec fn spec_edge_byte(gray: Seq<u8>, w: int, t: int, three: bool, x: int, y: int) -> int {
    let s = spec_grad_sq(gray, w, x, y);
    if s > t * t {
        255
    } else if three && 4 * s > t * t {
        128
    } else {
        0
    }
}

/// One row of the edge map: border pixels are 0, interior pixels carry
/// their classified edge byte.
pub open spec fn spec_edge_row(gray: Seq<u8>, w: int, h: int, t: int, three: bool, y: int) -> Seq<
    u8,
> {
    Seq::new(
        w as nat,
        |x: int|
            if y == 0 || y >= h - 1 || x == 0 || x >= w - 1 {
                0u8
            } else {
                spec_edge_byte(gray, w, t, three, x, y) as u8
            },
    )
}

/// Compute one row of the edge map.
pub fn edge_row(gray: &Vec<u8>, w: usize, h: usize, t: u8, three: bool, y: usize) -> (row: Vec<u8>)
    requires
        gray.len() == (w as int) * (h as int),
        y < h,
    ensures
        row@ == spec_edge_row(gray@, w as int, h as int, t as int, three, y as int),
{
    let ghost grow = spec_edge_row(gray@, w as int, h as int, t as int, three, y as int);
    let mut row: Vec<u8> = Vec::new();
    if y == 0 || y >= h - 1 {
        let mut x: usize = 0;
        while x < w
            invariant
                x <= w,
                y == 0 || y >= h - 1,
                y < h,
                grow == spec_edge_row(gray@, w as int, h as int, t as int, three, y as int),
                row.len() == x,
                forall|i: int| 0 <= i < x ==> (#[trigger] row@[i]) == 0u8,
            decreases w - x,
        {
            row.push(0);
            x = x + 1;
        }
        proof {
            assert(row@ =~= grow);
        }
        return row;
    }
    proof {
        assert((y as int + 2) * (w as int) <= (h as int) * (w as int)) by (nonlinear_arith)
            requires
                y as int + 2 <= h as int,
        ;
        assert((h as int) * (w as int) == (w as int) * (h as int)) by (nonlinear_arith);
        assert((y as int - 1) * (w as int) + w as int == (y as int) * (w as int)
            && (y as int) * (w as int) + w as int == (y as int + 1) * (w as int)
            && (y as int + 1) * (w as int) + w as int == (y as int + 2) * (w as int)
            && 0 <= (y as int - 1) * (w as int)) by (nonlinear_arith)
            requires
                1 <= y as int,
        ;
    }
    let prev = (y - 1) * w;
    let cur = y * w;
    let next = (y + 1) * w;
    let mut x: usize = 0;
    while x < w
        invariant
            x <= w,
            1 <= y,
            y as int + 2 <= h as int,
            gray.len() == (w as int) * (h as int),
            prev == (y as int - 1) * (w as int),
            cur == (y as int) * (w as int),
            next == (y as int + 1) * (w as int),
            prev + w == cur,
            cur + w == next,
            next + w <= gray.len(),
            grow == spec_edge_row(gray@, w as int, h as int, t as int, three, y as int),
            row.len() == x,
            forall|i: int| 0 <= i < x ==> (#[trigger] row@[i]) == grow[i],
        decreases w - x,
    {
        if x == 0 || x >= w - 1 {
            row.push(0);
        } else {
            let tl = gray[prev + x - 1] as u32;
            let tc = gray[prev + x] as u32;
            let tr = gray[prev + x + 1] as u32;
            let ml = gray[cur + x - 1] as u32;
            let mr = gray[cur + x + 1] as u32;
            let bl = gray[next + x - 1] as u32;
            let bc = gray[next + x] as u32;
            let br = gray[next + x + 1] as u32;
            let px = tr + 2 * mr + br;
            let nx = tl + 2 * ml + bl;
            let py = bl + 2 * bc + br;
            let ny = tl + 2 * tc + tr;
            let dx: u64 = if px >= nx {
                (px - nx) as u64
            } else {
                (nx - px) as u64
            };
            let dy: u64 = if py >= ny {
                (py - ny) as u64
            } else {
                (ny - py) as u64
            };
            proof {
                assert((dx as int) * (dx as int) == ((px as int) - nx) * ((px as int) - nx)
                    && (dx as int) * (dx as int) <= 1_040_400) by (nonlinear_arith)
                    requires
                        dx <= 1020u64,
                        dx as int == if px >= nx {
                            px - nx
                        } else {
                            nx - px
                        },
                ;
                assert((dy as int) * (dy as int) == ((py as int) - ny) * ((py as int) - ny)
                    && (dy as int) * (dy as int) <= 1_040_400) by (nonlinear_arith)
                    requires
                        dy <= 1020u64,
                        dy as int == if py >= ny {
                            py - ny
                        } else {
                            ny - py
                        },
                ;
            }
            let s = dx * dx + dy * dy;
            proof {
                assert((t as int) * (t as int) <= 65025) by (nonlinear_arith)
                    requires
                        t <= 255u8,
                ;
            }
            let tt = (t as u64) * (t as u64);
            let byte: u8 = if s > tt {
                255
            } else if three && 4 * s > tt {
                128
            } else {
                0
            };
            row.push(byte);
        }
        x = x + 1;
    }
    proof {
        assert(row@ =~= grow);
    }
    row
}

/// Relies on rayon: an indexed parallel map over the row indices
/// collected into a `Vec` places row `y` at position `y`; the closure
/// only calls the verified `edge_row`.
#[verifier::external_body]
fn par_edge_rows(gray: &Vec<u8>, w: usize, h: usize, t: u8, three: bool) -> (r: Vec<Vec<u8>>)
    requires
        gray.len() == (w as int) * (h as int),
    ensures
        r.len() == h,
        forall|y: int|
            0 <= y < h ==> (#[trigger] r@[y])@ == spec_edge_row(
                gray@,
                w as int,
                h as int,
                t as int,
                three,
                y,
            ),
{
    (0..h).into_par_iter().map(|y: usize| edge_row(gray, w, h, t, three, y)).collect()
}

/// The whole edge map, row-major.
pub open spec fn spec_edge_map(gray: Seq<u8>, w: int, h: int, t: int, three: bool) -> Seq<u8> {
    Seq::new((w * h) as nat, |i: int| spec_edge_row(gray, w, h, t, three, i / w)[i % w])
}

/// Compute the full edge map of a luminance buffer, one row at a time in
/// parallel.
pub fn edge_map(gray: &Vec<u8>, w: usize, h: usize, t: u8, three: bool) -> (out: Vec<u8>)
    requires
        gray.len() == (w as int) * (h as int),
    ensures
        out@ == spec_edge_map(gray@, w as int, h as int, t as int, three),
{
    let rows = par_edge_rows(gray, w, h, t, three);
    let ghost gmap = spec_edge_map(gray@, w as int, h as int, t as int, three);
    let mut out: Vec<u8> = Vec::new();
    let mut y: usize = 0;
    while y < h
        invariant
            y <= h,
            gray.len() == (w as int) * (h as int),
            rows.len() == h,
            forall|yy: int|
                0 <= yy < h ==> (#[trigger] rows@[yy])@ == spec_edge_row(
                    gray@,
                    w as int,
                    h as int,
                    t as int,
                    three,
                    yy,
                ),
            gmap == spec_edge_map(gray@, w as int, h as int, t as int, three),
            out.len() == (y as int) * (w as int),
            out.len() <= gray.len(),
            forall|i: int| 0 <= i < out.len() ==> (#[trigger] out@[i]) == gmap[i],
        decreases h - y,
    {
        let mut x: usize = 0;
        proof {
            assert((y as int + 1) * (w as int) <= (h as int) * (w as int)
                && (y as int + 1) * (w as int) == (y as int) * (w as int) + (w as int)
                && (h as int) * (w as int) == (w as int) * (h as int)) by (nonlinear_arith)
                requires
                    y as int + 1 <= h as int,
            ;
        }
        while x < w
            invariant
                x <= w,
                y < h,
                gray.len() == (w as int) * (h as int),
                rows.len() == h,
                forall|yy: int|
                    0 <= yy < h ==> (#[trigger] rows@[yy])@ == spec_edge_row(
                        gray@,
                        w as int,
                        h as int,
                        t as int,
                        three,
                        yy,
                    ),
                gmap == spec_edge_map(gray@, w as int, h as int, t as int, three),
                gmap.len() == (w as int) * (h as int),
                out.len() == (y as int) * (w as int) + x as int,
                out.len() + (w as int) - (x as int) <= gray.len(),
                forall|i: int| 0 <= i < out.len() ==> (#[trigger] out@[i]) == gmap[i],
            decreases w - x,
        {
            let v = rows[y][x];
            proof {
                lemma_fundamental_div_mod_converse_div(
                    (y as int) * (w as int) + x as int,
                    w as int,
                    y as int,
                    x as int,
                );
                lemma_fundamental_div_mod_converse_mod(
                    (y as int) * (w as int) + x as int,
                    w as int,
                    y as int,
                    x as int,
                );
            }
            out.push(v);
            x = x + 1;
        }
        y = y + 1;
    }
    proof {
        assert((h as int) * (w as int) == (w as int) * (h as int)) by (nonlinear_arith);
        assert(out@ =~= gmap);
    }
    out
}

/// Sobel edge detection on a decoded RGB buffer: convert to luminance,
/// classify every interior pixel as 255 (magnitude above the threshold)
/// or 0, and leave every border pixel 0.
pub fn sobel_edge_detection(rgb: &Vec<u8>, width: usize, height: usize, threshold: u8) -> (res:
    Result<Vec<u8>, ImageError>)
    requires
        (width as int) * (height as int) <= 1_000_000_000,
    ensures
        match res {
            Ok(out) => out@ == spec_edge_map(
                spec_luma_map(rgb@),
                width as int,
                height as int,
                threshold as int,
                false,
            ) && out@.len() == (width as int) * (height as int) && rgb@.len() == 3 * (width as int)
                * (height as int),
            Err(e) => e == ImageError::InvalidImage && rgb@.len() != 3 * (width as int) * (
            height as int),
        },
{
    let n = width * height;
    proof {
        assert(3 * ((width as int) * (height as int)) == 3 * (width as int) * (height as int))
            by (nonlinear_arith);
    }
    if rgb.len() / 3 != n || rgb.len() % 3 != 0 {
        return Err(ImageError::InvalidImage);
    }
    let gray = luminance(rgb);
    let out = edge_map(&gray, width, height, threshold, false);
    Ok(out)
}

/// Multi-scale Sobel edge detection: like `sobel_edge_detection`, but
/// with the three-level classifier (255 above the threshold, 128 above
/// half of it, else 0). The weak level is not traced to strong edges.
pub fn multi_scale_sobel(rgb: &Vec<u8>, width: usize, height: usize, threshold: u8) -> (res: Result<
    Vec<u8>,
    ImageError,
>)
    requires
        (width as int) * (height as int) <= 1_000_000_000,
    ensures
        match res {
            Ok(out) => out@ == spec_edge_map(
                spec_luma_map(rgb@),
                width as int,
                height as int,
                threshold as int,
                true,
            ) && out@.len() == (width as int) * (height as int) && rgb@.len() == 3 * (width as int)
                * (height as int),
            Err(e) => e == ImageError::InvalidImage && rgb@.len() != 3 * (width as int) * (
            height as int),
        },
{
    let n = width * height;
    proof {
        assert(3 * ((width as int) * (height as int)) == 3 * (width as int) * (height as int))
            by (nonlinear_arith);
    }
    if rgb.len() / 3 != n || rgb.len() % 3 != 0 {
        return Err(ImageError::InvalidImage);
    }
    let gray = luminance(rgb);
    let out = edge_map(&gray, width, height, threshold, true);
    Ok(out)
}

/// Edge detection with a model-availability policy: when the caller
/// reports that an edge model is present, the richer multi-scale
/// detector runs; otherwise the plain Sobel detector. The policy never
/// fails for want of a model.
pub fn ai_edge_detection(
    rgb: &Vec<u8>,
    width: usize,
    height: usize,
    threshold: u8,
    model_available: bool,
) -> (res: Result<Vec<u8>, ImageError>)
    requires
        (width as int) * (height as int) <= 1_000_000_000,
    ensures
        match res {
            Ok(out) => out@ == spec_edge_map(
                spec_luma_map(rgb@),
                width as int,
                height as int,
                threshold as int,
                model_available,
            ) && rgb@.len() == 3 * (width as int) * (height as int),
            Err(e) => e == ImageError::InvalidImage && rgb@.len() != 3 * (width as int) * (
            height as int),
        },
{
    if model_available {
        multi_scale_sobel(rgb, width, height, threshold)
    } else {
        sobel_edge_detection(rgb, width, height, threshold)
    }
}

/// Canny edge detection is not provided: the call always reports an
/// unsupported operation instead of silently degrading.
pub fn canny_edge_detection(_rgb: &Vec<u8>, _low: u8, _high: u8) -> (res: Result<
    Vec<u8>,
    ImageError,
>)
    ensures
        res == Result::<Vec<u8>, ImageError>::Err(ImageError::UnsupportedOperation),
{
    Err(ImageError::UnsupportedOperation)
}

/// The blend weight clamped to `[0, 1000]` permille.
pub open spec fn spec_clamp_alpha(alpha: int) -> int {
    if alpha < 0 {
        0
    } else if alpha > 1000 {
        1000
    } else {
        alpha
    }
}

/// The blend of two edge maps: each byte is the rounded weighted mix
/// `round((a * (1000 - alpha) + b * alpha) / 1000)` at the clamped
/// weight.
pub open spec fn spec_blend(a: Seq<u8>, b: Seq<u8>, alpha: int) -> Seq<u8> {
    let al = spec_clamp_alpha(alpha);
    Seq::new(
        a.len(),
        |i: int| (((a[i] as int) * (1000 - al) + (b[i] as int) * al + 500) / 1000) as u8,
    )
}

/// Blend two edge maps with a weight in permille (clamped to
/// `[0, 1000]`): weight 0 returns the first map bytewise, weight 1000
/// the second. Maps of different lengths are an invalid parameter.
pub fn blend_edges(a: &Vec<u8>, b: &Vec<u8>, alpha_permille: i64) -> (res: Result<
    Vec<u8>,
    ImageError,
>)
    ensures
        match res {
            Ok(out) => a@.len() == b@.len() && out@ == spec_blend(a@, b@, alpha_permille as int),
            Err(e) => e == ImageError::InvalidParameter && a@.len() != b@.len(),
        },
{
    if a.len() != b.len() {
        return Err(ImageError::InvalidParameter);
    }
    let al: u64 = if alpha_permille < 0 {
        0
    } else if alpha_permille > 1000 {
        1000
    } else {
        alpha_permille as u64
    };
    let n = a.len();
    let ghost gout = spec_blend(a@, b@, alpha_permille as int);
    let mut out: Vec<u8> = Vec::new();
    let mut i: usize = 0;
    while i < n
        invariant
            i <= n,
            n == a@.len() == b@.len(),
            al as int == spec_clamp_alpha(alpha_permille as int),
            al <= 1000,
            gout == spec_blend(a@, b@, alpha_permille as int),
            out.len() == i,
            forall|t: int| 0 <= t < i ==> (#[trigger] out@[t]) == gout[t],
        decreases n - i,
    {
        proof {
            assert((a@[i as int] as int) * (1000 - al as int) < 256_000 && (a@[i as int] as int)
                * (1000 - al as int) >= 0 && (b@[i as int] as int) * (al as int) < 256_000 && (
            b@[i as int] as int) * (al as int) >= 0 && (a@[i as int] as int) * (1000 - al as int)
                + (b@[i as int] as int) * (al as int) + 500 < 1000 * 256) by (nonlinear_arith)
                requires
                    a@[i as int] <= 255u8,
                    b@[i as int] <= 255u8,
                    0 <= al <= 1000u64,
            ;
        }
        let num = (a[i] as u64) * (1000 - al) + (b[i] as u64) * al + 500;
        proof {
            lemma_multiply_divide_lt(num as int, 1000, 256);
            lemma_div_is_ordered(0, num as int, 1000);
        }
        out.push((num / 1000) as u8);
        i = i + 1;
    }
    proof {
        assert(out@ =~= gout);
    }
    Ok(out)
}

/// Blend boundary: at weight 0 the blend is the first map exactly, at
/// weight 1000 (a unit weight) the second, bytewise.
pub proof fn lemma_blend_boundary(a: Seq<u8>, b: Seq<u8>)
    requires
        a.len() == b.len(),
    ensures
        spec_blend(a, b, 0) == a,
        spec_blend(a, b, 1000) == b,
{
    assert forall|i: int| 0 <= i < a.len() implies spec_blend(a, b, 0)[i] == a[i] && spec_blend(
        a,
        b,
        1000,
    )[i] == b[i] by {
        lemma_fundamental_div_mod_converse_div(
            (a[i] as int) * 1000 + 500,
            1000,
            a[i] as int,
            500,
        );
        lemma_fundamental_div_mod_converse_div(
            (b[i] as int) * 1000 + 500,
            1000,
            b[i] as int,
            500,
        );
    }
    assert(spec_blend(a, b, 0) =~= a);
    assert(spec_blend(a, b, 1000) =~= b);
}

/// Every border pixel of an edge map is zero, whichever classifier and
/// threshold are used.
pub proof fn lemma_edge_border_zero(gray: Seq<u8>, w: int, h: int, t: int, three: bool, x: int, y: int)
    requires
        0 <= x < w,
        0 <= y < h,
        x == 0 || x == w - 1 || y == 0 || y == h - 1,
    ensures
        spec_edge_map(gray, w, h, t, three)[y * w + x] == 0,
{
    assert(0 <= y * w + x < w * h) by (nonlinear_arith)
        requires
            0 <= x < w,
            0 <= y < h,
    ;
    lemma_fundamental_div_mod_converse_div(y * w + x, w, y, x);
    lemma_fundamental_div_mod_converse_mod(y * w + x, w, y, x);
}

/// How many pixels of an edge map are classified as strong edges.
pub open spec fn spec_count_strong(m: Seq<u8>) -> int
    decreases m.len(),
{
    if m.len() == 0 {
        0
    } else {
        spec_count_strong(m.drop_last()) + if m.last() == 255 {
            1int
        } else {
            0int
        }
    }
}

/// A map that is strong only where another is strong has at most as
/// many strong pixels.
pub proof fn lemma_count_strong_pointwise(m1: Seq<u8>, m2: Seq<u8>)
    requires
        m1.len() == m2.len(),
        forall|i: int| 0 <= i < m2.len() && m2[i] == 255 ==> m1[i] == 255,
    ensures
        spec_count_strong(m2) <= spec_count_strong(m1),
    decreases m1.len(),
{
    if m1.len() > 0 {
        lemma_count_strong_pointwise(m1.drop_last(), m2.drop_last());
    }
}

/// Edge monotonicity: raising the threshold never increases the number
/// of strong-edge pixels, for either classifier.
pub proof fn lemma_edge_monotonic(gray: Seq<u8>, w: int, h: int, t1: int, t2: int, three: bool)
    requires
        0 <= t1 <= t2,
        w >= 0,
        h >= 0,
    ensures
        spec_count_strong(spec_edge_map(gray, w, h, t2, three)) <= spec_count_strong(
            spec_edge_map(gray, w, h, t1, three),
        ),
{
    let m1 = spec_edge_map(gray, w, h, t1, three);
    let m2 = spec_edge_map(gray, w, h, t2, three);
    assert(w * h >= 0) by (nonlinear_arith)
        requires
            w >= 0,
            h >= 0,
    ;
    assert forall|i: int| 0 <= i < m2.len() && m2[i] == 255 implies m1[i] == 255 by {
        assert(w >= 1) by (nonlinear_arith)
            requires
                w * h > 0,
                h >= 0,
        ;
        lemma_multiply_divide_lt(i, w, h);
        lemma_mod_bound(i, w);
        let x = i % w;
        let y = i / w;
        if !(y == 0 || y >= h - 1 || x == 0 || x >= w - 1) {
            assert(t1 * t1 <= t2 * t2) by (nonlinear_arith)
                requires
                    0 <= t1 <= t2,
            ;
        }
    }
    lemma_count_strong_pointwise(m1, m2);
}

} // verus!
