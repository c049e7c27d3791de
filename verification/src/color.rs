//! sRGB <-> LAB conversion and perceptual distance, in fixed point.
//!
//! Intermediate quantities (linear channel values, XYZ coordinates, the CIE
//! `f` values) are carried at a scale of `10^7`; the fields of [`Lab`] are
//! milli-units, so `l == 100_000` stands for a lightness of 100.0. The
//! piecewise gamma curve `((c + 0.055) / 1.055)^2.4` and its inverse are
//! evaluated through floor roots: `v^2.4 = v^2 * (v^2)^(1/5)` and
//! `v^(5/12) = v^(1/3) * v^(1/12)`.

use vstd::prelude::*;
use vstd::arithmetic::div_mod::{lemma_div_is_ordered, lemma_div_multiples_vanish};
use crate::roots::{
    is_sqrt_floor, is_cbrt_floor, is_root5_floor, sqrt_floor, cbrt_floor, root5_floor,
    lemma_sqrt_floor_agrees, lemma_cbrt_floor_agrees, lemma_root5_floor_agrees, isqrt, icbrt,
    iroot5,
};

verus! {

/// A LAB triple in milli-units: `l` is 1000 times the lightness L,
/// `a` and `b` are 1000 times the chroma components.
#[derive(Clone, Copy, PartialEq, Eq, Structural, Debug)]
pub struct Lab {
    pub l: i64,
    pub a: i64,
    pub b: i64,
}

/// The range every LAB value produced by this library lies in:
/// lightness in `[0, 100]`, chroma components within `[-440, 440]`
/// (the widest values the fixed-point `f` range can yield).
pub open spec fn lab_wf(c: Lab) -> bool {
    0 <= c.l <= 100_000 && -440_000 <= c.a <= 440_000 && -440_000 <= c.b <= 440_000
}

/// Quotient bound: `x <= b * d` gives `x / d <= b`.
proof fn lemma_div_le(x: int, b: int, d: int)
    requires
        0 < d,
        x <= b * d,
    ensures
        x / d <= b,
{
    lemma_div_is_ordered(x, b * d, d);
    assert(b * d == d * b) by (nonlinear_arith);
    lemma_div_multiples_vanish(b, d);
}

/// Truncating division by a positive divisor, the semantics of the
/// machine division on signed values.
pub open spec fn tdiv(n: int, d: int) -> int {
    if n >= 0 {
        n / d
    } else {
        -((-n) / d)
    }
}

/// The gamma-decoded (linear) value of an sRGB byte, at scale `10^7`.
///
/// Below the sRGB breakpoint (`c / 255 <= 0.04045`, that is `c <= 10`)
/// the curve is linear with slope `1 / 12.92`; above it the value is
/// `((c / 255 + 0.055) / 1.055)^2.4`, evaluated as `v^2 * (v^2)^(1/5)`.
pub open spec fn spec_gamma_to_linear(c: int) -> int {
    if c <= 10 {
        c * 100_000_000 / 32946
    } else {
        let v6 = (1000 * c + 14025) * 1_000_000 / 269025;
        let w2 = v6 * v6 / 100_000;
        w2 * root5_floor(w2 * 10_000_000_000_000_000_000_000_000_000) / 10_000_000
    }
}

/// The CIE `f` function at scale `10^7`: the cube root above the
/// breakpoint `(6/29)^3`, else the linear ramp `t * 841/108 + 4/29`.
pub open spec fn spec_lab_f(t: int) -> int {
    if t * 24389 > 2_160_000_000 {
        cbrt_floor(t * 100_000_000_000_000)
    } else {
        t * 841 / 108 + 1_379_310
    }
}

/// The LAB triple of an sRGB byte triple, in milli-units: the linear RGB
/// values are mixed by the D65 matrix, normalized by the white point,
/// passed through `f`, and combined into `L = 116 f(y) - 16`,
/// `a = 500 (f(x) - f(y))`, `b = 200 (f(y) - f(z))`; `L` is clamped to
/// `[0, 100]` against fixed-point underflow at the black point.
pub open spec fn spec_rgb_to_lab(r: int, g: int, b: int) -> (int, int, int) {
    let lr = spec_gamma_to_linear(r);
    let lg = spec_gamma_to_linear(g);
    let lb = spec_gamma_to_linear(b);
    let x7 = (lr * 4124564 + lg * 3575761 + lb * 1804375) / 10_000_000;
    let y7 = (lr * 2126729 + lg * 7151522 + lb * 721750) / 10_000_000;
    let z7 = (lr * 193339 + lg * 1191920 + lb * 9503041) / 10_000_000;
    let fx = spec_lab_f(x7 * 100_000 / 95047);
    let fy = spec_lab_f(y7);
    let fz = spec_lab_f(z7 * 100_000 / 108883);
    let lraw = if 116 * fy <= 160_000_000 {
        0
    } else {
        (116 * fy - 160_000_000) / 10_000
    };
    let ll = if lraw > 100_000 {
        100_000
    } else {
        lraw
    };
    let aa = if fx >= fy {
        (fx - fy) / 20
    } else {
        -((fy - fx) / 20)
    };
    let bb = if fy >= fz {
        (fy - fz) / 50
    } else {
        -((fz - fy) / 50)
    };
    (ll, aa, bb)
}

/// Gamma decoding of one sRGB byte to a linear value at scale `10^7`.
pub fn gamma_to_linear(c: u8) -> (lin: u64)
    ensures
        lin as int == spec_gamma_to_linear(c as int),
        lin <= 10_000_000,
{
    if c <= 10 {
        let lin = (c as u64) * 100_000_000 / 32946;
        proof {
            lemma_div_le((c as int) * 100_000_000, 10_000_000, 32946);
        }
        lin
    } else {
        let v6 = (1000 * (c as u64) + 14025) * 1_000_000 / 269025;
        proof {
            lemma_div_le((1000 * (c as int) + 14025) * 1_000_000, 1_000_000, 269025);
        }
        proof {
            assert((v6 as int) * (v6 as int) <= 1_000_000_000_000) by (nonlinear_arith)
                requires
                    v6 <= 1_000_000u64,
            ;
            lemma_div_le((v6 as int) * (v6 as int), 10_000_000, 100_000);
        }
        let w2 = v6 * v6 / 100_000;
        let r5 = iroot5((w2 as u128) * 10_000_000_000_000_000_000_000_000_000);
        proof {
            assert(is_root5_floor((w2 as int) * 10_000_000_000_000_000_000_000_000_000, r5 as int));
            assert(r5 <= 10_000_000) by (nonlinear_arith)
                requires
                    is_root5_floor((w2 as int) * 10_000_000_000_000_000_000_000_000_000, r5 as int),
                    w2 <= 10_000_000u64,
            ;
            assert((w2 as int) * (r5 as int) <= 100_000_000_000_000) by (nonlinear_arith)
                requires
                    w2 <= 10_000_000u64,
                    r5 <= 10_000_000u128,
            ;
        }
        let lin = (w2 * (r5 as u64)) / 10_000_000;
        proof {
            lemma_div_le((w2 as int) * (r5 as int), 10_000_000, 10_000_000);
        }
        lin
    }
}

/// The CIE `f` function on a white-point-normalized coordinate at scale
/// `10^7`; the result stays within `[4/29, 1]` in that scale.
pub fn lab_f(t: u64) -> (f: u64)
    requires
        t <= 10_000_001,
    ensures
        f as int == spec_lab_f(t as int),
        1_379_310 <= f <= 10_000_000,
{
    if t * 24389 > 2_160_000_000 {
        let froot = icbrt((t as u128) * 100_000_000_000_000);
        proof {
            assert(froot <= 10_000_000) by (nonlinear_arith)
                requires
                    is_cbrt_floor((t as int) * 100_000_000_000_000, froot as int),
                    t <= 10_000_001u64,
            ;
            assert(froot >= 1_379_310) by (nonlinear_arith)
                requires
                    is_cbrt_floor((t as int) * 100_000_000_000_000, froot as int),
                    (t as int) * 24389 > 2_160_000_000,
            ;
        }
        let f = froot as u64;
        f
    } else {
        let f = t * 841 / 108 + 1_379_310;
        proof {
            lemma_div_le((t as int) * 841, 689_680, 108);
        }
        f
    }
}

/// Convert one sRGB byte triple to its LAB triple in milli-units.
pub fn rgb_to_lab(r: u8, g: u8, b: u8) -> (lab: Lab)
    ensures
        (lab.l as int, lab.a as int, lab.b as int) == spec_rgb_to_lab(
            r as int,
            g as int,
            b as int,
        ),
        lab_wf(lab),
{
    let lr = gamma_to_linear(r);
    let lg = gamma_to_linear(g);
    let lb = gamma_to_linear(b);
    let x7 = (lr * 4124564 + lg * 3575761 + lb * 1804375) / 10_000_000;
    let y7 = (lr * 2126729 + lg * 7151522 + lb * 721750) / 10_000_000;
    let z7 = (lr * 193339 + lg * 1191920 + lb * 9503041) / 10_000_000;
    proof {
        lemma_div_le(
            (lr as int) * 4124564 + (lg as int) * 3575761 + (lb as int) * 1804375,
            9_504_700,
            10_000_000,
        );
        lemma_div_le(
            (lr as int) * 2126729 + (lg as int) * 7151522 + (lb as int) * 721750,
            10_000_001,
            10_000_000,
        );
        lemma_div_le(
            (lr as int) * 193339 + (lg as int) * 1191920 + (lb as int) * 9503041,
            10_888_300,
            10_000_000,
        );
    }
    let tx = x7 * 100_000 / 95047;
    let tz = z7 * 100_000 / 108883;
    proof {
        lemma_div_le((x7 as int) * 100_000, 10_000_000, 95047);
        lemma_div_le((z7 as int) * 100_000, 10_000_000, 108883);
    }
    let fx = lab_f(tx);
    let fy = lab_f(y7);
    let fz = lab_f(tz);
    let ll: i64 = if 116 * fy <= 160_000_000 {
        0
    } else {
        let lraw = (116 * fy - 160_000_000) / 10_000;
        proof {
            lemma_div_le(116 * (fy as int) - 160_000_000, 100_000, 10_000);
        }
        if lraw > 100_000 {
            100_000
        } else {
            lraw as i64
        }
    };
    let aa: i64 = if fx >= fy {
        ((fx - fy) / 20) as i64
    } else {
        -(((fy - fx) / 20) as i64)
    };
    let bb: i64 = if fy >= fz {
        ((fy - fz) / 50) as i64
    } else {
        -(((fz - fy) / 50) as i64)
    };
    proof {
        lemma_div_le((fx as int) - (fy as int), 440_000, 20);
        lemma_div_le((fy as int) - (fx as int), 440_000, 20);
        lemma_div_le((fy as int) - (fz as int), 440_000, 50);
        lemma_div_le((fz as int) - (fy as int), 440_000, 50);
    }
    Lab { l: ll, a: aa, b: bb }
}

/// The squared Euclidean distance of two LAB triples, in squared
/// milli-units.
pub open spec fn spec_dist_sq(c1: Lab, c2: Lab) -> int {
    (c1.l - c2.l) * (c1.l - c2.l) + (c1.a - c2.a) * (c1.a - c2.a) + (c1.b - c2.b) * (c1.b
        - c2.b)
}

/// The perceptual distance (Delta-E) of two LAB triples, in milli-units:
/// the floor of the Euclidean distance.
pub open spec fn spec_color_distance(c1: Lab, c2: Lab) -> int {
    sqrt_floor(spec_dist_sq(c1, c2))
}

/// Absolute difference of two bounded signed values.
fn abs_diff(x: i64, y: i64) -> (d: u64)
    requires
        -1_000_000 <= x <= 1_000_000,
        -1_000_000 <= y <= 1_000_000,
    ensures
        d as int == if x >= y {
            x - y
        } else {
            y - x
        },
        d <= 2_000_000,
{
    if x >= y {
        (x - y) as u64
    } else {
        (y - x) as u64
    }
}

/// Squared perceptual distance of two well-formed LAB triples.
pub fn color_distance_sq(c1: Lab, c2: Lab) -> (d: u64)
    requires
        lab_wf(c1),
        lab_wf(c2),
    ensures
        d as int == spec_dist_sq(c1, c2),
        d <= 12_000_000_000_000,
{
    let dl = abs_diff(c1.l, c2.l);
    let da = abs_diff(c1.a, c2.a);
    let db = abs_diff(c1.b, c2.b);
    proof {
        assert((dl as int) * (dl as int) == (c1.l - c2.l) * (c1.l - c2.l) && (dl as int) * (
        dl as int) <= 4_000_000_000_000) by (nonlinear_arith)
            requires
                dl <= 2_000_000u64,
                dl as int == if c1.l >= c2.l {
                    c1.l - c2.l
                } else {
                    c2.l - c1.l
                },
        ;
        assert((da as int) * (da as int) == (c1.a - c2.a) * (c1.a - c2.a) && (da as int) * (
        da as int) <= 4_000_000_000_000) by (nonlinear_arith)
            requires
                da <= 2_000_000u64,
                da as int == if c1.a >= c2.a {
                    c1.a - c2.a
                } else {
                    c2.a - c1.a
                },
        ;
        assert((db as int) * (db as int) == (c1.b - c2.b) * (c1.b - c2.b) && (db as int) * (
        db as int) <= 4_000_000_000_000) by (nonlinear_arith)
            requires
                db <= 2_000_000u64,
                db as int == if c1.b >= c2.b {
                    c1.b - c2.b
                } else {
                    c2.b - c1.b
                },
        ;
    }
    dl * dl + da * da + db * db
}

/// Perceptual color distance (Delta-E) of two well-formed LAB triples, in
/// milli-units: `0.001 * d` is the Euclidean distance in LAB space.
pub fn color_distance_lab(c1: Lab, c2: Lab) -> (d: u64)
    requires
        lab_wf(c1),
        lab_wf(c2),
    ensures
        d as int == spec_color_distance(c1, c2),
        d <= 3_500_000,
{
    let sq = color_distance_sq(c1, c2);
    let d = isqrt(sq);
    proof {
        assert(d <= 3_500_000) by (nonlinear_arith)
            requires
                is_sqrt_floor(sq as int, d as int),
                sq <= 12_000_000_000_000u64,
        ;
    }
    d
}

/// The LAB colors of the pixels of a flat 3-channel RGB buffer.
pub open spec fn spec_lab_pixels(rgb: Seq<u8>) -> Seq<Lab> {
    Seq::new(
        (rgb.len() / 3) as nat,
        |i: int|
            {
                let lab = spec_rgb_to_lab(
                    rgb[3 * i] as int,
                    rgb[3 * i + 1] as int,
                    rgb[3 * i + 2] as int,
                );
                Lab { l: lab.0 as i64, a: lab.1 as i64, b: lab.2 as i64 }
            },
    )
}

/// Distance identity: the distance of a triple to itself is zero, and a
/// zero distance means the squared difference is zero in every component.
pub proof fn lemma_color_distance_identity(c: Lab)
    ensures
        spec_color_distance(c, c) == 0,
{
    assert(spec_dist_sq(c, c) == 0) by (nonlinear_arith);
    assert(is_sqrt_floor(0, 0)) by (nonlinear_arith);
    lemma_sqrt_floor_agrees(0, 0);
}

/// Distance symmetry: the perceptual distance does not depend on the
/// order of its arguments.
pub proof fn lemma_color_distance_symmetric(c1: Lab, c2: Lab)
    ensures
        spec_color_distance(c1, c2) == spec_color_distance(c2, c1),
{
    assert(spec_dist_sq(c1, c2) == spec_dist_sq(c2, c1)) by (nonlinear_arith);
}

/// The black point converts exactly and round-trips exactly: pure
/// black maps to `(0, 0, 0)` and back to pure black, with no error.
pub proof fn lemma_black_round_trip()
    ensures
        spec_rgb_to_lab(0, 0, 0) == (0int, 0int, 0int),
        spec_lab_to_rgb(0, 0, 0) == (0int, 0int, 0int),
{
}

/// The white point converts exactly: pure white maps to `(100, 0, 0)`
/// with no error at all in the fixed-point pipeline.
pub proof fn lemma_white_to_lab_exact()
    ensures
        spec_rgb_to_lab(255, 255, 255) == (100_000int, 0int, 0int),
{
    lemma_root5_floor_agrees(100_000_000_000_000_000_000_000_000_000_000_000, 10_000_000);
    assert((1000 * 255 + 14025) * 1_000_000 / 269025 == 1_000_000int);
    assert(1_000_000int * 1_000_000 / 100_000 == 10_000_000);
    assert(10_000_000int * 10_000_000_000_000_000_000_000_000_000
        == 100_000_000_000_000_000_000_000_000_000_000_000);
    assert(10_000_000int * 10_000_000 / 10_000_000 == 10_000_000);
    assert(spec_gamma_to_linear(255) == 10_000_000);
    lemma_cbrt_floor_agrees(1_000_000_000_000_000_000_000, 10_000_000);
    lemma_cbrt_floor_agrees(1_000_000_100_000_000_000_000, 10_000_000);
    assert(spec_lab_f(10_000_000) == 10_000_000);
    assert(spec_lab_f(10_000_001) == 10_000_000);
}

/// The LAB white point maps back to pure white exactly, so white
/// round-trips through the conversion with no error at all.
pub proof fn lemma_white_to_rgb_exact()
    ensures
        spec_lab_to_rgb(100_000, 0, 0) == (255int, 255int, 255int),
{
    assert((100_000int * 10_000 + 160_000_000) / 116 == 10_000_000);
    assert(10_000_000int * 10_000_000 * 10_000_000 / 100_000_000_000_000 == 10_000_000);
    assert(spec_lab_f_inv(10_000_000) == 10_000_000);
    assert(10_000_000int * 95047 / 100_000 == 9_504_700);
    assert(10_000_000int * 108883 / 100_000 == 10_888_300);
    assert(9_504_700int * 32404542 - 10_000_000int * 15371385 - 10_888_300int * 4985314
        == 100_000_005_921_200);
    assert(tdiv(100_000_005_921_200, 10_000_000) == 10_000_000);
    assert(-9_504_700int * 9692660 + 10_000_000int * 18760108 + 10_888_300int * 415560
        == 99_999_996_446_000);
    assert(tdiv(99_999_996_446_000, 10_000_000) == 9_999_999);
    assert(9_504_700int * 556434 - 10_000_000int * 2040259 + 10_888_300int * 10572252
        == 99_999_999_691_400);
    assert(tdiv(99_999_999_691_400, 10_000_000) == 9_999_999);
    lemma_cbrt_floor_agrees(1_000_000_000_000_000_000_000, 10_000_000);
    lemma_sqrt_floor_agrees(100_000_000_000_000, 10_000_000);
    assert(10_000_000int * 10_000_000 / 10_000_000 == 10_000_000);
    assert(1055int * 10_000_000 / 1000 == 10_550_000);
    assert((255int * 10_000_000 + 5_000_000) / 10_000_000 == 255);
    assert(spec_linear_to_gamma_byte(10_000_000) == 255);
    lemma_cbrt_floor_agrees(999_999_900_000_000_000_000, 9_999_999);
    lemma_sqrt_floor_agrees(99_999_990_000_000, 9_999_999);
    assert(9_999_999int * 9_999_999 / 10_000_000 == 9_999_998);
    assert(1055int * 9_999_998 / 1000 == 10_549_997);
    assert((255int * 9_999_997 + 5_000_000) / 10_000_000 == 255);
    assert(spec_linear_to_gamma_byte(9_999_999) == 255);
}

/// A truncating quotient lies within `[-b, b]` when the dividend lies
/// within `[-b*d, b*d]`.
proof fn lemma_tdiv_bounds(n: int, d: int, b: int)
    requires
        0 < d,
        0 <= b,
        -(b * d) <= n <= b * d,
    ensures
        -b <= tdiv(n, d) <= b,
{
    if n >= 0 {
        lemma_div_le(n, b, d);
        assert(n / d >= 0) by (nonlinear_arith)
            requires
                n >= 0,
                d > 0,
        ;
    } else {
        lemma_div_le(-n, b, d);
        assert((-n) / d >= 0) by (nonlinear_arith)
            requires
                -n >= 0,
                d > 0,
        ;
    }
}

/// Truncating division of a bounded signed value by a positive divisor.
fn tdiv_i64(n: i64, d: u64) -> (q: i64)
    requires
        1 <= d,
        -0x4000_0000_0000_0000 <= n <= 0x4000_0000_0000_0000,
    ensures
        q as int == tdiv(n as int, d as int),
{
    if n >= 0 {
        proof {
            assert((n as int) <= (n as int) * (d as int)) by (nonlinear_arith)
                requires
                    n >= 0,
                    d >= 1,
            ;
        }
        let q = (n as u64) / d;
        proof {
            lemma_div_le(n as int, n as int, d as int);
        }
        q as i64
    } else {
        proof {
            assert((-(n as int)) <= (-(n as int)) * (d as int)) by (nonlinear_arith)
                requires
                    n < 0,
                    d >= 1,
            ;
        }
        let m = ((-n) as u64) / d;
        proof {
            lemma_div_le(-(n as int), -(n as int), d as int);
        }
        -(m as i64)
    }
}

/// The inverse CIE `f` at scale `10^7`: the cube above the breakpoint
/// `6/29`, else the inverse linear ramp `(t - 4/29) * 108/841`.
pub open spec fn spec_lab_f_inv(t: int) -> int {
    if 29 * t > 60_000_000 {
        t * t * t / 100_000_000_000_000
    } else {
        tdiv((t - 1_379_310) * 108, 841)
    }
}

/// The inverse CIE `f` on a fixed-point `f` value (scale `10^7`).
pub fn lab_f_inv(t: i64) -> (f: i64)
    requires
        -21_000_000 <= t <= 32_000_000,
    ensures
        f as int == spec_lab_f_inv(t as int),
        -2_900_000 <= f <= 330_000_000,
        t <= 18_800_000 ==> f <= 66_500_000,
        t >= 1_379_310 ==> f >= 0,
        t <= 10_000_000 ==> f <= 10_000_000,
{
    if 29 * t > 60_000_000 {
        let tc = t as u128;
        proof {
            assert((tc as int) * (tc as int) <= 1_024_000_000_000_000) by (nonlinear_arith)
                requires
                    0 <= tc <= 32_000_000u128,
            ;
            assert((tc as int) * (tc as int) * (tc as int) <= 32_768_000_000_000_000_000_000)
                by (nonlinear_arith)
                requires
                    0 <= tc <= 32_000_000u128,
            ;
            assert((t as int) <= 18_800_000 ==> (tc as int) * (tc as int) * (tc as int)
                <= 6_644_672_000_000_000_000_000) by (nonlinear_arith)
                requires
                    tc as int == t as int,
                    0 <= tc <= 32_000_000u128,
            ;
            assert((t as int) <= 10_000_000 ==> (tc as int) * (tc as int) * (tc as int)
                <= 1_000_000_000_000_000_000_000) by (nonlinear_arith)
                requires
                    tc as int == t as int,
                    0 <= tc <= 32_000_000u128,
            ;
        }
        let cube = tc * tc * tc / 100_000_000_000_000;
        proof {
            lemma_div_le((tc as int) * (tc as int) * (tc as int), 330_000_000,
                100_000_000_000_000);
            if t <= 18_800_000 {
                lemma_div_le((tc as int) * (tc as int) * (tc as int), 66_500_000,
                    100_000_000_000_000);
            }
            if t <= 10_000_000 {
                lemma_div_le((tc as int) * (tc as int) * (tc as int), 10_000_000,
                    100_000_000_000_000);
            }
            assert((tc as int) * (tc as int) * (tc as int) >= 0) by (nonlinear_arith)
                requires
                    tc >= 0,
            ;
            lemma_div_is_ordered(0, (tc as int) * (tc as int) * (tc as int),
                100_000_000_000_000);
        }
        cube as i64
    } else {
        let s = t - 1_379_310;
        if s >= 0 {
            let q = ((s as u64) * 108) / 841;
            proof {
                lemma_div_le((s as int) * 108, 88_565, 841);
                lemma_div_is_ordered(0, (s as int) * 108, 841);
            }
            q as i64
        } else {
            let q = (((-s) as u64) * 108) / 841;
            proof {
                lemma_div_le((-(s as int)) * 108, 2_874_000, 841);
                lemma_div_is_ordered(0, (-(s as int)) * 108, 841);
            }
            -(q as i64)
        }
    }
}

/// Rounding of a nonnegative gamma value at scale `10^7` to an output
/// byte: `round(255 * g)`, clamped to `[0, 255]`; a nonpositive gamma
/// value gives 0.
pub open spec fn spec_gamma_byte(g: int) -> int {
    if g <= 0 {
        0
    } else {
        let v = (255 * g + 5_000_000) / 10_000_000;
        if v > 255 {
            255
        } else {
            v
        }
    }
}

/// Encoding of a linear value at scale `10^7` (possibly out of gamut on
/// either side) to a gamma-encoded output byte. Above the breakpoint
/// `0.0031308` the curve is `1.055 * c^(5/12) - 0.055`, evaluated as
/// `c^(1/3) * c^(1/12)`; below it the slope is `12.92`.
pub open spec fn spec_linear_to_gamma_byte(lin: int) -> int {
    if lin <= 0 {
        0
    } else if lin <= 31308 {
        spec_gamma_byte(lin * 1292 / 100)
    } else {
        let u = cbrt_floor(lin * 100_000_000_000_000);
        let s1 = sqrt_floor(u * 10_000_000);
        let s2 = sqrt_floor(s1 * 10_000_000);
        let g512 = u * s2 / 10_000_000;
        spec_gamma_byte(1055 * g512 / 1000 - 550_000)
    }
}

/// Gamma encoding of one linear channel value to an output byte.
pub fn linear_to_gamma_byte(lin: i64) -> (c: u8)
    requires
        -450_000_000 <= lin <= 450_000_000,
    ensures
        c as int == spec_linear_to_gamma_byte(lin as int),
{
    if lin <= 0 {
        0
    } else if lin <= 31308 {
        let g = (lin as u64) * 1292 / 100;
        proof {
            lemma_div_le((lin as int) * 1292, 405_000, 100);
            lemma_div_is_ordered(0, (lin as int) * 1292, 100);
        }
        let v = (255 * g + 5_000_000) / 10_000_000;
        proof {
            lemma_div_le(255 * (g as int) + 5_000_000, 256, 10_000_000);
        }
        if v > 255 {
            255
        } else {
            v as u8
        }
    } else {
        let u = icbrt((lin as u128) * 100_000_000_000_000);
        proof {
            assert(u <= 36_000_000) by (nonlinear_arith)
                requires
                    is_cbrt_floor((lin as int) * 100_000_000_000_000, u as int),
                    lin <= 450_000_000i64,
            ;
        }
        let uu = u as u64;
        let s1 = isqrt(uu * 10_000_000);
        proof {
            assert(s1 <= 19_000_000) by (nonlinear_arith)
                requires
                    is_sqrt_floor((uu as int) * 10_000_000, s1 as int),
                    uu <= 36_000_000u64,
            ;
        }
        let s2 = isqrt(s1 * 10_000_000);
        proof {
            assert(s2 <= 14_000_000) by (nonlinear_arith)
                requires
                    is_sqrt_floor((s1 as int) * 10_000_000, s2 as int),
                    s1 <= 19_000_000u64,
            ;
            assert((uu as int) * (s2 as int) <= 504_000_000_000_000) by (nonlinear_arith)
                requires
                    uu <= 36_000_000u64,
                    s2 <= 14_000_000u64,
            ;
        }
        let g512 = uu * s2 / 10_000_000;
        proof {
            lemma_div_le((uu as int) * (s2 as int), 50_400_000, 10_000_000);
        }
        let q = 1055 * g512 / 1000;
        proof {
            lemma_div_le(1055 * (g512 as int), 53_172_000, 1000);
        }
        if q <= 550_000 {
            proof {
                lemma_div_is_ordered(0, 1055 * (g512 as int), 1000);
            }
            0
        } else {
            let g = q - 550_000;
            let v = (255 * g + 5_000_000) / 10_000_000;
            proof {
                lemma_div_le(255 * (g as int) + 5_000_000, 1_360_000_000, 10_000_000);
            }
            if v > 255 {
                255
            } else {
                v as u8
            }
        }
    }
}

/// The sRGB byte triple of a LAB triple in milli-units: the algebraic
/// inverse of [`spec_rgb_to_lab`] stage by stage, with each channel
/// rounded and clamped to a byte at the end.
pub open spec fn spec_lab_to_rgb(l: int, a: int, b: int) -> (int, int, int) {
    let fy = (l * 10_000 + 160_000_000) / 116;
    let fx = fy + 20 * a;
    let fz = fy - 50 * b;
    let xn = tdiv(spec_lab_f_inv(fx) * 95047, 100_000);
    let yn = spec_lab_f_inv(fy);
    let zn = tdiv(spec_lab_f_inv(fz) * 108883, 100_000);
    let rl = tdiv(xn * 32404542 - yn * 15371385 - zn * 4985314, 10_000_000);
    let gl = tdiv(-xn * 9692660 + yn * 18760108 + zn * 415560, 10_000_000);
    let bl = tdiv(xn * 556434 - yn * 2040259 + zn * 10572252, 10_000_000);
    (spec_linear_to_gamma_byte(rl), spec_linear_to_gamma_byte(gl), spec_linear_to_gamma_byte(bl))
}

/// Convert a LAB triple in milli-units back to an sRGB byte triple.
///
/// The domain covers every triple within [`lab_wf`], so the centroids a
/// clustering run produces can always be mapped back to bytes.
pub fn lab_to_rgb(l: i64, a: i64, b: i64) -> (rgb: (u8, u8, u8))
    requires
        0 <= l <= 100_000,
        -440_000 <= a <= 440_000,
        -440_000 <= b <= 440_000,
    ensures
        (rgb.0 as int, rgb.1 as int, rgb.2 as int) == spec_lab_to_rgb(
            l as int,
            a as int,
            b as int,
        ),
{
    let fy = (l as u64 * 10_000 + 160_000_000) / 116;
    proof {
        lemma_div_le((l as int) * 10_000 + 160_000_000, 10_000_000, 116);
        lemma_div_is_ordered(160_000_000, (l as int) * 10_000 + 160_000_000, 116);
    }
    let fyi = fy as i64;
    let fx = fyi + 20 * a;
    let fz = fyi - 50 * b;
    let fxv = lab_f_inv(fx);
    let yn = lab_f_inv(fyi);
    let fzv = lab_f_inv(fz);
    let xn = tdiv_i64(fxv * 95047, 100_000);
    let zn = tdiv_i64(fzv * 108883, 100_000);
    proof {
        lemma_tdiv_bounds((fxv as int) * 95047, 100_000, 63_300_000);
        lemma_tdiv_bounds((fzv as int) * 108883, 100_000, 360_000_000);
    }
    let rl = tdiv_i64(xn * 32404542 - yn * 15371385 - zn * 4985314, 10_000_000);
    let gl = tdiv_i64(-xn * 9692660 + yn * 18760108 + zn * 415560, 10_000_000);
    let bl = tdiv_i64(xn * 556434 - yn * 2040259 + zn * 10572252, 10_000_000);
    proof {
        lemma_tdiv_bounds(
            (xn as int) * 32404542 - (yn as int) * 15371385 - (zn as int) * 4985314,
            10_000_000,
            450_000_000,
        );
        lemma_tdiv_bounds(
            -(xn as int) * 9692660 + (yn as int) * 18760108 + (zn as int) * 415560,
            10_000_000,
            450_000_000,
        );
        lemma_tdiv_bounds(
            (xn as int) * 556434 - (yn as int) * 2040259 + (zn as int) * 10572252,
            10_000_000,
            450_000_000,
        );
    }
    let r = linear_to_gamma_byte(rl);
    let g = linear_to_gamma_byte(gl);
    let b = linear_to_gamma_byte(bl);
    (r, g, b)
}

} // verus!
