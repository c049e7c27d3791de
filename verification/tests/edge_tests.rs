use perceptual_core::edges::{
    ai_edge_detection, blend_edges, canny_edge_detection, luminance, multi_scale_sobel,
    sobel_edge_detection,
};
use perceptual_core::ImageError;

fn stripe_image(w: usize, h: usize) -> Vec<u8> {
    // Left half black, right half white.
    let mut rgb = Vec::new();
    for _y in 0..h {
        for x in 0..w {
            let v = if x < w / 2 { 0u8 } else { 255u8 };
            rgb.push(v);
            rgb.push(v);
            rgb.push(v);
        }
    }
    rgb
}

#[test]
fn test_blend_edges() {
    let trad = vec![100u8, 150, 200];
    let ml = vec![50u8, 100, 150];

    let blended = blend_edges(&trad, &ml, 500).unwrap();
    assert_eq!(blended, vec![75, 125, 175]);

    let blended = blend_edges(&trad, &ml, 0).unwrap();
    assert_eq!(blended, trad);

    let blended = blend_edges(&trad, &ml, 1000).unwrap();
    assert_eq!(blended, ml);
}

#[test]
fn test_blend_edges_clamps_weight() {
    let a = vec![10u8, 20, 30];
    let b = vec![200u8, 210, 220];
    assert_eq!(blend_edges(&a, &b, -250).unwrap(), a);
    assert_eq!(blend_edges(&a, &b, 5000).unwrap(), b);
}

#[test]
fn test_blend_edges_length_mismatch() {
    let a = vec![1u8, 2, 3];
    let b = vec![1u8, 2];
    assert_eq!(blend_edges(&a, &b, 500), Err(ImageError::InvalidParameter));
}

#[test]
fn test_canny_unsupported() {
    let img = vec![0u8; 12];
    assert_eq!(
        canny_edge_detection(&img, 10, 40),
        Err(ImageError::UnsupportedOperation)
    );
}

#[test]
fn test_luminance_formula() {
    // (2126 * 255) / 10000 = 54 for pure red.
    let rgb = vec![255u8, 0, 0, 0, 255, 0, 0, 0, 255, 9, 9, 9];
    let gray = luminance(&rgb);
    assert_eq!(gray, vec![54, 182, 18, 9]);
}

#[test]
fn test_sobel_border_zero() {
    let rgb = stripe_image(6, 5);
    let edges = sobel_edge_detection(&rgb, 6, 5, 50).unwrap();
    assert_eq!(edges.len(), 30);
    for y in 0..5 {
        for x in 0..6 {
            if y == 0 || y == 4 || x == 0 || x == 5 {
                assert_eq!(edges[y * 6 + x], 0);
            }
        }
    }
}

#[test]
fn test_sobel_detects_stripe() {
    let rgb = stripe_image(6, 5);
    let edges = sobel_edge_detection(&rgb, 6, 5, 50).unwrap();
    // The black/white boundary runs between columns 2 and 3; interior
    // pixels beside it see a gradient magnitude of 4 * 255 = 1020,
    // which exceeds the threshold.
    assert_eq!(edges[1 * 6 + 2], 255);
    assert_eq!(edges[2 * 6 + 3], 255);
    // Far away from the boundary nothing fires.
    assert_eq!(edges[2 * 6 + 1], 0);
}

#[test]
fn test_sobel_exact_magnitude_comparison() {
    // Gradient gx = gy = 1 at the center, so the magnitude is sqrt(2):
    // above threshold 1, the pixel is a strong edge.
    let mut rgb = Vec::new();
    for v in [0u8, 0, 0, 0, 0, 0, 0, 0, 1] {
        rgb.push(v);
        rgb.push(v);
        rgb.push(v);
    }
    let edges = sobel_edge_detection(&rgb, 3, 3, 1).unwrap();
    assert_eq!(edges[4], 255);
    // At threshold 2 the same magnitude is below, so nothing fires.
    let edges = sobel_edge_detection(&rgb, 3, 3, 2).unwrap();
    assert_eq!(edges[4], 0);
}

#[test]
fn test_sobel_highest_threshold_still_satisfiable() {
    // The black/white seam has magnitude 1020 > 255, so even the
    // highest threshold classifies it strong.
    let rgb = stripe_image(6, 5);
    let edges = sobel_edge_detection(&rgb, 6, 5, 255).unwrap();
    assert_eq!(edges[2 * 6 + 2], 255);
}

#[test]
fn test_sobel_threshold_monotone() {
    let rgb = stripe_image(8, 6);
    let lo = sobel_edge_detection(&rgb, 8, 6, 10).unwrap();
    let hi = sobel_edge_detection(&rgb, 8, 6, 200).unwrap();
    let count_lo = lo.iter().filter(|&&v| v == 255).count();
    let count_hi = hi.iter().filter(|&&v| v == 255).count();
    assert!(count_hi <= count_lo);
}

#[test]
fn test_sobel_rejects_bad_length() {
    let rgb = vec![0u8; 17];
    assert_eq!(
        sobel_edge_detection(&rgb, 3, 2, 50),
        Err(ImageError::InvalidImage)
    );
}

#[test]
fn test_multi_scale_weak_edges() {
    // A mild two-level ramp: gradient magnitude at the seam is
    // 4 * 60 = 240, so with threshold 250 the seam is a weak edge
    // (240 > 125) but not a strong one.
    let mut rgb = Vec::new();
    for _y in 0..5 {
        for x in 0..6 {
            let v = if x < 3 { 100u8 } else { 160u8 };
            rgb.push(v);
            rgb.push(v);
            rgb.push(v);
        }
    }
    let edges = multi_scale_sobel(&rgb, 6, 5, 250).unwrap();
    assert_eq!(edges[2 * 6 + 2], 128);
    assert_eq!(edges[2 * 6 + 1], 0);
    // With a low threshold the same seam is strong.
    let strong = multi_scale_sobel(&rgb, 6, 5, 100).unwrap();
    assert_eq!(strong[2 * 6 + 2], 255);
}

#[test]
fn test_ai_edge_detection_policy() {
    let rgb = stripe_image(6, 5);
    let plain = ai_edge_detection(&rgb, 6, 5, 250, false).unwrap();
    let enhanced = ai_edge_detection(&rgb, 6, 5, 250, true).unwrap();
    assert_eq!(plain, sobel_edge_detection(&rgb, 6, 5, 250).unwrap());
    assert_eq!(enhanced, multi_scale_sobel(&rgb, 6, 5, 250).unwrap());
}
