use perceptual_core::color::{color_distance_lab, rgb_to_lab};
use perceptual_core::dispatch::{
    color_distance_batch_simd, has_simd_support, rgb_to_lab_optimized, rgb_to_lab_simd,
    sobel_gradient_simd,
};

#[test]
fn test_simd_availability() {
    println!("SIMD support: {}", has_simd_support());
}

#[test]
fn test_rgb_to_lab_optimized() {
    let rgb = vec![255u8, 0, 0, 0, 255, 0, 0, 0, 255];
    let lab = rgb_to_lab_optimized(&rgb);
    assert_eq!(lab.len(), 3);
}

#[test]
fn test_batched_conversion_matches_scalar() {
    // 19 pixels: two full batches of eight and a tail of three.
    let rgb: Vec<u8> = (0..57).map(|i| (i * 41 % 256) as u8).collect();
    let batched = rgb_to_lab_simd(&rgb);
    assert_eq!(batched.len(), 19);
    for i in 0..19 {
        let lab = rgb_to_lab(rgb[3 * i], rgb[3 * i + 1], rgb[3 * i + 2]);
        assert_eq!(batched[i], lab);
    }
    // The dispatcher agrees with the batched path whatever it selected.
    assert_eq!(rgb_to_lab_optimized(&rgb), batched);
}

#[test]
fn test_rgb_to_lab_optimized_ignores_trailing_bytes() {
    let rgb = vec![1u8, 2, 3, 4];
    let lab = rgb_to_lab_optimized(&rgb);
    assert_eq!(lab.len(), 1);
}

#[test]
fn test_sobel_gradient_uniform_is_zero() {
    let gray = vec![99u8; 5 * 4];
    let grads = sobel_gradient_simd(&gray, 5, 4);
    assert_eq!(grads, vec![0u64; 20]);
}

#[test]
fn test_sobel_gradient_exact_value() {
    // 3x3 image whose right column is bright: gx = 4 * 255 = 1020 at
    // the center, gy = 0, magnitude exactly 1020.
    let gray = vec![0u8, 0, 255, 0, 0, 255, 0, 0, 255];
    let grads = sobel_gradient_simd(&gray, 3, 3);
    assert_eq!(grads[4], 1020);
    // Border entries stay zero.
    for (i, g) in grads.iter().enumerate() {
        if i != 4 {
            assert_eq!(*g, 0);
        }
    }
}

#[test]
fn test_color_distance_batch_matches_pairwise() {
    let colors: Vec<_> = (0..11u16)
        .map(|i| rgb_to_lab((i * 23) as u8, (i * 57 % 256) as u8, (i * 91 % 256) as u8))
        .collect();
    let centroid = rgb_to_lab(128, 128, 128);
    let dists = color_distance_batch_simd(&colors, centroid);
    assert_eq!(dists.len(), 11);
    for i in 0..11 {
        assert_eq!(dists[i], color_distance_lab(colors[i], centroid));
    }
}

#[test]
fn test_color_distance_batch_to_self_is_zero() {
    let c = rgb_to_lab(200, 10, 60);
    let colors = vec![c; 9];
    let dists = color_distance_batch_simd(&colors, c);
    assert_eq!(dists, vec![0u64; 9]);
}
