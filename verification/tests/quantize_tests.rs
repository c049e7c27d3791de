use perceptual_core::quantize::{quantize, quantize_lab};
use perceptual_core::ImageError;

#[test]
fn test_quantize_uniform() {
    let mut rgba = Vec::new();
    for _ in 0..4 {
        rgba.extend_from_slice(&[10u8, 20, 30, 90]);
    }
    let out = quantize(&rgba, 2, 2, 1, 3).unwrap();
    // Every pixel takes its centroid's color and an opaque alpha byte.
    for p in 0..4 {
        assert_eq!(&out[4 * p..4 * p + 4], &[10, 20, 30, 255]);
    }
}

#[test]
fn test_quantize_two_colors_exact() {
    let mut rgba = Vec::new();
    rgba.extend_from_slice(&[0u8, 0, 0, 255]);
    rgba.extend_from_slice(&[0u8, 0, 0, 255]);
    rgba.extend_from_slice(&[255u8, 255, 255, 255]);
    rgba.extend_from_slice(&[255u8, 255, 255, 255]);
    let out = quantize(&rgba, 2, 2, 2, 3).unwrap();
    assert_eq!(&out[0..4], &[0, 0, 0, 255]);
    assert_eq!(&out[4..8], &[0, 0, 0, 255]);
    assert_eq!(&out[8..12], &[255, 255, 255, 255]);
    assert_eq!(&out[12..16], &[255, 255, 255, 255]);
}

#[test]
fn test_quantize_errors() {
    let rgba = vec![0u8; 16];
    assert_eq!(quantize(&rgba, 2, 2, 0, 3), Err(ImageError::InvalidParameter));
    assert_eq!(quantize(&rgba, 3, 2, 2, 3), Err(ImageError::InvalidImage));
    let empty: Vec<u8> = Vec::new();
    assert_eq!(quantize(&empty, 0, 0, 2, 3), Err(ImageError::InvalidParameter));
}

#[test]
fn test_quantize_lab_black_exact() {
    let rgb = vec![0u8; 4 * 3];
    let out = quantize_lab(&rgb, 2, 2, 1, 2).unwrap();
    assert_eq!(out, vec![0u8; 12]);
}

#[test]
fn test_quantize_lab_uniform_near_input() {
    let rgb: Vec<u8> = [120u8, 60, 200].repeat(6);
    let out = quantize_lab(&rgb, 3, 2, 1, 2).unwrap();
    assert_eq!(out.len(), rgb.len());
    for p in 0..6 {
        assert!((out[3 * p] as i32 - 120).abs() <= 2);
        assert!((out[3 * p + 1] as i32 - 60).abs() <= 2);
        assert!((out[3 * p + 2] as i32 - 200).abs() <= 2);
    }
}

#[test]
fn test_quantize_lab_deterministic() {
    let rgb: Vec<u8> = vec![
        12, 34, 56, 200, 100, 50, 0, 255, 128, 90, 90, 90, 255, 0, 0, 30, 60, 90,
    ];
    let a = quantize_lab(&rgb, 3, 2, 2, 4).unwrap();
    let b = quantize_lab(&rgb, 3, 2, 2, 4).unwrap();
    assert_eq!(a, b);
}

#[test]
fn test_quantize_lab_errors() {
    let rgb = vec![0u8; 12];
    assert_eq!(quantize_lab(&rgb, 2, 2, 0, 3), Err(ImageError::InvalidParameter));
    assert_eq!(quantize_lab(&rgb, 5, 5, 2, 3), Err(ImageError::InvalidImage));
}
