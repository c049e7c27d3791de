use perceptual_core::cluster::kmeans_lab;
use perceptual_core::ImageError;

#[test]
fn test_kmeans_lab_invalid_parameters() {
    let pixels = vec![(10u8, 20u8, 30u8)];
    assert_eq!(kmeans_lab(&pixels, 0, 5), Err(ImageError::InvalidParameter));
    let empty: Vec<(u8, u8, u8)> = Vec::new();
    assert_eq!(kmeans_lab(&empty, 3, 5), Err(ImageError::InvalidParameter));
}

#[test]
fn test_kmeans_lab_deterministic() {
    let pixels = vec![
        (255u8, 0u8, 0u8),
        (250, 5, 5),
        (0, 0, 255),
        (5, 5, 250),
        (0, 255, 0),
        (5, 250, 5),
    ];
    let first = kmeans_lab(&pixels, 3, 10).unwrap();
    let second = kmeans_lab(&pixels, 3, 10).unwrap();
    assert_eq!(first, second);
    assert_eq!(first.len(), 3);
}

#[test]
fn test_kmeans_lab_uniform_input() {
    let pixels = vec![(0u8, 0u8, 0u8); 16];
    let cols = kmeans_lab(&pixels, 2, 4).unwrap();
    assert_eq!(cols.len(), 2);
    for (r, g, b) in cols {
        assert_eq!((r, g, b), (0, 0, 0));
    }
}

#[test]
fn test_kmeans_lab_degenerate_centroids() {
    // More clusters than samples: the remaining seeds repeat the first
    // sample, and the duplicates survive as equal representative colors.
    let pixels = vec![(30u8, 60u8, 90u8)];
    let cols = kmeans_lab(&pixels, 4, 3).unwrap();
    assert_eq!(cols.len(), 4);
    for c in &cols {
        assert_eq!(*c, cols[0]);
    }
    let (r, g, b) = cols[0];
    assert!((r as i32 - 30).abs() <= 2);
    assert!((g as i32 - 60).abs() <= 2);
    assert!((b as i32 - 90).abs() <= 2);
}

#[test]
fn test_kmeans_lab_separates_two_colors() {
    let mut pixels = vec![(0u8, 0u8, 0u8); 8];
    pixels.extend(vec![(255u8, 255u8, 255u8); 8]);
    let cols = kmeans_lab(&pixels, 2, 5).unwrap();
    assert_eq!(cols.len(), 2);
    let mut sorted = cols.clone();
    sorted.sort();
    let (r0, g0, b0) = sorted[0];
    let (r1, g1, b1) = sorted[1];
    assert!(r0 <= 2 && g0 <= 2 && b0 <= 2);
    assert!(r1 >= 253 && g1 >= 253 && b1 >= 253);
}

#[test]
fn test_kmeans_lab_zero_iterations_keeps_seeds() {
    // With no iterations the representative colors are the strided
    // seeds mapped through LAB and back.
    let pixels = vec![(10u8, 10u8, 10u8), (200u8, 200u8, 200u8)];
    let cols = kmeans_lab(&pixels, 2, 0).unwrap();
    assert_eq!(cols.len(), 2);
    let (r0, _, _) = cols[0];
    let (r1, _, _) = cols[1];
    assert!((r0 as i32 - 10).abs() <= 2);
    assert!((r1 as i32 - 200).abs() <= 2);
}
