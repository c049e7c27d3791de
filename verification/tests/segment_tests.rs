use perceptual_core::segment::{extract_layers, kmeans_segmentation, segment_image};
use perceptual_core::ImageError;

#[test]
fn test_segmentation() {
    let img = vec![0u8; 100 * 100 * 3];
    let segments = kmeans_segmentation(&img, 100, 100, 5).unwrap();
    assert_eq!(segments.len(), 100 * 100);
}

#[test]
fn test_segmentation_indices_in_range() {
    let mut rgb = Vec::new();
    for i in 0..64 {
        let v = if i % 2 == 0 { 0u8 } else { 255u8 };
        rgb.push(v);
        rgb.push(v);
        rgb.push(v);
    }
    let segments = kmeans_segmentation(&rgb, 8, 8, 3).unwrap();
    assert_eq!(segments.len(), 64);
    assert!(segments.iter().all(|&s| s < 3));
}

#[test]
fn test_segmentation_invalid_parameters() {
    let img = vec![0u8; 12];
    assert_eq!(
        kmeans_segmentation(&img, 2, 2, 0),
        Err(ImageError::InvalidParameter)
    );
    assert_eq!(
        kmeans_segmentation(&img, 5, 2, 2),
        Err(ImageError::InvalidImage)
    );
}

#[test]
fn test_segment_image_uniform_is_zero_mask() {
    let img = vec![77u8; 4 * 4 * 3];
    let mask = segment_image(&img, 4, 4, 1).unwrap();
    assert_eq!(mask, vec![0u8; 16]);
}

#[test]
fn test_segment_image_mask_encoding() {
    // Two clearly separated colors and k = 2: region indices 0 and 1,
    // encoded as round(0 / 2 * 255) = 0 and round(1 / 2 * 255) = 128.
    let mut rgb = vec![0u8; 8 * 3];
    rgb.extend(vec![255u8; 8 * 3]);
    let mask = segment_image(&rgb, 4, 4, 2).unwrap();
    assert_eq!(mask.len(), 16);
    let mut values: Vec<u8> = mask.clone();
    values.sort();
    values.dedup();
    assert_eq!(values, vec![0, 128]);
}

#[test]
fn test_extract_layers_groups_by_observed_value() {
    let rgb = vec![10u8, 20, 30, 40, 50, 60];
    let mask = vec![0u8, 7u8];
    let layers = extract_layers(&rgb, &mask, 2, 1).unwrap();
    assert_eq!(layers.len(), 2);
    assert_eq!(layers[0], vec![10, 20, 30, 255, 0, 0, 0, 0]);
    assert_eq!(layers[1], vec![0, 0, 0, 0, 40, 50, 60, 255]);
}

#[test]
fn test_extract_layers_single_value() {
    let rgb = vec![1u8, 2, 3, 4, 5, 6, 7, 8, 9];
    let mask = vec![200u8, 200, 200];
    let layers = extract_layers(&rgb, &mask, 3, 1).unwrap();
    assert_eq!(layers.len(), 1);
    assert_eq!(
        layers[0],
        vec![1, 2, 3, 255, 4, 5, 6, 255, 7, 8, 9, 255]
    );
}

#[test]
fn test_extract_layers_length_mismatch() {
    let rgb = vec![0u8; 9];
    let mask = vec![0u8; 2];
    assert_eq!(
        extract_layers(&rgb, &mask, 3, 1),
        Err(ImageError::InvalidImage)
    );
}
