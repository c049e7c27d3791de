use perceptual_core::saliency::detect_salient_regions;
use perceptual_core::ImageError;

#[test]
fn test_saliency_uniform_is_zero() {
    let rgb: Vec<u8> = [100u8, 150, 200].repeat(64);
    let map = detect_salient_regions(&rgb, 8, 8).unwrap();
    assert_eq!(map, vec![0u8; 64]);
}

#[test]
fn test_saliency_contrast_is_positive() {
    // A black pixel beside a white pixel: both see high local contrast.
    let rgb = vec![0u8, 0, 0, 255, 255, 255];
    let map = detect_salient_regions(&rgb, 2, 1).unwrap();
    assert_eq!(map.len(), 2);
    assert!(map[0] > 0);
    assert!(map[1] > 0);
}

#[test]
fn test_saliency_single_pixel_is_zero() {
    // A 1x1 image has no window position beside the center.
    let rgb = vec![9u8, 9, 9];
    let map = detect_salient_regions(&rgb, 1, 1).unwrap();
    assert_eq!(map, vec![0u8]);
}

#[test]
fn test_saliency_rejects_bad_length() {
    let rgb = vec![0u8; 10];
    assert_eq!(
        detect_salient_regions(&rgb, 2, 2),
        Err(ImageError::InvalidImage)
    );
}

#[test]
fn test_saliency_deterministic() {
    let rgb: Vec<u8> = (0..48).map(|i| (i * 37 % 256) as u8).collect();
    let a = detect_salient_regions(&rgb, 4, 4).unwrap();
    let b = detect_salient_regions(&rgb, 4, 4).unwrap();
    assert_eq!(a, b);
}
