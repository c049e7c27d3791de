use perceptual_core::model::{get_model_version, load_model, ModelCache};
use perceptual_core::ImageError;

#[test]
fn test_model_version_extraction() {
    assert_eq!(
        get_model_version("edge_detection_v1.0.0.onnx"),
        Some("1.0.0".to_string())
    );
    assert_eq!(
        get_model_version("color_optimizer_v2.1.3.onnx"),
        Some("2.1.3".to_string())
    );
    assert_eq!(get_model_version("no_version.onnx"), None);
}

#[test]
fn test_model_version_with_directory() {
    assert_eq!(
        get_model_version("models/edge_v2.onnx"),
        Some("2".to_string())
    );
    assert_eq!(get_model_version("mod_v9/edge.onnx"), None);
}

#[test]
fn test_model_version_without_extension() {
    assert_eq!(get_model_version("edge_v3"), Some("3".to_string()));
    assert_eq!(get_model_version(""), None);
}

#[test]
fn test_model_cache_lifecycle() {
    let mut cache = ModelCache::new();
    assert!(!cache.is_cached("edge_v1.onnx"));

    // A missing file is rejected and not recorded.
    assert_eq!(
        load_model(&mut cache, "edge_v1.onnx", false),
        Err(ImageError::InvalidParameter)
    );
    assert!(!cache.is_cached("edge_v1.onnx"));

    // A present file loads and is cached afterwards.
    assert_eq!(load_model(&mut cache, "edge_v1.onnx", true), Ok(true));
    assert!(cache.is_cached("edge_v1.onnx"));

    // A cached model loads even if the file has since vanished.
    assert_eq!(load_model(&mut cache, "edge_v1.onnx", false), Ok(true));

    cache.clear();
    assert!(!cache.is_cached("edge_v1.onnx"));
}
