use perceptual_core::color::{color_distance_lab, lab_to_rgb, rgb_to_lab, Lab};

#[test]
fn test_rgb_to_lab_white() {
    let lab = rgb_to_lab(255, 255, 255);
    assert!((lab.l - 100_000).abs() < 100);
    assert!(lab.a.abs() < 1000);
    assert!(lab.b.abs() < 1000);
}

#[test]
fn test_rgb_to_lab_black() {
    let lab = rgb_to_lab(0, 0, 0);
    assert!(lab.l.abs() < 100);
    assert!(lab.a.abs() < 1000);
    assert!(lab.b.abs() < 1000);
}

#[test]
fn test_lab_roundtrip() {
    let test_colors = vec![(255, 0, 0), (0, 255, 0), (0, 0, 255), (128, 128, 128)];

    for (r, g, b) in test_colors {
        let lab = rgb_to_lab(r, g, b);
        let (r2, g2, b2) = lab_to_rgb(lab.l, lab.a, lab.b);

        assert!((r as i32 - r2 as i32).abs() <= 2);
        assert!((g as i32 - g2 as i32).abs() <= 2);
        assert!((b as i32 - b2 as i32).abs() <= 2);
    }
}

#[test]
fn test_color_distance() {
    let white = rgb_to_lab(255, 255, 255);
    let black = rgb_to_lab(0, 0, 0);
    let dist = color_distance_lab(white, black);
    assert!(dist > 90_000);

    let c = rgb_to_lab(128, 64, 192);
    let dist = color_distance_lab(c, c);
    assert!(dist < 1);
}

#[test]
fn test_lab_roundtrip_sweep() {
    for v in (0u16..=255).step_by(15) {
        for w in (0u16..=255).step_by(51) {
            let (r, g, b) = (v as u8, w as u8, (255 - v) as u8);
            let lab = rgb_to_lab(r, g, b);
            let (r2, g2, b2) = lab_to_rgb(lab.l, lab.a, lab.b);
            assert!((r as i32 - r2 as i32).abs() <= 2);
            assert!((g as i32 - g2 as i32).abs() <= 2);
            assert!((b as i32 - b2 as i32).abs() <= 2);
        }
    }
}

#[test]
fn test_color_distance_symmetric() {
    let c1 = rgb_to_lab(10, 200, 30);
    let c2 = rgb_to_lab(240, 5, 90);
    assert_eq!(color_distance_lab(c1, c2), color_distance_lab(c2, c1));
}

#[test]
fn test_color_distance_exact_value() {
    // Distance of two LAB triples 3000 and 4000 milli-units apart in two
    // components: sqrt(3000^2 + 4000^2) = 5000.
    let a = Lab { l: 10_000, a: 0, b: 0 };
    let b = Lab { l: 13_000, a: 4000, b: 0 };
    assert_eq!(color_distance_lab(a, b), 5000);
}

#[test]
fn test_rgb_to_lab_gray_has_no_chroma() {
    for v in [0u8, 51, 119, 187, 255] {
        let lab = rgb_to_lab(v, v, v);
        assert!(lab.a.abs() < 1000);
        assert!(lab.b.abs() < 1000);
    }
}
