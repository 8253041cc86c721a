// Display constants used by the surrounding system's compositor backend;
// they involve pixel formats and floating-point color, which stay outside
// the verified library.

use drm_fourcc::DrmFourcc;

const CLEAR_COLOR: [f32; 4] = [0.1, 0.1, 0.1, 1.0];
const COLOR_FORMATS: &[DrmFourcc] = &[DrmFourcc::Argb8888, DrmFourcc::Xrgb8888];

#[test]
fn color_formats_not_empty() {
    assert!(!COLOR_FORMATS.is_empty());
}

#[test]
fn clear_color_is_valid() {
    for &c in &CLEAR_COLOR {
        assert!((0.0..=1.0).contains(&c));
    }
}
