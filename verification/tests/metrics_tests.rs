use pixel_sort::{
    metric_value, pixel_blue, pixel_brightness, pixel_chroma, pixel_green, pixel_hue, pixel_luma,
    pixel_max, pixel_min, pixel_red, pixel_saturation, Metric,
};

#[test]
fn channel_metrics_pick_their_channel() {
    let p = [10u8, 20, 30, 40];
    assert_eq!(pixel_red(&p), 10);
    assert_eq!(pixel_green(&p), 20);
    assert_eq!(pixel_blue(&p), 30);
}

#[test]
fn max_min_chroma_exact() {
    let p = [10u8, 20, 30, 40];
    assert_eq!(pixel_max(&p), 30);
    assert_eq!(pixel_min(&p), 10);
    assert_eq!(pixel_chroma(&p), 20);
    let q = [200u8, 5, 100, 0];
    assert_eq!(pixel_max(&q), 200);
    assert_eq!(pixel_min(&q), 5);
    assert_eq!(pixel_chroma(&q), 195);
}

#[test]
fn hue_is_zero_for_grey() {
    for v in [0u8, 1, 127, 255] {
        let p = [v, v, v, 255];
        assert_eq!(pixel_chroma(&p), 0);
        assert_eq!(pixel_hue(&p), 0);
    }
}

#[test]
fn hue_offsets_by_dominant_channel() {
    // red dominant: |g - b| / c * 43
    assert_eq!(pixel_hue(&[200u8, 50, 50, 0]), 0);
    // green dominant: |b - r| / c * 43 + 85
    assert_eq!(pixel_hue(&[50u8, 200, 50, 0]), 85);
    // blue dominant: |r - g| / c * 43 + 171
    assert_eq!(pixel_hue(&[50u8, 50, 200, 0]), 171);
    // a tie between green and blue goes to blue
    assert_eq!(pixel_hue(&[0u8, 90, 90, 0]), 43 + 171);
}

#[test]
fn saturation_exact() {
    assert_eq!(pixel_saturation(&[0u8, 0, 0, 9]), 0);
    // chroma 150, max 200: 150 / 200 = 0
    assert_eq!(pixel_saturation(&[200u8, 50, 100, 0]), 0);
    // chroma == max: 1
    assert_eq!(pixel_saturation(&[200u8, 0, 100, 0]), 1);
}

#[test]
fn brightness_exact() {
    // 10/3 + 20/3 + 30/3 + (1 + 2 + 0)/2 = 3 + 6 + 10 + 1 = 20
    assert_eq!(pixel_brightness(&[10u8, 20, 30, 0]), 20);
    assert_eq!(pixel_brightness(&[255u8, 255, 255, 0]), 255);
    assert_eq!(pixel_brightness(&[254u8, 254, 254, 0]), 255);
    assert_eq!(pixel_brightness(&[0u8, 0, 0, 0]), 0);
}

#[test]
fn luma_exact() {
    // (2*10 + 20 + 4*30) >> 3 = 160 / 8 = 20
    assert_eq!(pixel_luma(&[10u8, 20, 30, 0]), 20);
    // (2*255 + 255 + 4*255) >> 3 = 1785 / 8 = 223
    assert_eq!(pixel_luma(&[255u8, 255, 255, 0]), 223);
}

#[test]
fn dispatch_matches_direct_functions() {
    let samples = [
        [10u8, 20, 30, 40],
        [255, 0, 128, 1],
        [7, 7, 7, 7],
        [0, 255, 0, 255],
        [254, 253, 252, 0],
    ];
    for p in samples {
        let (r, g, b) = (p[0], p[1], p[2]);
        assert_eq!(metric_value(Metric::Red, r, g, b), pixel_red(&p));
        assert_eq!(metric_value(Metric::Green, r, g, b), pixel_green(&p));
        assert_eq!(metric_value(Metric::Blue, r, g, b), pixel_blue(&p));
        assert_eq!(metric_value(Metric::Max, r, g, b), pixel_max(&p));
        assert_eq!(metric_value(Metric::Min, r, g, b), pixel_min(&p));
        assert_eq!(metric_value(Metric::Chroma, r, g, b), pixel_chroma(&p));
        assert_eq!(metric_value(Metric::Hue, r, g, b), pixel_hue(&p));
        assert_eq!(metric_value(Metric::Saturation, r, g, b), pixel_saturation(&p));
        assert_eq!(metric_value(Metric::Brightness, r, g, b), pixel_brightness(&p));
        assert_eq!(metric_value(Metric::Luma, r, g, b), pixel_luma(&p));
    }
}
