use pixel_sort::{
    interval_none, interval_random, interval_threshold, interval_threshold_reverse, mask_fn,
    IntervalType, Metric, Opts, Pixel, RandomSource,
};

fn grey(v: u8) -> Pixel {
    Pixel { r: v, g: v, b: v, a: 255 }
}

fn full_range_opts() -> Opts {
    // the Max metric of a grey pixel is its grey value
    Opts {
        metric: Metric::Max,
        interval: IntervalType::Threshold,
        mask_alpha: false,
        invert: false,
        reverse: false,
        split: false,
        min: 0,
        max: 255,
    }
}

#[test]
fn default_opts_match_documented_defaults() {
    let o = Opts::default();
    assert!(matches!(o.metric, Metric::Max));
    assert!(matches!(o.interval, IntervalType::Random));
    assert!(!o.mask_alpha && !o.invert && !o.reverse && !o.split);
    assert_eq!(o.min, 0);
    assert_eq!(o.max, 255);
}

#[test]
fn threshold_full_range_returns_whole_remainder_and_zero_gap() {
    let o = full_range_opts();
    let pixels: Vec<Pixel> = (0u8..10).map(grey).collect();
    for ctr in 0..=pixels.len() {
        assert_eq!(interval_threshold(&o, &pixels, ctr), pixels.len() - ctr);
    }
    let run = interval_threshold(&o, &pixels, 0);
    assert_eq!(interval_threshold_reverse(&o, &pixels, run), 0);
}

#[test]
fn threshold_inverted_full_range_matches_nothing() {
    let mut o = full_range_opts();
    o.invert = true;
    let pixels: Vec<Pixel> = (0u8..6).map(grey).collect();
    assert_eq!(interval_threshold(&o, &pixels, 0), 0);
    assert_eq!(interval_threshold_reverse(&o, &pixels, 0), 6);
}

#[test]
fn threshold_window_counts_consecutive_matches() {
    let mut o = full_range_opts();
    o.min = 10;
    o.max = 20;
    let pixels = vec![grey(12), grey(20), grey(10), grey(30), grey(15)];
    assert_eq!(interval_threshold(&o, &pixels, 0), 3);
    assert_eq!(interval_threshold_reverse(&o, &pixels, 3), 1);
    assert_eq!(interval_threshold(&o, &pixels, 4), 1);
}

#[test]
fn alpha_mask_excludes_transparent_pixels() {
    let mut o = full_range_opts();
    o.mask_alpha = true;
    let mut clear = grey(50);
    clear.a = 0;
    assert!(!mask_fn(&o, &clear));
    assert!(mask_fn(&o, &grey(50)));
    let pixels = vec![grey(1), grey(2), clear, grey(3)];
    assert_eq!(interval_threshold(&o, &pixels, 0), 2);
    // without masking the transparent pixel matches like any other
    o.mask_alpha = false;
    assert_eq!(interval_threshold(&o, &pixels, 0), 4);
}

#[test]
fn split_clamps_run_to_half_and_forces_progress() {
    let mut o = full_range_opts();
    o.split = true;
    let pixels: Vec<Pixel> = (0u8..10).map(grey).collect();
    // a candidate run of 10 is clamped to the sequence half
    assert_eq!(interval_threshold(&o, &pixels, 0), 5);
    // even a zero-length candidate run is forced to 1
    o.invert = true;
    assert_eq!(interval_threshold(&o, &pixels, 0), 1);
}

#[test]
fn random_interval_is_bounded_and_gap_free() {
    let o = Opts { metric: Metric::Max, min: 2, max: 7, ..Opts::default() };
    let pixels: Vec<Pixel> = (0u8..20).map(grey).collect();
    let mut rng = RandomSource::from_seed(42);
    for ctr in 0..pixels.len() {
        let n = interval_random(&o, &pixels, ctr, &mut rng);
        assert!(n <= pixels.len() - ctr);
        assert!(n < 7);
        assert_eq!(interval_none(&o, &pixels, ctr), 0);
    }
    let mut split_o = o;
    split_o.split = true;
    for ctr in 0..pixels.len() {
        let n = interval_random(&split_o, &pixels, ctr, &mut rng);
        assert!(n >= 1);
        assert!(n == 1 || n <= pixels.len() / 2);
    }
}
