use pixel_sort::{sort_run, Metric, Pixel};

fn px(r: u8, g: u8, b: u8, a: u8) -> Pixel {
    Pixel { r, g, b, a }
}

fn lumas(v: &[Pixel]) -> Vec<u8> {
    v.iter()
        .map(|p| pixel_sort::pixel_luma(&[p.r, p.g, p.b, p.a]))
        .collect()
}

#[test]
fn sort_run_ascends_by_metric() {
    let mut v = vec![px(80, 80, 80, 0), px(10, 10, 10, 0), px(40, 40, 40, 0)];
    sort_run(&mut v, Metric::Luma, false);
    let keys = lumas(&v);
    assert!(keys.windows(2).all(|w| w[0] <= w[1]));
    assert_eq!(keys, vec![8, 35, 70]);
}

#[test]
fn sort_run_descends_when_reversed() {
    let mut v = vec![px(10, 10, 10, 0), px(80, 80, 80, 0), px(40, 40, 40, 0)];
    sort_run(&mut v, Metric::Luma, true);
    let keys = lumas(&v);
    assert!(keys.windows(2).all(|w| w[0] >= w[1]));
}

#[test]
fn sort_run_preserves_color_multiset() {
    let mut v = vec![
        px(5, 1, 2, 3),
        px(200, 7, 7, 7),
        px(5, 1, 2, 3),
        px(0, 0, 0, 0),
        px(130, 200, 8, 255),
    ];
    let mut before: Vec<[u8; 4]> = v.iter().map(|p| [p.r, p.g, p.b, p.a]).collect();
    sort_run(&mut v, Metric::Brightness, false);
    let mut after: Vec<[u8; 4]> = v.iter().map(|p| [p.r, p.g, p.b, p.a]).collect();
    before.sort();
    after.sort();
    assert_eq!(before, after);
}

#[test]
fn resorting_sorted_run_is_no_op() {
    let sorted = vec![
        px(1, 2, 3, 4),
        px(10, 20, 30, 40),
        px(90, 90, 90, 90),
        px(250, 250, 250, 0),
    ];
    let mut v = sorted.clone();
    sort_run(&mut v, Metric::Luma, false);
    assert_eq!(v, sorted);
    // and twice in a row from unsorted input: the second pass changes nothing
    let mut w = vec![px(90, 90, 90, 0), px(1, 2, 3, 4), px(50, 50, 50, 0)];
    sort_run(&mut w, Metric::Max, false);
    let once = w.clone();
    sort_run(&mut w, Metric::Max, false);
    assert_eq!(w, once);
}

#[test]
fn sorted_buffer_passes_through_engine_unchanged() {
    // an already-ascending buffer is a fixed point of a whole engine pass,
    // in either interval mode, as long as split mode is off
    let sorted = vec![px(1, 2, 3, 4), px(40, 40, 40, 0), px(90, 90, 90, 9), px(250, 250, 250, 0)];
    for interval in [
        pixel_sort::IntervalType::Random,
        pixel_sort::IntervalType::Threshold,
    ] {
        let o = pixel_sort::Opts {
            metric: Metric::Luma,
            interval,
            min: 0,
            max: 5,
            ..pixel_sort::Opts::default()
        };
        let mut v = sorted.clone();
        let mut rng = pixel_sort::RandomSource::from_seed(9);
        pixel_sort::sort_pixels(&o, &mut v, &mut rng);
        assert_eq!(v, sorted);
    }
}

#[test]
fn empty_and_single_runs_are_no_ops() {
    let mut e: Vec<Pixel> = Vec::new();
    sort_run(&mut e, Metric::Hue, false);
    assert!(e.is_empty());
    let mut s = vec![px(9, 9, 9, 9)];
    sort_run(&mut s, Metric::Hue, true);
    assert_eq!(s, vec![px(9, 9, 9, 9)]);
}
