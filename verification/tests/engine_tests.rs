use pixel_sort::{
    calc_steps, circle_radius_bound, circle_ring_path, filter_in_bounds, pixel_luma, sort_image,
    sort_pixels, IntervalType, Metric, NoProgress, Opts, Pixel, RandomSource, Raster, SortType,
};

fn grey(v: u8) -> Pixel {
    Pixel { r: v, g: v, b: v, a: 255 }
}

fn threshold_opts(metric: Metric) -> Opts {
    Opts {
        metric,
        interval: IntervalType::Threshold,
        mask_alpha: false,
        invert: false,
        reverse: false,
        split: false,
        min: 0,
        max: 255,
    }
}

fn raster_bytes(r: &Raster) -> Vec<[u8; 4]> {
    r.px.iter().map(|p| [p.r, p.g, p.b, p.a]).collect()
}

#[test]
fn linear_threshold_sorts_each_row_by_luma() {
    // a 4x4 raster of distinct luma values, scrambled per row
    let vals = [
        [64u8, 8, 32, 16],
        [120, 96, 72, 80],
        [248, 200, 216, 232],
        [168, 136, 152, 184],
    ];
    let mut px: Vec<Pixel> = Vec::new();
    for row in vals {
        for v in row {
            px.push(grey(v));
        }
    }
    let mut raster = Raster::from_vec(4, 4, px);
    let o = threshold_opts(Metric::Luma);
    let mut rng = RandomSource::from_seed(0);
    sort_image(&mut raster, &o, &SortType::Linear, &mut rng, &mut NoProgress {});
    for y in 0..4 {
        let keys: Vec<u8> = (0..4)
            .map(|x| {
                let p = raster.get(x, y);
                pixel_luma(&[p.r, p.g, p.b, p.a])
            })
            .collect();
        assert!(keys.windows(2).all(|w| w[0] <= w[1]), "row {} not ascending: {:?}", y, keys);
    }
}

#[test]
fn one_by_one_raster_is_unchanged_by_every_geometry() {
    let start = Pixel { r: 13, g: 57, b: 91, a: 201 };
    let geometries = [
        SortType::Linear,
        SortType::Spiral,
        SortType::Sheared { shear: vec![0], extra: 0 },
        SortType::Circle { cx: 0, cy: 0, sx: 0, sy: -65536 },
    ];
    for geom in geometries {
        for interval in [IntervalType::Random, IntervalType::Threshold] {
            let mut o = threshold_opts(Metric::Max);
            o.interval = interval;
            let mut raster = Raster::from_vec(1, 1, vec![start]);
            let mut rng = RandomSource::from_seed(7);
            sort_image(&mut raster, &o, &geom, &mut rng, &mut NoProgress {});
            assert_eq!(raster.get(0, 0), start);
        }
    }
}

#[test]
fn fixed_seed_gives_byte_identical_passes() {
    let mut px: Vec<Pixel> = Vec::new();
    for i in 0..64u32 {
        px.push(Pixel { r: (i * 37 % 256) as u8, g: (i * 11 % 256) as u8, b: (i * 3) as u8, a: 255 });
    }
    let o = Opts { metric: Metric::Brightness, min: 1, max: 9, ..Opts::default() };
    let mut first = Raster::from_vec(8, 8, px.clone());
    let mut rng1 = RandomSource::from_seed(123);
    sort_image(&mut first, &o, &SortType::Linear, &mut rng1, &mut NoProgress {});
    let mut second = Raster::from_vec(8, 8, px);
    let mut rng2 = RandomSource::from_seed(123);
    sort_image(&mut second, &o, &SortType::Linear, &mut rng2, &mut NoProgress {});
    assert_eq!(raster_bytes(&first), raster_bytes(&second));
}

#[test]
fn whole_pass_preserves_color_multiset_on_rows() {
    let mut px: Vec<Pixel> = Vec::new();
    for i in 0..48u32 {
        px.push(Pixel { r: (i * 29 % 251) as u8, g: (255 - i) as u8, b: (i * i % 256) as u8, a: 255 });
    }
    let mut raster = Raster::from_vec(8, 6, px.clone());
    let o = threshold_opts(Metric::Hue);
    let mut rng = RandomSource::from_seed(0);
    sort_image(&mut raster, &o, &SortType::Linear, &mut rng, &mut NoProgress {});
    let mut before: Vec<[u8; 4]> = px.iter().map(|p| [p.r, p.g, p.b, p.a]).collect();
    let mut after = raster_bytes(&raster);
    before.sort();
    after.sort();
    assert_eq!(before, after);
}

#[test]
fn split_flips_direction_after_the_midpoint() {
    // one candidate run of length 10 under split mode: clamped to 5, then
    // the direction flips for everything after the midpoint
    let mut v: Vec<Pixel> = vec![
        grey(9), grey(3), grey(7), grey(1), grey(5),
        grey(8), grey(2), grey(6), grey(0), grey(4),
    ];
    let mut o = threshold_opts(Metric::Max);
    o.split = true;
    let mut rng = RandomSource::from_seed(0);
    sort_pixels(&o, &mut v, &mut rng);
    let keys: Vec<u8> = v.iter().map(|p| p.r).collect();
    assert_eq!(keys[..5], [1, 3, 5, 7, 9]);
    assert_eq!(keys[5..], [8, 6, 4, 2, 0]);
}

#[test]
fn circle_covers_every_pixel_by_ring_or_fill() {
    let (w, h) = (8usize, 8usize);
    let (cx, cy) = (4u32, 4u32);
    let n = circle_radius_bound(w, h, cx, cy);
    let mut written = vec![false; w * h];
    for r in 0..n {
        for (x, y) in circle_ring_path(w, h, cx, cy, r, 0, -65536) {
            written[y * w + x] = true;
        }
    }
    // build a raster whose never-written cells hold a sentinel green value
    // that no ring-written cell and no fill average can reproduce
    let mut px: Vec<Pixel> = Vec::new();
    for i in 0..(w * h) {
        if written[i] {
            px.push(Pixel { r: i as u8, g: 200, b: 0, a: 255 });
        } else {
            px.push(Pixel { r: i as u8, g: 77, b: 0, a: 255 });
        }
    }
    let mut raster = Raster::from_vec(w, h, px);
    let o = threshold_opts(Metric::Red);
    let mut rng = RandomSource::from_seed(0);
    let geom = SortType::Circle { cx, cy, sx: 0, sy: -65536 };
    sort_image(&mut raster, &o, &geom, &mut rng, &mut NoProgress {});
    for y in 0..h {
        for x in 0..w {
            let p = raster.get(x, y);
            if written[y * w + x] {
                // written by a radius pass: colors permute among ring cells
                assert_eq!(p.g, 200, "({}, {}) should carry a ring color", x, y);
            } else {
                // filled from written neighbors (all green 200) or, with no
                // written neighbor, transparent black; never the sentinel
                assert_ne!(p.g, 77, "({}, {}) still holds its pre-pass value", x, y);
            }
        }
    }
}

#[test]
fn filter_drops_out_of_bounds_coordinates() {
    let sq = vec![(0usize, 0usize), (5, 1), (1, 5), (2, 2), (4, 4)];
    let kept = filter_in_bounds(&sq, 5, 5);
    assert_eq!(kept, vec![(0, 0), (2, 2), (4, 4)]);
}

#[test]
fn calc_steps_counts_orchestration_stages() {
    assert_eq!(calc_steps(false, false, false), 3);
    assert_eq!(calc_steps(true, false, false), 5);
    assert_eq!(calc_steps(false, true, false), 5);
    assert_eq!(calc_steps(false, false, true), 4);
    assert_eq!(calc_steps(true, true, true), 7);
    assert_eq!(calc_steps(true, false, true), 6);
}

#[test]
fn threshold_excluded_pixels_keep_value_and_place() {
    // Max metric equals the grey value; the window [10, 20] excludes 99 and 3
    let vals = [15u8, 12, 99, 18, 11, 3, 20, 10];
    let px: Vec<Pixel> = vals.iter().map(|&v| grey(v)).collect();
    let mut raster = Raster::from_vec(8, 1, px);
    let mut o = threshold_opts(Metric::Max);
    o.min = 10;
    o.max = 20;
    let mut rng = RandomSource::from_seed(0);
    sort_image(&mut raster, &o, &SortType::Linear, &mut rng, &mut NoProgress {});
    let out: Vec<u8> = (0..8).map(|x| raster.get(x, 0).r).collect();
    // each run of in-window values sorts in place; excluded values never move
    assert_eq!(out, vec![12, 15, 99, 11, 18, 3, 10, 20]);
}

#[test]
fn radius_zero_ring_is_exactly_the_center() {
    assert_eq!(circle_ring_path(8, 8, 4, 4, 0, 0, -65536), vec![(4, 4)]);
    assert_eq!(circle_ring_path(8, 8, 0, 0, 0, 0, -65536), vec![(0, 0)]);
    // a center outside the raster yields an empty radius-0 path
    assert_eq!(
        circle_ring_path(8, 8, 20, 3, 0, 0, -65536),
        Vec::<(usize, usize)>::new()
    );
}
