use vstd::prelude::*;

mod circle;
mod engine;
mod metrics;
mod partition;
mod traversal;
mod random;
mod raster;
mod sorting;

pub use circle::{
    circle_radius_bound, circle_ring_path, fill_unwritten, isqrt_ceil, points_sorted, sort_circle,
    spec_fill_pixel, spec_max_corner_dist,
};
pub use engine::{
    calc_steps, coords_distinct, coords_in_bounds, filter_in_bounds, row_of, seq_has_coord,
    seqs_disjoint, sort_image, sort_pixels, sort_sequence, sort_sequences, spec_filter_in_bounds,
    values_at, NoProgress, Progress,
};
pub use metrics::{
    metric_value, pixel_blue, pixel_brightness, pixel_chroma, pixel_green, pixel_hue, pixel_luma,
    pixel_max, pixel_min, pixel_red, pixel_saturation, Metric,
};
pub use partition::{
    interval_none, interval_random, interval_threshold, interval_threshold_reverse,
    lemma_full_range_single_run, lemma_threshold_full_range, mask_fn, spec_gap_len, spec_interval_threshold, spec_mask,
    spec_matches, spec_random_clamp, spec_run_len, spec_run_start, IntervalType, Opts,
};
pub use random::RandomSource;
pub use traversal::{
    geom_ok, linear_sequences, sheared_row, spec_on_spiral_ring, spec_shear_row, spiral_ring,
    SortType,
};
pub use raster::{Pixel, Raster};
pub use sorting::{key_le, pixel_key, sort_run, sorted_by};

verus! {

} // verus!
