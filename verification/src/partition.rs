use vstd::prelude::*;

use crate::metrics::Metric;
use crate::random::RandomSource;
use crate::raster::Pixel;
use crate::sorting::{pixel_key, pixel_metric};

verus! {

/// How the partitioner picks run lengths: drawn from the random source,
/// or read off a per-pixel threshold predicate.
#[derive(Clone, Copy, PartialEq, Eq, Structural, Debug)]
pub enum IntervalType {
    Random,
    Threshold,
}

/// The per-invocation configuration: metric and interval selection, the
/// numeric range, and the invert / reverse / split / mask flags.
#[derive(Clone, Copy, Debug)]
pub struct Opts {
    pub metric: Metric,
    pub interval: IntervalType,
    pub mask_alpha: bool,
    pub invert: bool,
    pub reverse: bool,
    pub split: bool,
    pub min: usize,
    pub max: usize,
}

impl Default for Opts {
    /// Max metric, random intervals over the full byte range, every flag off.
    fn default() -> (o: Opts)
        ensures
            o.metric == Metric::Max,
            o.interval == IntervalType::Random,
            !o.mask_alpha && !o.invert && !o.reverse && !o.split,
            o.min == 0,
            o.max == 255,
    {
        Opts {
            metric: Metric::Max,
            interval: IntervalType::Random,
            mask_alpha: false,
            invert: false,
            reverse: false,
            split: false,
            min: 0,
            max: 255,
        }
    }
}

/// The alpha mask admits a pixel unless masking is on and its alpha is 0.
pub open spec fn spec_mask(o: Opts, p: Pixel) -> bool {
    !(o.mask_alpha && p.a == 0)
}

/// Whether one pixel belongs inside a threshold-mode run: its metric byte
/// falls in [min, max] (flipped by `invert`), and the alpha mask admits it.
pub open spec fn spec_matches(o: Opts, p: Pixel) -> bool {
    let l = pixel_key(o.metric, p) as int;
    ((o.min <= l && l <= o.max) != o.invert) && spec_mask(o, p)
}

/// Count of consecutive matching pixels from position i.
pub open spec fn spec_run_len(s: Seq<Pixel>, o: Opts, i: int) -> int
    decreases s.len() - i
{
    if i < 0 || i >= s.len() {
        0
    } else if !spec_matches(o, s[i]) {
        0
    } else {
        1 + spec_run_len(s, o, i + 1)
    }
}

/// Count of consecutive non-matching pixels from position i: the skip gap
/// that follows a threshold-mode run.
pub open spec fn spec_gap_len(s: Seq<Pixel>, o: Opts, i: int) -> int
    decreases s.len() - i
{
    if i < 0 || i >= s.len() {
        0
    } else if spec_matches(o, s[i]) {
        0
    } else {
        1 + spec_gap_len(s, o, i + 1)
    }
}

/// Under split mode a run is clipped to the sequence half and forced to at
/// least 1, so the engine always moves forward.
pub open spec fn spec_split_clamp(o: Opts, len: int, n: int) -> int {
    if o.split {
        let m = if n <= len / 2 {
            n
        } else {
            len / 2
        };
        if m < 1 {
            1
        } else {
            m
        }
    } else {
        n
    }
}

/// What the threshold partitioner owes: the matching prefix count from the
/// cursor, split-clamped.
pub open spec fn spec_interval_threshold(s: Seq<Pixel>, o: Opts, i: int) -> int {
    spec_split_clamp(o, s.len() as int, spec_run_len(s, o, i))
}

pub fn mask_fn(o: &Opts, p: &Pixel) -> (r: bool)
    ensures
        r == spec_mask(*o, *p),
{
    !(o.mask_alpha && p.a == 0)
}

fn matches_threshold(o: &Opts, p: &Pixel) -> (r: bool)
    ensures
        r == spec_matches(*o, *p),
{
    let l: usize = pixel_metric(o.metric, p) as usize;
    ((o.min <= l && l <= o.max) != o.invert) && mask_fn(o, p)
}

proof fn lemma_run_len_from(s: Seq<Pixel>, o: Opts, i: int, n: int)
    requires
        0 <= i,
        i + n <= s.len(),
        0 <= n,
        forall|k: int| i <= k < i + n ==> spec_matches(o, #[trigger] s[k]),
        i + n == s.len() || !spec_matches(o, s[i + n]),
    ensures
        spec_run_len(s, o, i) == n,
    decreases n,
{
    if n > 0 {
        lemma_run_len_from(s, o, i + 1, n - 1);
    }
}

proof fn lemma_gap_len_from(s: Seq<Pixel>, o: Opts, i: int, n: int)
    requires
        0 <= i,
        i + n <= s.len(),
        0 <= n,
        forall|k: int| i <= k < i + n ==> !spec_matches(o, #[trigger] s[k]),
        i + n == s.len() || spec_matches(o, s[i + n]),
    ensures
        spec_gap_len(s, o, i) == n,
    decreases n,
{
    if n > 0 {
        lemma_gap_len_from(s, o, i + 1, n - 1);
    }
}

/// Run and gap counts are never negative and never overshoot the end of
/// the sequence.
pub proof fn lemma_counts_bounded(s: Seq<Pixel>, o: Opts, i: int)
    requires
        0 <= i <= s.len(),
    ensures
        0 <= spec_run_len(s, o, i) <= s.len() - i,
        0 <= spec_gap_len(s, o, i) <= s.len() - i,
    decreases s.len() - i,
{
    if i < s.len() {
        lemma_counts_bounded(s, o, i + 1);
    }
}

/// The run count reads nothing before the cursor: two buffers that agree
/// from the cursor on yield the same count.
pub proof fn lemma_run_len_suffix(s1: Seq<Pixel>, s2: Seq<Pixel>, o: Opts, i: int)
    requires
        s1.len() == s2.len(),
        forall|k: int| i <= k < s1.len() ==> s1[k] == #[trigger] s2[k],
    ensures
        spec_run_len(s1, o, i) == spec_run_len(s2, o, i),
    decreases s1.len() - i,
{
    if 0 <= i && i < s1.len() {
        lemma_run_len_suffix(s1, s2, o, i + 1);
    }
}

/// Every pixel inside the counted run matches the predicate.
pub proof fn lemma_run_len_matches(s: Seq<Pixel>, o: Opts, i: int, j: int)
    requires
        0 <= i <= j,
        j < i + spec_run_len(s, o, i),
    ensures
        j < s.len(),
        spec_matches(o, s[j]),
    decreases j - i,
{
    if i < j {
        lemma_run_len_matches(s, o, i + 1, j);
    }
}

/// Position i starts a maximal threshold run: its pixel matches and it is
/// either the first position or follows a non-matching one.
pub open spec fn spec_run_start(s: Seq<Pixel>, o: Opts, i: int) -> bool {
    &&& 0 <= i < s.len()
    &&& spec_matches(o, s[i])
    &&& (i == 0 || !spec_matches(o, s[i - 1]))
}

/// The gap count reads nothing before the cursor either.
pub proof fn lemma_gap_len_suffix(s1: Seq<Pixel>, s2: Seq<Pixel>, o: Opts, i: int)
    requires
        s1.len() == s2.len(),
        forall|k: int| i <= k < s1.len() ==> s1[k] == #[trigger] s2[k],
    ensures
        spec_gap_len(s1, o, i) == spec_gap_len(s2, o, i),
    decreases s1.len() - i,
{
    if 0 <= i && i < s1.len() {
        lemma_gap_len_suffix(s1, s2, o, i + 1);
    }
}

/// No pixel inside the counted gap matches the predicate.
pub proof fn lemma_gap_len_no_match(s: Seq<Pixel>, o: Opts, i: int, j: int)
    requires
        0 <= i <= j,
        j < i + spec_gap_len(s, o, i),
    ensures
        j < s.len(),
        !spec_matches(o, s[j]),
    decreases j - i,
{
    if i < j {
        lemma_gap_len_no_match(s, o, i + 1, j);
    }
}

/// A counted run is maximal: the pixel right after it does not match.
pub proof fn lemma_run_end(s: Seq<Pixel>, o: Opts, i: int)
    requires
        0 <= i <= s.len(),
    ensures
        i + spec_run_len(s, o, i) < s.len() ==> !spec_matches(
            o,
            s[i + spec_run_len(s, o, i)],
        ),
    decreases s.len() - i,
{
    if i < s.len() && spec_matches(o, s[i]) {
        lemma_run_end(s, o, i + 1);
    }
}

/// Under the full byte range with no inversion and the mask admitting
/// every pixel, a non-empty buffer is one single maximal run covering all
/// of it — so the run-start guarantees of the engine apply to the whole
/// buffer at once.
pub proof fn lemma_full_range_single_run(s: Seq<Pixel>, o: Opts)
    requires
        s.len() > 0,
        o.min == 0,
        o.max >= 255,
        !o.invert,
        forall|k: int| 0 <= k < s.len() ==> spec_mask(o, #[trigger] s[k]),
    ensures
        spec_run_start(s, o, 0),
        spec_run_len(s, o, 0) == s.len(),
{
    lemma_threshold_full_range(s, o, 0);
    assert(pixel_key(o.metric, s[0]) as int <= 255);
}

/// What the random partitioner does with one draw d: clip it to the
/// remainder, or under split mode clamp it to the sequence half and force
/// it to at least 1.
pub open spec fn spec_random_clamp(o: Opts, len: int, ctr: int, d: int) -> int {
    if o.split {
        let m = if d <= len / 2 {
            d
        } else {
            len / 2
        };
        if m < 1 {
            1
        } else {
            m
        }
    } else {
        if d <= len - ctr {
            d
        } else {
            len - ctr
        }
    }
}

/// Random-mode run length: one draw from [min, max), clipped to the
/// remainder (or split-clamped under split mode). Under split, the clip is
/// to the half length itself, per the partitioning policy, not to the
/// distance left before the midpoint. Which draw came back cannot be
/// promised, only that the result is that of some in-range draw.
pub fn interval_random(o: &Opts, pixels: &Vec<Pixel>, ctr: usize, rng: &mut RandomSource) -> (n:
    usize)
    requires
        ctr <= pixels@.len(),
    ensures
        !o.split ==> n <= pixels@.len() - ctr,
        o.split ==> 1 <= n && (n == 1 || n <= pixels@.len() as int / 2),
        o.min < o.max ==> exists|d: int|
            o.min <= d < o.max && n == #[trigger] spec_random_clamp(
                *o,
                pixels@.len() as int,
                ctr as int,
                d,
            ),
{
    let len: usize = pixels.len();
    let r: usize = if o.min < o.max {
        rng.next_in(o.min, o.max)
    } else {
        o.min
    };
    proof {
        if o.min < o.max {
            assert(spec_random_clamp(*o, len as int, ctr as int, r as int)
                == spec_random_clamp(*o, pixels@.len() as int, ctr as int, r as int));
        }
    }
    if o.split {
        let m: usize = if r <= len / 2 {
            r
        } else {
            len / 2
        };
        if m < 1 {
            1
        } else {
            m
        }
    } else {
        if r <= len - ctr {
            r
        } else {
            len - ctr
        }
    }
}

/// Threshold-mode run length: exactly the count of consecutive pixels from
/// the cursor that the predicate admits, split-clamped.
pub fn interval_threshold(o: &Opts, pixels: &Vec<Pixel>, ctr: usize) -> (n: usize)
    requires
        ctr <= pixels@.len(),
    ensures
        n == spec_interval_threshold(pixels@, *o, ctr as int),
        !o.split ==> n <= pixels@.len() - ctr,
{
    let len: usize = pixels.len();
    let mut n: usize = 0;
    while ctr + n < len && matches_threshold(o, &pixels[ctr + n])
        invariant
            ctr + n <= len,
            len == pixels@.len(),
            forall|k: int| ctr <= k < ctr + n ==> spec_matches(*o, #[trigger] pixels@[k]),
        decreases len - ctr - n,
    {
        n += 1;
    }
    proof {
        lemma_run_len_from(pixels@, *o, ctr as int, n as int);
    }
    if o.split {
        let m: usize = if n <= len / 2 {
            n
        } else {
            len / 2
        };
        if m < 1 {
            1
        } else {
            m
        }
    } else {
        n
    }
}

/// Gap after a threshold run: exactly the count of consecutive pixels from
/// the cursor that the predicate rejects.
pub fn interval_threshold_reverse(o: &Opts, pixels: &Vec<Pixel>, ctr: usize) -> (n: usize)
    requires
        ctr <= pixels@.len(),
    ensures
        n == spec_gap_len(pixels@, *o, ctr as int),
        n <= pixels@.len() - ctr,
{
    let len: usize = pixels.len();
    let mut n: usize = 0;
    while ctr + n < len && !matches_threshold(o, &pixels[ctr + n])
        invariant
            ctr + n <= len,
            len == pixels@.len(),
            forall|k: int| ctr <= k < ctr + n ==> !spec_matches(*o, #[trigger] pixels@[k]),
        decreases len - ctr - n,
    {
        n += 1;
    }
    proof {
        lemma_gap_len_from(pixels@, *o, ctr as int, n as int);
    }
    n
}

/// Random mode has no skip gap.
pub fn interval_none(_o: &Opts, _pixels: &Vec<Pixel>, _ctr: usize) -> (n: usize)
    ensures
        n == 0,
{
    0
}

/// Threshold boundary law: with the whole byte range admitted, no
/// inversion, and the alpha mask admitting every pixel, every pixel
/// matches, so the partitioner owes the full remainder as one run and the
/// gap after that run is zero.
pub proof fn lemma_threshold_full_range(s: Seq<Pixel>, o: Opts, i: int)
    requires
        0 <= i <= s.len(),
        o.min == 0,
        o.max >= 255,
        !o.invert,
        forall|k: int| 0 <= k < s.len() ==> spec_mask(o, #[trigger] s[k]),
    ensures
        spec_run_len(s, o, i) == s.len() - i,
        spec_gap_len(s, o, i + spec_run_len(s, o, i)) == 0,
    decreases s.len() - i,
{
    if i < s.len() {
        assert(pixel_key(o.metric, s[i]) as int <= 255);
        lemma_threshold_full_range(s, o, i + 1);
    }
}

} // verus!
