use vstd::prelude::*;

use crate::partition::{
    interval_none, interval_random, interval_threshold, interval_threshold_reverse,
    lemma_run_len_matches, lemma_run_len_suffix, spec_gap_len, spec_matches, spec_run_len,
    spec_run_start, IntervalType, Opts,
};
use crate::random::RandomSource;
use crate::raster::{Pixel, Raster};
use crate::sorting::{sort_range, sorted_by};
use crate::traversal::{geom_ok, sheared_row, spec_on_spiral_ring, SortType};

verus! {

/// The progress hook the orchestrator hands the engine: the total is set
/// once per pass and `advance` is called once per sequence. The engine owns
/// no interface resource of its own.
pub trait Progress {
    fn set_total(&mut self, n: usize);

    fn advance(&mut self);
}

/// A progress hook that ignores every report.
pub struct NoProgress {}

impl Progress for NoProgress {
    fn set_total(&mut self, _n: usize) {
    }

    fn advance(&mut self) {
    }
}

/// Every coordinate of the sequence lies inside a w x h grid.
pub open spec fn coords_in_bounds(sq: Seq<(usize, usize)>, w: int, h: int) -> bool {
    forall|k: int| 0 <= k < sq.len() ==> (#[trigger] sq[k]).0 < w && sq[k].1 < h
}

/// No coordinate appears twice in the sequence.
pub open spec fn coords_distinct(sq: Seq<(usize, usize)>) -> bool {
    forall|k1: int, k2: int| 0 <= k1 < k2 < sq.len() ==> #[trigger] sq[k1] != #[trigger] sq[k2]
}

/// Whether the sequence addresses position (x, y).
pub open spec fn seq_has_coord(sq: Seq<(usize, usize)>, x: int, y: int) -> bool {
    exists|k: int| 0 <= k < sq.len() && (#[trigger] sq[k]).0 == x && sq[k].1 == y
}

/// The colors a row-major buffer of width w holds at the sequence's
/// coordinates, in sequence order.
pub open spec fn values_at(s: Seq<Pixel>, w: int, sq: Seq<(usize, usize)>) -> Seq<Pixel> {
    Seq::new(sq.len(), |k: int| s[sq[k].1 * w + sq[k].0])
}

/// Drive the cursor over one gathered pixel buffer: ask the partitioner
/// for each run, sort it in the configured direction, skip the gap, and
/// flip the direction once when split mode first crosses the midpoint.
/// Only the multiset of colors is rearranged. In threshold mode a pixel
/// the predicate excludes never sits inside a sorted run, so it keeps its
/// color, the random source is never consulted, and — without split mode —
/// every maximal matching segment ends up sorted in the configured
/// direction, holding exactly the colors it started with. A buffer that
/// already stands in the configured order is returned untouched (without
/// split mode, whose flip changes the direction mid-way).
pub fn sort_pixels(o: &Opts, pixels: &mut Vec<Pixel>, rng: &mut RandomSource)
    ensures
        final(pixels)@.len() == old(pixels)@.len(),
        final(pixels)@.to_multiset() == old(pixels)@.to_multiset(),
        !o.split && sorted_by(old(pixels)@, o.metric, o.reverse) ==> final(pixels)@ == old(
            pixels,
        )@,
        o.interval == IntervalType::Threshold ==> forall|k: int|
            0 <= k < old(pixels)@.len() && !spec_matches(*o, old(pixels)@[k])
                ==> final(pixels)@[k] == old(pixels)@[k],
        o.interval == IntervalType::Threshold ==> *final(rng) == *old(rng),
        o.interval == IntervalType::Threshold && !o.split ==> forall|i: int|
            #[trigger] spec_run_start(old(pixels)@, *o, i) ==> sorted_by(
                final(pixels)@.subrange(i, i + spec_run_len(old(pixels)@, *o, i)),
                o.metric,
                o.reverse,
            ) && final(pixels)@.subrange(
                i,
                i + spec_run_len(old(pixels)@, *o, i),
            ).to_multiset() == old(pixels)@.subrange(
                i,
                i + spec_run_len(old(pixels)@, *o, i),
            ).to_multiset(),
{
    let len: usize = pixels.len();
    let mut reverse: bool = o.reverse;
    let mut flipped: bool = false;
    let mut ctr: usize = 0;
    while ctr < len
        invariant
            ctr <= len,
            len == pixels@.len(),
            len == old(pixels)@.len(),
            pixels@.to_multiset() == old(pixels)@.to_multiset(),
            !o.split ==> reverse == o.reverse,
            !o.split && sorted_by(old(pixels)@, o.metric, o.reverse) ==> pixels@ == old(pixels)@,
            o.interval == IntervalType::Threshold ==> *rng == *old(rng),
            o.interval == IntervalType::Threshold ==> forall|k: int|
                ctr <= k < len ==> pixels@[k] == old(pixels)@[k],
            o.interval == IntervalType::Threshold ==> forall|k: int|
                0 <= k < len && !spec_matches(*o, old(pixels)@[k]) ==> pixels@[k] == old(
                    pixels,
                )@[k],
            o.interval == IntervalType::Threshold && !o.split ==> ctr == len || ctr == 0
                || !spec_matches(*o, old(pixels)@[ctr - 1]),
            o.interval == IntervalType::Threshold && !o.split ==> forall|i: int|
                #[trigger] spec_run_start(old(pixels)@, *o, i) && i < ctr ==> i + spec_run_len(
                    old(pixels)@,
                    *o,
                    i,
                ) <= ctr && sorted_by(
                    pixels@.subrange(i, i + spec_run_len(old(pixels)@, *o, i)),
                    o.metric,
                    o.reverse,
                ) && pixels@.subrange(i, i + spec_run_len(old(pixels)@, *o, i)).to_multiset()
                    == old(pixels)@.subrange(
                    i,
                    i + spec_run_len(old(pixels)@, *o, i),
                ).to_multiset(),
        decreases len - ctr,
    {
        let ghost old0 = old(pixels)@;
        let ghost ctr0 = ctr as int;
        let numel_raw: usize = match o.interval {
            IntervalType::Random => interval_random(o, pixels, ctr, rng),
            IntervalType::Threshold => interval_threshold(o, pixels, ctr),
        };
        let numel: usize = if numel_raw <= len - ctr {
            numel_raw
        } else {
            len - ctr
        };
        let ghost pre = pixels@;
        let ghost count = spec_run_len(old0, *o, ctr0);
        proof {
            if o.interval == IntervalType::Threshold {
                lemma_run_len_suffix(pre, old0, *o, ctr0);
                crate::partition::lemma_counts_bounded(old0, *o, ctr0);
            }
        }
        sort_range(pixels, ctr, numel, o.metric, reverse);
        proof {
            if !o.split && sorted_by(old0, o.metric, o.reverse) {
                assert(sorted_by(pre.subrange(ctr0, ctr0 + numel), o.metric, reverse)) by {
                    assert forall|a: int, b: int|
                        0 <= a < b < numel implies #[trigger] crate::sorting::key_le(
                        o.metric,
                        reverse,
                        pre.subrange(ctr0, ctr0 + numel)[a],
                        pre.subrange(ctr0, ctr0 + numel)[b],
                    ) by {
                        assert(crate::sorting::key_le(o.metric, reverse, old0[ctr0 + a], old0[ctr0 + b]));
                    }
                }
                assert(pixels@ == pre);
            }
            if o.interval == IntervalType::Threshold {
                if count == 0 {
                    assert(numel <= 1);
                    assert(sorted_by(pre.subrange(ctr0, ctr0 + numel), o.metric, reverse));
                    assert(pixels@ == pre);
                } else {
                    assert(numel <= count) by {
                        let half = pre.len() as int / 2;
                        if o.split {
                            if count <= half {
                                assert(numel_raw == if count < 1 {
                                    1int
                                } else {
                                    count
                                });
                            } else {
                                assert(numel_raw == if half < 1 {
                                    1int
                                } else {
                                    half
                                });
                            }
                        } else {
                            assert(numel_raw == count);
                        }
                    }
                    assert forall|k: int|
                        0 <= k < len && !spec_matches(*o, old0[k]) implies pixels@[k] == old0[k] by {
                        if ctr0 <= k < ctr0 + numel {
                            lemma_run_len_matches(old0, *o, ctr0, k);
                        }
                    }
                }
            }
        }
        ctr += numel;
        let gap: usize = match o.interval {
            IntervalType::Random => interval_none(o, pixels, ctr),
            IntervalType::Threshold => interval_threshold_reverse(o, pixels, ctr),
        };
        proof {
            if o.interval == IntervalType::Threshold {
                crate::partition::lemma_gap_len_suffix(pixels@, old0, *o, ctr0 + numel);
                assert(gap == spec_gap_len(old0, *o, ctr0 + numel));
            }
        }
        ctr += gap;
        if numel == 0 && gap == 0 {
            proof {
                if o.interval == IntervalType::Threshold && !o.split {
                    // a zero run means the cursor's pixel does not match,
                    // so the gap from it is at least one: this branch is
                    // unreachable in threshold mode
                    assert(numel == count);
                    crate::partition::lemma_counts_bounded(old0, *o, ctr0 + 1);
                    assert(!spec_matches(*o, old0[ctr0]));
                    crate::partition::lemma_counts_bounded(old0, *o, ctr0 + 1);
                    assert(spec_gap_len(old0, *o, ctr0) >= 1);
                    assert(false);
                }
            }
            // A zero-length run with no gap would stall the cursor; pass
            // one pixel over instead, which sorts nothing.
            ctr += 1;
        }
        proof {
            if o.interval == IntervalType::Threshold && !o.split {
                assert(numel == count);
                // the cursor lands at the end, or right after a pixel that
                // does not match
                assert(ctr == len || ctr == 0 || !spec_matches(*o, old0[ctr - 1])) by {
                    if gap >= 1 {
                        crate::partition::lemma_gap_len_no_match(
                            old0,
                            *o,
                            ctr0 + numel,
                            ctr0 + numel + gap - 1,
                        );
                    } else {
                        if count >= 1 && ctr0 + numel < len {
                            crate::partition::lemma_run_end(old0, *o, ctr0);
                            assert(!spec_matches(*o, old0[ctr0 + numel]));
                            assert(spec_gap_len(old0, *o, ctr0 + numel) >= 1) by {
                                crate::partition::lemma_counts_bounded(
                                    old0,
                                    *o,
                                    ctr0 + numel + 1,
                                );
                            }
                            assert(false);
                        }
                    }
                }
                // every maximal run that now lies behind the cursor is
                // sorted and holds its own colors
                assert forall|i: int|
                    #[trigger] spec_run_start(old0, *o, i) && i < ctr implies i + spec_run_len(
                    old0,
                    *o,
                    i,
                ) <= ctr && sorted_by(
                    pixels@.subrange(i, i + spec_run_len(old0, *o, i)),
                    o.metric,
                    o.reverse,
                ) && pixels@.subrange(i, i + spec_run_len(old0, *o, i)).to_multiset()
                    == old0.subrange(i, i + spec_run_len(old0, *o, i)).to_multiset() by {
                    let rl = spec_run_len(old0, *o, i);
                    crate::partition::lemma_counts_bounded(old0, *o, i);
                    if i < ctr0 {
                        assert(i + rl <= ctr0);
                        assert(pixels@.subrange(i, i + rl) =~= pre.subrange(i, i + rl));
                    } else if i == ctr0 {
                        assert(rl == count && numel == count);
                        assert(pre.subrange(ctr0, ctr0 + numel) =~= old0.subrange(
                            ctr0,
                            ctr0 + numel,
                        ));
                    } else if i < ctr0 + numel {
                        lemma_run_len_matches(old0, *o, ctr0, i - 1);
                        assert(false);
                    } else {
                        assert(i < ctr0 + numel + gap);
                        crate::partition::lemma_gap_len_no_match(old0, *o, ctr0 + numel, i);
                        assert(false);
                    }
                }
            }
        }
        if o.split && !flipped && ctr >= len / 2 {
            reverse = !reverse;
            flipped = true;
        }
    }
}

/// Sort the colors addressed by one coordinate sequence: gather them from
/// the pass-start snapshot, run the engine over the gathered buffer, and
/// write the result back to the run's original coordinates in the live
/// raster. Positions never move; unaddressed positions are untouched; and
/// when the sequence repeats no coordinate, the addressed positions end up
/// holding exactly the snapshot's multiset of colors for them.
pub fn sort_sequence(
    raster: &mut Raster,
    snapshot: &Vec<Pixel>,
    sq: &Vec<(usize, usize)>,
    o: &Opts,
    rng: &mut RandomSource,
)
    requires
        old(raster).wf(),
        snapshot@.len() == old(raster).px@.len(),
        coords_in_bounds(sq@, old(raster).width as int, old(raster).height as int),
    ensures
        final(raster).wf(),
        final(raster).width == old(raster).width,
        final(raster).height == old(raster).height,
        forall|x: int, y: int|
            old(raster).in_bounds(x, y) && !seq_has_coord(sq@, x, y) ==> final(raster).spec_at(
                x,
                y,
            ) == old(raster).spec_at(x, y),
        coords_distinct(sq@) ==> values_at(
            final(raster).px@,
            old(raster).width as int,
            sq@,
        ).to_multiset() == values_at(snapshot@, old(raster).width as int, sq@).to_multiset(),
        o.interval == IntervalType::Threshold && coords_distinct(sq@) ==> forall|k: int|
            0 <= k < sq@.len() && !spec_matches(
                *o,
                values_at(snapshot@, old(raster).width as int, sq@)[k],
            ) ==> final(raster).spec_at((#[trigger] sq@[k]).0 as int, sq@[k].1 as int) == values_at(
                snapshot@,
                old(raster).width as int,
                sq@,
            )[k],
        o.interval == IntervalType::Threshold && !o.split && coords_distinct(sq@) ==> forall|
            i: int,
        |
            #[trigger] spec_run_start(values_at(snapshot@, old(raster).width as int, sq@), *o, i)
                ==> sorted_by(
                values_at(final(raster).px@, old(raster).width as int, sq@).subrange(
                    i,
                    i + spec_run_len(values_at(snapshot@, old(raster).width as int, sq@), *o, i),
                ),
                o.metric,
                o.reverse,
            ) && values_at(final(raster).px@, old(raster).width as int, sq@).subrange(
                i,
                i + spec_run_len(values_at(snapshot@, old(raster).width as int, sq@), *o, i),
            ).to_multiset() == values_at(snapshot@, old(raster).width as int, sq@).subrange(
                i,
                i + spec_run_len(values_at(snapshot@, old(raster).width as int, sq@), *o, i),
            ).to_multiset(),
{
    let n: usize = sq.len();
    let w: usize = raster.width;
    let mut tmp: Vec<Pixel> = Vec::new();
    let mut k: usize = 0;
    while k < n
        invariant
            k <= n,
            n == sq@.len(),
            w == raster.width,
            raster.wf(),
            snapshot@.len() == raster.px@.len(),
            coords_in_bounds(sq@, w as int, raster.height as int),
            tmp@.len() == k,
            forall|i: int| 0 <= i < k ==> tmp@[i] == values_at(snapshot@, w as int, sq@)[i],
        decreases n - k,
    {
        let c: (usize, usize) = sq[k];
        let x: usize = c.0;
        let y: usize = c.1;
        proof {
            crate::raster::lemma_index_in_range(
                x as int,
                y as int,
                w as int,
                raster.height as int,
            );
            assert(raster.px.len() == raster.px@.len() && raster.px.len() <= usize::MAX);
        }
        tmp.push(snapshot[y * w + x]);
        k += 1;
    }
    proof {
        assert(tmp@ =~= values_at(snapshot@, w as int, sq@));
    }
    sort_pixels(o, &mut tmp, rng);
    let mut k: usize = 0;
    while k < n
        invariant
            k <= n,
            n == sq@.len(),
            w == old(raster).width,
            raster.wf(),
            raster.width == old(raster).width,
            raster.height == old(raster).height,
            raster.px@.len() == old(raster).px@.len(),
            coords_in_bounds(sq@, w as int, raster.height as int),
            tmp@.len() == n,
            forall|x: int, y: int|
                old(raster).in_bounds(x, y) && !seq_has_coord(sq@, x, y) ==> raster.spec_at(x, y)
                    == old(raster).spec_at(x, y),
            coords_distinct(sq@) ==> forall|i: int|
                0 <= i < k ==> raster.spec_at(sq@[i].0 as int, sq@[i].1 as int) == tmp@[i],
        decreases n - k,
    {
        let c: (usize, usize) = sq[k];
        proof {
            assert((#[trigger] sq@[k as int]).0 < w && sq@[k as int].1 < raster.height);
        }
        raster.put(c.0, c.1, tmp[k]);
        proof {
            assert forall|x: int, y: int|
                old(raster).in_bounds(x, y) && !seq_has_coord(sq@, x, y) implies raster.spec_at(
                x,
                y,
            ) == old(raster).spec_at(x, y) by {
                assert(!(x == c.0 && y == c.1)) by {
                    assert(sq@[k as int] == c);
                }
            }
            if coords_distinct(sq@) {
                assert forall|i: int| 0 <= i < k + 1 implies raster.spec_at(
                    sq@[i].0 as int,
                    sq@[i].1 as int,
                ) == tmp@[i] by {
                    if i < k {
                        assert(sq@[i] != sq@[k as int]);
                        assert(!(sq@[i].0 == c.0 && sq@[i].1 == c.1));
                    }
                }
            }
        }
        k += 1;
    }
    proof {
        if coords_distinct(sq@) {
            assert forall|i: int| 0 <= i < n implies values_at(raster.px@, w as int, sq@)[i]
                == tmp@[i] by {
                assert(raster.spec_at(sq@[i].0 as int, sq@[i].1 as int) == tmp@[i]);
            }
            assert(values_at(raster.px@, w as int, sq@) =~= tmp@);
            if o.interval == IntervalType::Threshold && !o.split {
                let vals = values_at(snapshot@, w as int, sq@);
                assert forall|i: int| #[trigger] spec_run_start(vals, *o, i) implies sorted_by(
                    values_at(raster.px@, w as int, sq@).subrange(
                        i,
                        i + spec_run_len(vals, *o, i),
                    ),
                    o.metric,
                    o.reverse,
                ) && values_at(raster.px@, w as int, sq@).subrange(
                    i,
                    i + spec_run_len(vals, *o, i),
                ).to_multiset() == vals.subrange(i, i + spec_run_len(vals, *o, i)).to_multiset() by {
                    assert(sorted_by(
                        tmp@.subrange(i, i + spec_run_len(vals, *o, i)),
                        o.metric,
                        o.reverse,
                    ));
                }
            }
        }
    }
}

/// The subsequence of coordinates that fall inside a w x h grid, in
/// their original order.
pub open spec fn spec_filter_in_bounds(s: Seq<(usize, usize)>, w: int, h: int) -> Seq<
    (usize, usize),
>
    decreases s.len(),
{
    if s.len() == 0 {
        Seq::empty()
    } else {
        let rest = spec_filter_in_bounds(s.drop_last(), w, h);
        if s.last().0 < w && s.last().1 < h {
            rest.push(s.last())
        } else {
            rest
        }
    }
}

proof fn lemma_filter_in_bounds_ok(s: Seq<(usize, usize)>, w: int, h: int)
    ensures
        coords_in_bounds(spec_filter_in_bounds(s, w, h), w, h),
    decreases s.len(),
{
    if s.len() > 0 {
        lemma_filter_in_bounds_ok(s.drop_last(), w, h);
    }
}

/// No position is addressed by two different sequences of the list.
pub open spec fn seqs_disjoint(seqs: Seq<Vec<(usize, usize)>>) -> bool {
    forall|i: int, j: int, x: int, y: int|
        0 <= i < j < seqs.len() ==> !(#[trigger] seq_has_coord(seqs[i]@, x, y)
            && #[trigger] seq_has_coord(seqs[j]@, x, y))
}

/// Every element of the filtered sequence is an element of the original.
proof fn lemma_filter_elem(s: Seq<(usize, usize)>, w: int, h: int, k: int)
    requires
        0 <= k < spec_filter_in_bounds(s, w, h).len(),
    ensures
        exists|j: int| 0 <= j < s.len() && s[j] == #[trigger] spec_filter_in_bounds(s, w, h)[k],
    decreases s.len(),
{
    let f = spec_filter_in_bounds(s, w, h);
    let rest = spec_filter_in_bounds(s.drop_last(), w, h);
    if s.last().0 < w && s.last().1 < h && k == f.len() - 1 {
        assert(s[s.len() - 1] == f[k]);
    } else {
        lemma_filter_elem(s.drop_last(), w, h, k);
        let j = choose|j: int| 0 <= j < s.drop_last().len() && s.drop_last()[j] == rest[k];
        assert(s[j] == rest[k]);
        assert(f[k] == rest[k]);
    }
}

/// Filtering a duplicate-free sequence leaves it duplicate-free.
proof fn lemma_filter_distinct(s: Seq<(usize, usize)>, w: int, h: int)
    requires
        coords_distinct(s),
    ensures
        coords_distinct(spec_filter_in_bounds(s, w, h)),
    decreases s.len(),
{
    if s.len() > 0 {
        let f = spec_filter_in_bounds(s, w, h);
        let rest = spec_filter_in_bounds(s.drop_last(), w, h);
        assert(coords_distinct(s.drop_last())) by {
            assert forall|k1: int, k2: int|
                0 <= k1 < k2 < s.drop_last().len() implies #[trigger] s.drop_last()[k1]
                != #[trigger] s.drop_last()[k2] by {
                assert(s[k1] != s[k2]);
            }
        }
        lemma_filter_distinct(s.drop_last(), w, h);
        if s.last().0 < w && s.last().1 < h {
            assert forall|k1: int, k2: int| 0 <= k1 < k2 < f.len() implies #[trigger] f[k1]
                != #[trigger] f[k2] by {
                if k2 == f.len() - 1 {
                    assert(f[k1] == rest[k1]);
                    lemma_filter_elem(s.drop_last(), w, h, k1);
                    let j = choose|j: int|
                        0 <= j < s.drop_last().len() && s.drop_last()[j] == rest[k1];
                    assert(s[j] == rest[k1]);
                    assert(s[j] != s[s.len() - 1]);
                } else {
                    assert(f[k1] == rest[k1] && f[k2] == rest[k2]);
                }
            }
        }
    }
}

/// Filtering a sequence addresses no position that the sequence itself
/// does not.
proof fn lemma_filter_membership(s: Seq<(usize, usize)>, w: int, h: int, x: int, y: int)
    requires
        seq_has_coord(spec_filter_in_bounds(s, w, h), x, y),
    ensures
        seq_has_coord(s, x, y),
    decreases s.len(),
{
    let f = spec_filter_in_bounds(s, w, h);
    let k = choose|k: int| 0 <= k < f.len() && (#[trigger] f[k]).0 == x && f[k].1 == y;
    let rest = spec_filter_in_bounds(s.drop_last(), w, h);
    if s.last().0 < w && s.last().1 < h && k == f.len() - 1 {
        assert(f[k] == s.last());
        assert(s[s.len() - 1] == s.last());
    } else {
        assert(f[k] == rest[k]);
        lemma_filter_membership(s.drop_last(), w, h, x, y);
        let j = choose|j: int|
            0 <= j < s.drop_last().len() && (#[trigger] s.drop_last()[j]).0 == x
                && s.drop_last()[j].1 == y;
        assert(s[j] == s.drop_last()[j]);
    }
}

/// Keep only the coordinates that fall inside a w x h grid; out-of-bounds
/// coordinates are silently dropped, never an error.
pub fn filter_in_bounds(sq: &Vec<(usize, usize)>, w: usize, h: usize) -> (r: Vec<(usize, usize)>)
    ensures
        r@ == spec_filter_in_bounds(sq@, w as int, h as int),
        coords_in_bounds(r@, w as int, h as int),
{
    let n: usize = sq.len();
    let mut r: Vec<(usize, usize)> = Vec::new();
    let mut k: usize = 0;
    proof {
        assert(sq@.take(0).len() == 0);
        assert(r@ =~= spec_filter_in_bounds(sq@.take(0), w as int, h as int));
    }
    while k < n
        invariant
            k <= n,
            n == sq@.len(),
            r@ == spec_filter_in_bounds(sq@.take(k as int), w as int, h as int),
        decreases n - k,
    {
        let c: (usize, usize) = sq[k];
        proof {
            sq@.lemma_take_succ_push(k as int);
            assert(sq@.take(k as int + 1).drop_last() =~= sq@.take(k as int));
            assert(sq@.take(k as int + 1).last() == c);
        }
        if c.0 < w && c.1 < h {
            r.push(c);
        }
        k += 1;
    }
    proof {
        assert(sq@.take(n as int) =~= sq@);
        lemma_filter_in_bounds_ok(sq@, w as int, h as int);
    }
    r
}

/// Apply the engine to a list of independent coordinate sequences, in
/// order, against one pass-start snapshot; each sequence's out-of-bounds
/// coordinates are dropped first. The progress hook is advanced once per
/// sequence. Positions no sequence addresses are untouched, and when the
/// sequences are pairwise disjoint and duplicate-free, each one's
/// in-bounds positions end up holding exactly the colors they started
/// with.
pub fn sort_sequences<P: Progress>(
    raster: &mut Raster,
    o: &Opts,
    seqs: &Vec<Vec<(usize, usize)>>,
    rng: &mut RandomSource,
    progress: &mut P,
)
    requires
        old(raster).wf(),
    ensures
        final(raster).wf(),
        final(raster).width == old(raster).width,
        final(raster).height == old(raster).height,
        forall|x: int, y: int|
            old(raster).in_bounds(x, y) && (forall|i: int|
                0 <= i < seqs@.len() ==> !seq_has_coord(#[trigger] seqs@[i]@, x, y))
                ==> final(raster).spec_at(x, y) == old(raster).spec_at(x, y),
        seqs_disjoint(seqs@) && (forall|i: int|
            0 <= i < seqs@.len() ==> coords_distinct(#[trigger] seqs@[i]@)) ==> forall|i: int|
            0 <= i < seqs@.len() ==> values_at(
                final(raster).px@,
                old(raster).width as int,
                #[trigger] spec_filter_in_bounds(
                    seqs@[i]@,
                    old(raster).width as int,
                    old(raster).height as int,
                ),
            ).to_multiset() == values_at(
                old(raster).px@,
                old(raster).width as int,
                spec_filter_in_bounds(
                    seqs@[i]@,
                    old(raster).width as int,
                    old(raster).height as int,
                ),
            ).to_multiset(),
{
    let w: usize = raster.width;
    let h: usize = raster.height;
    progress.set_total(seqs.len());
    let snap: Vec<Pixel> = raster.snapshot();
    let mut i: usize = 0;
    while i < seqs.len()
        invariant
            i <= seqs@.len(),
            raster.wf(),
            w == old(raster).width,
            h == old(raster).height,
            raster.width == w,
            raster.height == h,
            snap@ == old(raster).px@,
            snap@.len() == raster.px@.len(),
            forall|x: int, y: int|
                old(raster).in_bounds(x, y) && (forall|j: int|
                    0 <= j < seqs@.len() ==> !seq_has_coord(#[trigger] seqs@[j]@, x, y))
                    ==> raster.spec_at(x, y) == old(raster).spec_at(x, y),
            seqs_disjoint(seqs@) && (forall|j: int|
                0 <= j < seqs@.len() ==> coords_distinct(#[trigger] seqs@[j]@)) ==> forall|j: int|
                0 <= j < i ==> values_at(
                    raster.px@,
                    w as int,
                    #[trigger] spec_filter_in_bounds(seqs@[j]@, w as int, h as int),
                ).to_multiset() == values_at(
                    snap@,
                    w as int,
                    spec_filter_in_bounds(seqs@[j]@, w as int, h as int),
                ).to_multiset(),
        decreases seqs@.len() - i,
    {
        let filtered: Vec<(usize, usize)> = filter_in_bounds(&seqs[i], w, h);
        let ghost pre = *raster;
        proof {
            if seqs_disjoint(seqs@) && (forall|j: int|
                0 <= j < seqs@.len() ==> coords_distinct(#[trigger] seqs@[j]@)) {
                lemma_filter_distinct(seqs@[i as int]@, w as int, h as int);
            }
        }
        sort_sequence(raster, &snap, &filtered, o, rng);
        proof {
            assert forall|x: int, y: int|
                old(raster).in_bounds(x, y) && (forall|j: int|
                    0 <= j < seqs@.len() ==> !seq_has_coord(#[trigger] seqs@[j]@, x, y))
                implies raster.spec_at(x, y) == old(raster).spec_at(x, y) by {
                assert(!seq_has_coord(seqs@[i as int]@, x, y));
                if seq_has_coord(filtered@, x, y) {
                    lemma_filter_membership(seqs@[i as int]@, w as int, h as int, x, y);
                }
                assert(raster.spec_at(x, y) == pre.spec_at(x, y));
            }
            if seqs_disjoint(seqs@) && (forall|j: int|
                0 <= j < seqs@.len() ==> coords_distinct(#[trigger] seqs@[j]@)) {
                assert forall|j: int| 0 <= j < i + 1 implies values_at(
                    raster.px@,
                    w as int,
                    #[trigger] spec_filter_in_bounds(seqs@[j]@, w as int, h as int),
                ).to_multiset() == values_at(
                    snap@,
                    w as int,
                    spec_filter_in_bounds(seqs@[j]@, w as int, h as int),
                ).to_multiset() by {
                    let fj = spec_filter_in_bounds(seqs@[j]@, w as int, h as int);
                    lemma_filter_in_bounds_ok(seqs@[j]@, w as int, h as int);
                    if j < i {
                        assert forall|k: int| 0 <= k < fj.len() implies values_at(
                            raster.px@,
                            w as int,
                            fj,
                        )[k] == values_at(pre.px@, w as int, fj)[k] by {
                            let cx = (#[trigger] fj[k]).0 as int;
                            let cy = fj[k].1 as int;
                            assert(seq_has_coord(fj, cx, cy));
                            lemma_filter_membership(seqs@[j]@, w as int, h as int, cx, cy);
                            if seq_has_coord(filtered@, cx, cy) {
                                lemma_filter_membership(seqs@[i as int]@, w as int, h as int, cx, cy);
                                assert(false);
                            }
                            assert(raster.spec_at(cx, cy) == pre.spec_at(cx, cy));
                            crate::raster::lemma_index_in_range(cx, cy, w as int, h as int);
                        }
                        assert(values_at(raster.px@, w as int, fj) =~= values_at(
                            pre.px@,
                            w as int,
                            fj,
                        ));
                    } else {
                        assert(filtered@ == fj);
                        assert(coords_distinct(filtered@));
                    }
                }
            }
        }
        progress.advance();
        i += 1;
    }
}

/// The colors of row y of a row-major buffer of width w.
pub open spec fn row_of(s: Seq<Pixel>, w: int, y: int) -> Seq<Pixel> {
    s.subrange(y * w, y * w + w)
}

fn build_row(w: usize, y: usize) -> (row: Vec<(usize, usize)>)
    ensures
        row@.len() == w,
        forall|i: int| 0 <= i < w ==> (#[trigger] row@[i]).0 == i && row@[i].1 == y,
        coords_distinct(row@),
{
    let mut row: Vec<(usize, usize)> = Vec::new();
    let mut x: usize = 0;
    while x < w
        invariant
            x <= w,
            row@.len() == x,
            forall|i: int| 0 <= i < x ==> (#[trigger] row@[i]).0 == i && row@[i].1 == y,
        decreases w - x,
    {
        row.push((x, y));
        x += 1;
    }
    row
}

/// One linear pass with no shear: sort each row left to right, against the
/// pass-start snapshot. Every row ends up holding exactly the multiset of
/// colors it started with.
fn sort_linear<P: Progress>(
    raster: &mut Raster,
    o: &Opts,
    rng: &mut RandomSource,
    progress: &mut P,
)
    requires
        old(raster).wf(),
    ensures
        final(raster).wf(),
        final(raster).width == old(raster).width,
        final(raster).height == old(raster).height,
        forall|y: int|
            0 <= y < old(raster).height ==> (#[trigger] row_of(
                final(raster).px@,
                old(raster).width as int,
                y,
            )).to_multiset() == row_of(old(raster).px@, old(raster).width as int, y).to_multiset(),
        o.interval == IntervalType::Threshold && !o.split ==> forall|y: int, i: int|
            0 <= y < old(raster).height && #[trigger] spec_run_start(
                row_of(old(raster).px@, old(raster).width as int, y),
                *o,
                i,
            ) ==> sorted_by(
                row_of(final(raster).px@, old(raster).width as int, y).subrange(
                    i,
                    i + spec_run_len(row_of(old(raster).px@, old(raster).width as int, y), *o, i),
                ),
                o.metric,
                o.reverse,
            ),
{
    let w: usize = raster.width;
    let h: usize = raster.height;
    progress.set_total(h);
    let snap: Vec<Pixel> = raster.snapshot();
    let mut y: usize = 0;
    while y < h
        invariant
            y <= h,
            w == old(raster).width,
            h == old(raster).height,
            raster.wf(),
            raster.width == w,
            raster.height == h,
            snap@ == old(raster).px@,
            snap@.len() == raster.px@.len(),
            forall|r: int|
                0 <= r < y ==> (#[trigger] row_of(raster.px@, w as int, r)).to_multiset()
                    == row_of(snap@, w as int, r).to_multiset(),
            forall|r: int|
                y <= r < h ==> #[trigger] row_of(raster.px@, w as int, r) == row_of(
                    snap@,
                    w as int,
                    r,
                ),
            o.interval == IntervalType::Threshold && !o.split ==> forall|r: int, i: int|
                0 <= r < y && #[trigger] spec_run_start(row_of(snap@, w as int, r), *o, i)
                    ==> sorted_by(
                    row_of(raster.px@, w as int, r).subrange(
                        i,
                        i + spec_run_len(row_of(snap@, w as int, r), *o, i),
                    ),
                    o.metric,
                    o.reverse,
                ),
        decreases h - y,
    {
        let row: Vec<(usize, usize)> = build_row(w, y);
        let ghost pre = *raster;
        proof {
            assert forall|k: int| 0 <= k < row@.len() implies (#[trigger] row@[k]).0 < w
                && row@[k].1 < h by {}
        }
        sort_sequence(raster, &snap, &row, o, rng);
        proof {
            lemma_row_values(raster.px@, w as int, h as int, y as int, row@);
            lemma_row_values(snap@, w as int, h as int, y as int, row@);
            assert(row_of(raster.px@, w as int, y as int).to_multiset() == row_of(
                snap@,
                w as int,
                y as int,
            ).to_multiset());
            assert forall|r: int|
                0 <= r < h && r != y implies row_of(raster.px@, w as int, r) =~= row_of(
                pre.px@,
                w as int,
                r,
            ) by {
                let a = row_of(raster.px@, w as int, r);
                let b = row_of(pre.px@, w as int, r);
                if w > 0 {
                    crate::raster::lemma_index_in_range(0, r, w as int, h as int);
                    crate::raster::lemma_index_in_range(w - 1, r, w as int, h as int);
                } else {
                    assert(r * (w as int) == 0) by (nonlinear_arith)
                        requires
                            w == 0,
                    ;
                }
                assert(raster.px@.len() == w * h && pre.px@.len() == w * h);
                assert(0 <= r * w && r * w + w <= w * h);
                assert(a.len() == w && b.len() == w);
                assert forall|i: int| 0 <= i < w implies a[i] == b[i] by {
                    assert(!seq_has_coord(row@, i, r));
                    assert(raster.spec_at(i, r) == pre.spec_at(i, r));
                    crate::raster::lemma_index_in_range(i, r, w as int, h as int);
                    assert(a[i] == raster.px@[r * w + i]);
                    assert(b[i] == pre.px@[r * w + i]);
                }
                assert(a =~= b);
            }
            assert forall|r: int| 0 <= r < y + 1 implies (#[trigger] row_of(
                raster.px@,
                w as int,
                r,
            )).to_multiset() == row_of(snap@, w as int, r).to_multiset() by {
                if r < y {
                    assert(row_of(raster.px@, w as int, r) =~= row_of(pre.px@, w as int, r));
                    assert((row_of(pre.px@, w as int, r)).to_multiset() == row_of(
                        snap@,
                        w as int,
                        r,
                    ).to_multiset());
                }
            }
            assert forall|r: int| y + 1 <= r < h implies #[trigger] row_of(
                raster.px@,
                w as int,
                r,
            ) == row_of(snap@, w as int, r) by {
                assert(row_of(raster.px@, w as int, r) =~= row_of(pre.px@, w as int, r));
                assert(row_of(pre.px@, w as int, r) == row_of(snap@, w as int, r));
            }
            if o.interval == IntervalType::Threshold && !o.split {
                assert forall|r: int, i: int|
                    0 <= r < y + 1 && #[trigger] spec_run_start(
                        row_of(snap@, w as int, r),
                        *o,
                        i,
                    ) implies sorted_by(
                    row_of(raster.px@, w as int, r).subrange(
                        i,
                        i + spec_run_len(row_of(snap@, w as int, r), *o, i),
                    ),
                    o.metric,
                    o.reverse,
                ) by {
                    if r < y {
                        assert(row_of(raster.px@, w as int, r) =~= row_of(pre.px@, w as int, r));
                        assert(sorted_by(
                            row_of(pre.px@, w as int, r).subrange(
                                i,
                                i + spec_run_len(row_of(snap@, w as int, r), *o, i),
                            ),
                            o.metric,
                            o.reverse,
                        ));
                    } else {
                        assert(values_at(snap@, w as int, row@) == row_of(snap@, w as int, r));
                        assert(spec_run_start(values_at(snap@, w as int, row@), *o, i));
                        assert(sorted_by(
                            values_at(raster.px@, w as int, row@).subrange(
                                i,
                                i + spec_run_len(values_at(snap@, w as int, row@), *o, i),
                            ),
                            o.metric,
                            o.reverse,
                        ));
                        assert(values_at(raster.px@, w as int, row@) == row_of(
                            raster.px@,
                            w as int,
                            r,
                        ));
                    }
                }
            }
        }
        progress.advance();
        y += 1;
    }
    proof {
        if o.interval == IntervalType::Threshold && !o.split {
            assert forall|y: int, i: int|
                0 <= y < h && #[trigger] spec_run_start(
                    row_of(old(raster).px@, w as int, y),
                    *o,
                    i,
                ) implies sorted_by(
                row_of(raster.px@, w as int, y).subrange(
                    i,
                    i + spec_run_len(row_of(old(raster).px@, w as int, y), *o, i),
                ),
                o.metric,
                o.reverse,
            ) by {
                assert(row_of(old(raster).px@, w as int, y) == row_of(snap@, w as int, y));
                assert(spec_run_start(row_of(snap@, w as int, y), *o, i));
            }
        }
    }
}

/// The colors a row path addresses are exactly the row's slice of the
/// buffer.
proof fn lemma_row_values(s: Seq<Pixel>, w: int, h: int, y: int, row: Seq<(usize, usize)>)
    requires
        s.len() == w * h,
        0 <= y < h,
        row.len() == w,
        forall|i: int| 0 <= i < w ==> (#[trigger] row[i]).0 == i && row[i].1 == y,
    ensures
        values_at(s, w, row) == row_of(s, w, y),
{
    if w > 0 {
        crate::raster::lemma_index_in_range(0, y, w, h);
        crate::raster::lemma_index_in_range(w - 1, y, w, h);
    }
    assert forall|i: int| 0 <= i < w implies values_at(s, w, row)[i] == row_of(s, w, y)[i] by {
        crate::raster::lemma_index_in_range(i, y, w, h);
        assert(row[i].0 == i && row[i].1 == y);
        assert(values_at(s, w, row)[i] == s[y * w + i]);
        assert(row_of(s, w, y)[i] == s[y * w + i]);
    }
    assert(values_at(s, w, row) =~= row_of(s, w, y));
}

/// One full pass over the raster for the configured geometry: generate
/// its traversal sequences and sort each against the pass-start snapshot.
/// The raster keeps its dimensions; only pixel colors move.
pub fn sort_image<P: Progress>(
    raster: &mut Raster,
    o: &Opts,
    geom: &SortType,
    rng: &mut RandomSource,
    progress: &mut P,
)
    requires
        old(raster).wf(),
        geom_ok(*geom),
    ensures
        final(raster).wf(),
        final(raster).width == old(raster).width,
        final(raster).height == old(raster).height,
        geom is Linear ==> forall|y: int|
            0 <= y < old(raster).height ==> (#[trigger] row_of(
                final(raster).px@,
                old(raster).width as int,
                y,
            )).to_multiset() == row_of(old(raster).px@, old(raster).width as int, y).to_multiset(),
        geom is Spiral ==> forall|x: int, y: int|
            old(raster).in_bounds(x, y) && (forall|i: int|
                0 <= i < old(raster).height as int / 2 ==> !spec_on_spiral_ring(
                    old(raster).width as int,
                    old(raster).height as int,
                    i,
                    x,
                    y,
                )) ==> final(raster).spec_at(x, y) == old(raster).spec_at(x, y),
        geom is Linear && o.interval == IntervalType::Threshold && !o.split ==> forall|
            y: int,
            i: int,
        |
            0 <= y < old(raster).height && #[trigger] spec_run_start(
                row_of(old(raster).px@, old(raster).width as int, y),
                *o,
                i,
            ) ==> sorted_by(
                row_of(final(raster).px@, old(raster).width as int, y).subrange(
                    i,
                    i + spec_run_len(row_of(old(raster).px@, old(raster).width as int, y), *o, i),
                ),
                o.metric,
                o.reverse,
            ),
{
    match geom {
        SortType::Linear => {
            sort_linear(raster, o, rng, progress);
        },
        SortType::Spiral => {
            let w: usize = raster.width;
            let h: usize = raster.height;
            let h2: usize = h / 2;
            progress.set_total(h2);
            let snap: Vec<Pixel> = raster.snapshot();
            let mut i: usize = 0;
            while i < h2
                invariant
                    i <= h2,
                    h2 == h / 2,
                    w == old(raster).width,
                    h == old(raster).height,
                    raster.wf(),
                    raster.width == w,
                    raster.height == h,
                    snap@.len() == raster.px@.len(),
                    forall|x: int, y: int|
                        old(raster).in_bounds(x, y) && (forall|r: int|
                            0 <= r < h2 ==> !spec_on_spiral_ring(w as int, h as int, r, x, y))
                            ==> raster.spec_at(x, y) == old(raster).spec_at(x, y),
                decreases h2 - i,
            {
                let ring: Vec<(usize, usize)> = crate::traversal::spiral_ring(w, h, i);
                proof {
                    assert forall|k: int| 0 <= k < ring@.len() implies spec_on_spiral_ring(
                        w as int,
                        h as int,
                        i as int,
                        (#[trigger] ring@[k]).0 as int,
                        ring@[k].1 as int,
                    ) by {
                        let tl = crate::traversal::spec_ring_horiz(w as int, i as int);
                        let rl = crate::traversal::spec_ring_vert(h as int, i as int);
                        if k < tl {
                        } else if k < tl + rl {
                            assert(ring@[tl + (k - tl)].0 == w - i - 1);
                        } else if k < tl + rl + tl {
                            assert(ring@[tl + rl + (k - tl - rl)].0 == w - i - 2 - (k - tl - rl));
                        } else {
                            assert(ring@[tl + rl + tl + (k - tl - rl - tl)].0 == i);
                        }
                    }
                }
                let ghost pre = *raster;
                sort_sequence(raster, &snap, &ring, o, rng);
                proof {
                    assert forall|x: int, y: int|
                        old(raster).in_bounds(x, y) && (forall|r: int|
                            0 <= r < h2 ==> !spec_on_spiral_ring(w as int, h as int, r, x, y))
                        implies raster.spec_at(x, y) == old(raster).spec_at(x, y) by {
                        assert(!spec_on_spiral_ring(w as int, h as int, i as int, x, y));
                        if seq_has_coord(ring@, x, y) {
                            let k = choose|k: int|
                                0 <= k < ring@.len() && (#[trigger] ring@[k]).0 == x
                                    && ring@[k].1 == y;
                            assert(spec_on_spiral_ring(
                                w as int,
                                h as int,
                                i as int,
                                ring@[k].0 as int,
                                ring@[k].1 as int,
                            ));
                            assert(false);
                        }
                        assert(raster.spec_at(x, y) == pre.spec_at(x, y));
                    }
                }
                progress.advance();
                i += 1;
            }
        },
        SortType::Sheared { shear, extra } => {
            let w: usize = raster.width;
            let h: usize = raster.height;
            let ex: i64 = *extra;
            let start: i64 = if ex > 0 {
                -ex
            } else {
                0
            };
            let end: i64 = if ex > 0 {
                h as i64
            } else {
                h as i64 - ex
            };
            let count: i64 = end - start;
            let total: usize = if count < 0xFFFF_FFFF {
                count as usize
            } else {
                0xFFFF_FFFF
            };
            progress.set_total(total);
            let snap: Vec<Pixel> = raster.snapshot();
            let mut y: i64 = start;
            while y < end
                invariant
                    start <= y,
                    y <= end || y == start,
                    -0x100_0000_0000 <= start,
                    end <= 0x200_0000_0000,
                    w == old(raster).width,
                    h == old(raster).height,
                    h < 0x1_0000_0000,
                    raster.wf(),
                    raster.width == w,
                    raster.height == h,
                    snap@.len() == raster.px@.len(),
                    forall|i: int|
                        0 <= i < shear@.len() ==> -0x100_0000_0000 <= #[trigger] shear@[i]
                            <= 0x100_0000_0000,
                decreases end - y,
            {
                let row: Vec<(usize, usize)> = sheared_row(shear, h, y);
                let filtered: Vec<(usize, usize)> = filter_in_bounds(&row, w, h);
                sort_sequence(raster, &snap, &filtered, o, rng);
                progress.advance();
                y = y + 1;
            }
        },
        SortType::Circle { cx, cy, sx, sy } => {
            crate::circle::sort_circle(raster, o, *cx, *cy, *sx, *sy, rng, progress);
        },
    }
}

/// How many top-level steps one orchestrated run reports: three always
/// (read, sort, save), two more when the image is rotated for a vertical
/// pass, two more when an internal working scale is set, and one more
/// when only a final resize is requested.
pub fn calc_steps(vertical: bool, internal_scale: bool, resize: bool) -> (steps: u64)
    ensures
        steps == 3 + (if vertical {
            2int
        } else {
            0int
        }) + (if internal_scale {
            2int
        } else if resize {
            1int
        } else {
            0int
        }),
{
    let mut steps: u64 = 3;
    if vertical {
        steps += 2;
    }
    if internal_scale {
        steps += 2;
    }
    if !internal_scale && resize {
        steps += 1;
    }
    steps
}

} // verus!
