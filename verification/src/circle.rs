use vstd::prelude::*;

use crate::engine::{coords_distinct, coords_in_bounds, sort_sequence, Progress};
use crate::partition::Opts;
use crate::random::RandomSource;
use crate::raster::{lemma_index_in_range, Pixel, Raster};
use crate::sorting::lemma_swap_multiset;

verus! {

use vstd::pervasive::VecAdditionalExecFns;

/// The smallest r with r * r >= v: the ceiling of the square root.
pub fn isqrt_ceil(v: u128) -> (r: u64)
    requires
        v <= 0x4_0000_0000_0000_0000,
    ensures
        (r as int) * (r as int) >= v,
        r > 0 ==> ((r - 1) as int) * ((r - 1) as int) < v,
        r <= 0x2_0000_0000,
{
    let mut lo: u64 = 0;
    let mut hi: u64 = 0x2_0000_0000;
    proof {
        assert((hi as int) * (hi as int) >= v) by (nonlinear_arith)
            requires
                hi == 0x2_0000_0000,
                v <= 0x4_0000_0000_0000_0000,
        ;
    }
    while lo < hi
        invariant
            lo <= hi,
            hi <= 0x2_0000_0000,
            (hi as int) * (hi as int) >= v,
            lo > 0 ==> ((lo - 1) as int) * ((lo - 1) as int) < v,
        decreases hi - lo,
    {
        let mid: u64 = lo + (hi - lo) / 2;
        proof {
            assert((mid as int) * (mid as int) <= 0x4_0000_0000_0000_0000) by (nonlinear_arith)
                requires
                    0 <= mid <= 0x2_0000_0000,
            ;
        }
        let sq: u128 = (mid as u128) * (mid as u128);
        if sq >= v {
            hi = mid;
        } else {
            lo = mid + 1;
        }
    }
    lo
}

/// The squared distance between two grid points.
pub open spec fn spec_sq_dist(x: int, y: int, cx: int, cy: int) -> int {
    (x - cx) * (x - cx) + (y - cy) * (y - cy)
}

fn corner_sq_dist(x: u32, y: u32, cx: u32, cy: u32) -> (d: u128)
    ensures
        d == spec_sq_dist(x as int, y as int, cx as int, cy as int),
        d <= 0x2_0000_0000_0000_0000,
{
    let dx: i64 = x as i64 - cx as i64;
    let dy: i64 = y as i64 - cy as i64;
    let ax: u64 = if dx >= 0 {
        dx as u64
    } else {
        (-dx) as u64
    };
    let ay: u64 = if dy >= 0 {
        dy as u64
    } else {
        (-dy) as u64
    };
    proof {
        assert((ax as int) * (ax as int) == (dx as int) * (dx as int)) by (nonlinear_arith)
            requires
                ax == if dx >= 0 {
                    dx as int
                } else {
                    -(dx as int)
                },
        ;
        assert((ay as int) * (ay as int) == (dy as int) * (dy as int)) by (nonlinear_arith)
            requires
                ay == if dy >= 0 {
                    dy as int
                } else {
                    -(dy as int)
                },
        ;
        assert((ax as u128) * (ax as u128) <= 0x1_0000_0000_0000_0000 && (ay as u128) * (ay
            as u128) <= 0x1_0000_0000_0000_0000) by (nonlinear_arith)
            requires
                ax < 0x1_0000_0000,
                ay < 0x1_0000_0000,
        ;
    }
    (ax as u128) * (ax as u128) + (ay as u128) * (ay as u128)
}

/// The greatest of the four squared corner distances from the center.
pub open spec fn spec_max_corner_dist(w: int, h: int, cx: int, cy: int) -> int {
    let d1 = spec_sq_dist(0, 0, cx, cy);
    let d2 = spec_sq_dist(0, h, cx, cy);
    let d3 = spec_sq_dist(w, 0, cx, cy);
    let d4 = spec_sq_dist(w, h, cx, cy);
    let m12 = if d2 > d1 {
        d2
    } else {
        d1
    };
    let m123 = if d3 > m12 {
        d3
    } else {
        m12
    };
    if d4 > m123 {
        d4
    } else {
        m123
    }
}

/// The number of radius passes a circle-mode pass makes: exactly the
/// ceiling of the greatest distance from the center to the raster's four
/// corners.
pub fn circle_radius_bound(w: usize, h: usize, cx: u32, cy: u32) -> (n: u64)
    requires
        w < 0x1_0000_0000,
        h < 0x1_0000_0000,
    ensures
        n <= 0x2_0000_0000,
        (n as int) * (n as int) >= spec_max_corner_dist(w as int, h as int, cx as int, cy as int),
        n > 0 ==> ((n - 1) as int) * ((n - 1) as int) < spec_max_corner_dist(
            w as int,
            h as int,
            cx as int,
            cy as int,
        ),
        (n as int) * (n as int) >= spec_sq_dist(0, 0, cx as int, cy as int),
        (n as int) * (n as int) >= spec_sq_dist(0, h as int, cx as int, cy as int),
        (n as int) * (n as int) >= spec_sq_dist(w as int, 0, cx as int, cy as int),
        (n as int) * (n as int) >= spec_sq_dist(w as int, h as int, cx as int, cy as int),
{
    let d1: u128 = corner_sq_dist(0, 0, cx, cy);
    let d2: u128 = corner_sq_dist(0, h as u32, cx, cy);
    let d3: u128 = corner_sq_dist(w as u32, 0, cx, cy);
    let d4: u128 = corner_sq_dist(w as u32, h as u32, cx, cy);
    let mut m: u128 = d1;
    if d2 > m {
        m = d2;
    }
    if d3 > m {
        m = d3;
    }
    if d4 > m {
        m = d4;
    }
    proof {
        assert(m == spec_max_corner_dist(w as int, h as int, cx as int, cy as int));
    }
    isqrt_ceil(m)
}

/// A monotone integer stand-in for the angle of (dx, dy) around the
/// origin: each quadrant contributes a fixed-point ratio of the
/// coordinates, so ordering by it orders points by angular position.
pub open spec fn spec_diamond(dx: int, dy: int) -> int {
    let ax = if dx >= 0 {
        dx
    } else {
        -dx
    };
    let ay = if dy >= 0 {
        dy
    } else {
        -dy
    };
    if ax + ay == 0 {
        0
    } else if dx >= 0 && dy >= 0 {
        (dy * 65536) / (ax + ay)
    } else if dx < 0 && dy >= 0 {
        65536 + (ax * 65536) / (ax + ay)
    } else if dx < 0 && dy < 0 {
        131072 + (ay * 65536) / (ax + ay)
    } else {
        196608 + (dx * 65536) / (ax + ay)
    }
}

pub proof fn lemma_diamond_range(dx: int, dy: int)
    ensures
        0 <= spec_diamond(dx, dy) < 262144,
{
    let ax = if dx >= 0 {
        dx
    } else {
        -dx
    };
    let ay = if dy >= 0 {
        dy
    } else {
        -dy
    };
    if ax + ay == 0 {
    } else {
        assert(ax >= 0 && ay >= 0 && ax + ay > 0);
        assert forall|n: int| 0 <= n < ax + ay implies 0 <= #[trigger] ((n * 65536) / (ax + ay)) < 65536 by {
            assert(n * 65536 >= 0) by (nonlinear_arith)
                requires
                    n >= 0,
            ;
            assert(n * 65536 <= (ax + ay) * 65536 - 65536) by (nonlinear_arith)
                requires
                    n <= ax + ay - 1,
            ;
            assert((n * 65536) / (ax + ay) < 65536) by (nonlinear_arith)
                requires
                    ax + ay > 0,
                    n * 65536 <= (ax + ay) * 65536 - 65536,
            ;
        }
        assert forall|n: int| 0 <= n <= ax + ay implies 0 <= #[trigger] ((n * 65536) / (ax + ay)) <= 65536 by {
            assert(n * 65536 >= 0) by (nonlinear_arith)
                requires
                    n >= 0,
            ;
            assert(n * 65536 <= (ax + ay) * 65536) by (nonlinear_arith)
                requires
                    n <= ax + ay,
            ;
            assert((n * 65536) / (ax + ay) <= 65536) by (nonlinear_arith)
                requires
                    ax + ay > 0,
                    n * 65536 <= (ax + ay) * 65536,
            ;
        }
        if dx >= 0 && dy >= 0 {
            assert(0 <= dy <= ax + ay);
        } else if dx < 0 && dy >= 0 {
            assert(0 <= ax <= ax + ay);
        } else if dx < 0 && dy < 0 {
            assert(0 <= ay <= ax + ay);
        } else {
            assert(0 <= dx < ax + ay);
        }
    }
}

fn diamond(dx: i64, dy: i64) -> (k: u64)
    requires
        -0x4_0000_0000 <= dx <= 0x4_0000_0000,
        -0x4_0000_0000 <= dy <= 0x4_0000_0000,
    ensures
        k == spec_diamond(dx as int, dy as int),
{
    let ax: u64 = if dx >= 0 {
        dx as u64
    } else {
        (-dx) as u64
    };
    let ay: u64 = if dy >= 0 {
        dy as u64
    } else {
        (-dy) as u64
    };
    if ax + ay == 0 {
        0
    } else if dx >= 0 && dy >= 0 {
        (ay * 65536) / (ax + ay)
    } else if dx < 0 && dy >= 0 {
        65536 + (ax * 65536) / (ax + ay)
    } else if dx < 0 && dy < 0 {
        131072 + (ay * 65536) / (ax + ay)
    } else {
        196608 + (ax * 65536) / (ax + ay)
    }
}

/// The composite ordering key of one ring point: its angular position
/// measured from the start direction, then its coordinates, so that equal
/// keys mean equal points.
#[verifier::opaque]
pub open spec fn spec_circle_key(cx: int, cy: int, sx: int, sy: int, x: int, y: int) -> int {
    let d = spec_diamond(x - cx, y - cy);
    let s = spec_diamond(sx, sy);
    let rel = if d >= s {
        d - s
    } else {
        d - s + 262144
    };
    rel * 0x1_0000_0000_0000_0000 + x * 0x1_0000_0000 + y
}

fn circle_key(cx: u32, cy: u32, sx: i64, sy: i64, x: usize, y: usize) -> (k: u128)
    requires
        x < 0x1_0000_0000,
        y < 0x1_0000_0000,
        -0x1_0000_0000 <= sx <= 0x1_0000_0000,
        -0x1_0000_0000 <= sy <= 0x1_0000_0000,
    ensures
        k == spec_circle_key(cx as int, cy as int, sx as int, sy as int, x as int, y as int),
{
    proof {
        reveal(spec_circle_key);
    }
    let dx: i64 = x as i64 - cx as i64;
    let dy: i64 = y as i64 - cy as i64;
    let d: u64 = diamond(dx, dy);
    let s: u64 = diamond(sx, sy);
    proof {
        lemma_diamond_range(dx as int, dy as int);
        lemma_diamond_range(sx as int, sy as int);
    }
    let rel: u64 = if d >= s {
        d - s
    } else {
        d + 262144 - s
    };
    (rel as u128) * 0x1_0000_0000_0000_0000 + (x as u128) * 0x1_0000_0000 + (y as u128)
}

proof fn lemma_base_digits(a1: int, b1: int, a2: int, b2: int, base: int)
    by (nonlinear_arith)
    requires
        base > 0,
        0 <= b1 < base,
        0 <= b2 < base,
        a1 * base + b1 == a2 * base + b2,
    ensures
        a1 == a2,
        b1 == b2,
{
}

/// Two in-range points with the same key are the same point.
pub proof fn lemma_key_injective(
    cx: int,
    cy: int,
    sx: int,
    sy: int,
    x1: int,
    y1: int,
    x2: int,
    y2: int,
)
    requires
        0 <= x1 < 0x1_0000_0000,
        0 <= y1 < 0x1_0000_0000,
        0 <= x2 < 0x1_0000_0000,
        0 <= y2 < 0x1_0000_0000,
        spec_circle_key(cx, cy, sx, sy, x1, y1) == spec_circle_key(cx, cy, sx, sy, x2, y2),
    ensures
        x1 == x2,
        y1 == y2,
{
    reveal(spec_circle_key);
    lemma_diamond_range(x1 - cx, y1 - cy);
    lemma_diamond_range(x2 - cx, y2 - cy);
    lemma_diamond_range(sx, sy);
    let d1 = spec_diamond(x1 - cx, y1 - cy);
    let d2 = spec_diamond(x2 - cx, y2 - cy);
    let s = spec_diamond(sx, sy);
    let rel1 = if d1 >= s {
        d1 - s
    } else {
        d1 - s + 262144
    };
    let rel2 = if d2 >= s {
        d2 - s
    } else {
        d2 - s + 262144
    };
    let a1 = rel1 * 0x1_0000_0000 + x1;
    let a2 = rel2 * 0x1_0000_0000 + x2;
    assert(a1 * 0x1_0000_0000 + y1 == a2 * 0x1_0000_0000 + y2) by (nonlinear_arith)
        requires
            rel1 * 0x1_0000_0000_0000_0000 + x1 * 0x1_0000_0000 + y1 == rel2
                * 0x1_0000_0000_0000_0000 + x2 * 0x1_0000_0000 + y2,
            a1 == rel1 * 0x1_0000_0000 + x1,
            a2 == rel2 * 0x1_0000_0000 + x2,
    ;
    lemma_base_digits(a1, y1, a2, y2, 0x1_0000_0000);
    lemma_base_digits(rel1, x1, rel2, x2, 0x1_0000_0000);
}

/// Push (px, py) when it lies inside the w x h grid; out-of-bounds points
/// are silently dropped.
fn push_point(pts: &mut Vec<(usize, usize)>, w: usize, h: usize, px: i64, py: i64)
    requires
        w < 0x1_0000_0000,
        h < 0x1_0000_0000,
        coords_in_bounds(old(pts)@, w as int, h as int),
    ensures
        coords_in_bounds(final(pts)@, w as int, h as int),
        0 <= px < w && 0 <= py < h ==> final(pts)@ == old(pts)@.push(
            (px as usize, py as usize),
        ),
        !(0 <= px < w && 0 <= py < h) ==> final(pts)@ == old(pts)@,
{
    if 0 <= px && px < w as i64 && 0 <= py && py < h as i64 {
        pts.push((px as usize, py as usize));
        proof {
            assert forall|k: int| 0 <= k < pts@.len() implies (#[trigger] pts@[k]).0 < w
                && pts@[k].1 < h by {
                if k < pts@.len() - 1 {
                    assert(old(pts)@[k] == pts@[k]);
                }
            }
        }
    }
}

/// The up-to-eight symmetric points of one midpoint-circle step, filtered
/// to the grid: four axis points when x is 0, four diagonal points when x
/// meets y, the full eight otherwise, and none once x passes y.
fn emit_octant(pts: &mut Vec<(usize, usize)>, w: usize, h: usize, cx: i64, cy: i64, x: i64, y: i64)
    requires
        w < 0x1_0000_0000,
        h < 0x1_0000_0000,
        0 <= cx < 0x1_0000_0000,
        0 <= cy < 0x1_0000_0000,
        0 <= x <= 0x4_0000_0000,
        0 <= y <= 0x4_0000_0000,
        coords_in_bounds(old(pts)@, w as int, h as int),
    ensures
        coords_in_bounds(final(pts)@, w as int, h as int),
        x == 0 && y == 0 && 0 <= cx < w && 0 <= cy < h ==> final(pts)@.len() == old(pts)@.len()
            + 4 && (forall|k: int|
            old(pts)@.len() <= k < final(pts)@.len() ==> #[trigger] final(pts)@[k] == (
            cx as usize,
            cy as usize,
        )) && (forall|k: int|
            0 <= k < old(pts)@.len() ==> #[trigger] final(pts)@[k] == old(pts)@[k]),
        x == 0 && y == 0 && !(0 <= cx < w && 0 <= cy < h) ==> final(pts)@ == old(pts)@,
{
    if x == 0 {
        push_point(pts, w, h, cx, cy + y);
        push_point(pts, w, h, cx, cy - y);
        push_point(pts, w, h, cx + y, cy);
        push_point(pts, w, h, cx - y, cy);
    } else if x == y {
        push_point(pts, w, h, cx + x, cy + y);
        push_point(pts, w, h, cx - x, cy + y);
        push_point(pts, w, h, cx + x, cy - y);
        push_point(pts, w, h, cx - x, cy - y);
    } else if x < y {
        push_point(pts, w, h, cx + x, cy + y);
        push_point(pts, w, h, cx - x, cy + y);
        push_point(pts, w, h, cx + x, cy - y);
        push_point(pts, w, h, cx - x, cy - y);
        push_point(pts, w, h, cx + y, cy + x);
        push_point(pts, w, h, cx - y, cy + x);
        push_point(pts, w, h, cx + y, cy - x);
        push_point(pts, w, h, cx - y, cy - x);
    }
}

/// The grid points of the integer midpoint circle of radius r around
/// (cx, cy), in generation order, possibly with repeats.
fn midpoint_points(w: usize, h: usize, cx: u32, cy: u32, r: u64) -> (pts: Vec<(usize, usize)>)
    requires
        w < 0x1_0000_0000,
        h < 0x1_0000_0000,
        r <= 0x2_0000_0000,
    ensures
        coords_in_bounds(pts@, w as int, h as int),
        r == 0 && (cx as int) < w && (cy as int) < h ==> pts@.len() == 4 && (forall|k: int|
            0 <= k < pts@.len() ==> #[trigger] pts@[k] == (cx as usize, cy as usize)),
        r == 0 && !((cx as int) < w && (cy as int) < h) ==> pts@.len() == 0,
{
    let mut pts: Vec<(usize, usize)> = Vec::new();
    let cxi: i64 = cx as i64;
    let cyi: i64 = cy as i64;
    let ri: i64 = r as i64;
    let mut x: i64 = 0;
    let mut y: i64 = ri;
    let mut p: i128 = if r <= 1 {
        1 - ri as i128
    } else {
        2 - ri as i128
    };
    emit_octant(&mut pts, w, h, cxi, cyi, x, y);
    while x < y
        invariant
            w < 0x1_0000_0000,
            h < 0x1_0000_0000,
            0 <= cxi < 0x1_0000_0000,
            0 <= cyi < 0x1_0000_0000,
            ri == r as i64,
            0 <= ri <= 0x2_0000_0000,
            0 <= x,
            x <= y + 1,
            y <= ri,
            -((x + 1) * (2 * ri + 3)) <= p <= (x + 1) * (2 * ri + 3),
            coords_in_bounds(pts@, w as int, h as int),
            r == 0 && (cx as int) < w && (cy as int) < h ==> pts@.len() == 4 && (forall|k: int|
                0 <= k < pts@.len() ==> #[trigger] pts@[k] == (cx as usize, cy as usize)),
            r == 0 && !((cx as int) < w && (cy as int) < h) ==> pts@.len() == 0,
        decreases y + 1 - x,
    {
        proof {
            if r == 0 {
                assert(false);
            }
        }
        let ghost x0 = x as int;
        let ghost y0 = y as int;
        let ghost p0 = p as int;
        proof {
            assert(-0x10_0000_0000_0000_0000 <= p <= 0x10_0000_0000_0000_0000) by (nonlinear_arith)
                requires
                    0 <= x <= 0x2_0000_0001,
                    0 <= ri <= 0x2_0000_0000,
                    -((x + 1) * (2 * ri + 3)) <= p <= (x + 1) * (2 * ri + 3),
            ;
        }
        x += 1;
        if p < 0 {
            p = p + 2 * (x as i128) + 1;
            proof {
                assert(-(((x0 + 2) * (2 * ri + 3))) <= p0 + 2 * (x0 + 1) + 1 <= (x0 + 2) * (2 * ri
                    + 3)) by (nonlinear_arith)
                    requires
                        0 <= x0,
                        x0 + 1 <= ri,
                        0 <= ri,
                        p0 < 0,
                        -((x0 + 1) * (2 * ri + 3)) <= p0,
                ;
            }
        } else {
            y = y - 1;
            p = p + 2 * ((x - y) as i128) + 1;
            proof {
                assert(-(((x0 + 2) * (2 * ri + 3))) <= p0 + 2 * ((x0 + 1) - (y0 - 1)) + 1 <= (x0
                    + 2) * (2 * ri + 3)) by (nonlinear_arith)
                    requires
                        0 <= x0,
                        x0 < y0,
                        y0 <= ri,
                        0 <= p0,
                        p0 <= (x0 + 1) * (2 * ri + 3),
                ;
            }
        }
        emit_octant(&mut pts, w, h, cxi, cyi, x, y);
    }
    pts
}

/// Point `a` stands at or before `b` in angular order around (cx, cy),
/// measured clockwise from the start direction (sx, sy).
pub open spec fn point_le(
    cx: int,
    cy: int,
    sx: int,
    sy: int,
    a: (usize, usize),
    b: (usize, usize),
) -> bool {
    spec_circle_key(cx, cy, sx, sy, a.0 as int, a.1 as int) <= spec_circle_key(
        cx,
        cy,
        sx,
        sy,
        b.0 as int,
        b.1 as int,
    )
}

fn point_out_of_order(cx: u32, cy: u32, sx: i64, sy: i64, a: &(usize, usize), b: &(usize, usize)) -> (r:
    bool)
    requires
        a.0 < 0x1_0000_0000,
        a.1 < 0x1_0000_0000,
        b.0 < 0x1_0000_0000,
        b.1 < 0x1_0000_0000,
        -0x1_0000_0000 <= sx <= 0x1_0000_0000,
        -0x1_0000_0000 <= sy <= 0x1_0000_0000,
    ensures
        r == !point_le(cx as int, cy as int, sx as int, sy as int, *a, *b),
{
    let ka: u128 = circle_key(cx, cy, sx, sy, a.0, a.1);
    let kb: u128 = circle_key(cx, cy, sx, sy, b.0, b.1);
    ka > kb
}

/// Every point stands at or after any earlier point in angular order.
pub open spec fn points_sorted(
    s: Seq<(usize, usize)>,
    cx: int,
    cy: int,
    sx: int,
    sy: int,
) -> bool {
    forall|i: int, j: int|
        0 <= i < j < s.len() ==> #[trigger] point_le(cx, cy, sx, sy, s[i], s[j])
}

/// Order one ring's points by angular position around the center,
/// clockwise from the start direction.
fn sort_points(
    v: &mut Vec<(usize, usize)>,
    cx: u32,
    cy: u32,
    sx: i64,
    sy: i64,
    Ghost(w): Ghost<int>,
    Ghost(h): Ghost<int>,
)
    requires
        w <= 0x1_0000_0000,
        h <= 0x1_0000_0000,
        coords_in_bounds(old(v)@, w, h),
        -0x1_0000_0000 <= sx <= 0x1_0000_0000,
        -0x1_0000_0000 <= sy <= 0x1_0000_0000,
    ensures
        final(v)@.len() == old(v)@.len(),
        final(v)@.to_multiset() == old(v)@.to_multiset(),
        coords_in_bounds(final(v)@, w, h),
        points_sorted(final(v)@, cx as int, cy as int, sx as int, sy as int),
{
    let ghost orig = v@;
    let ghost cxi = cx as int;
    let ghost cyi = cy as int;
    let ghost sxi = sx as int;
    let ghost syi = sy as int;
    let n: usize = v.len();
    if n < 2 {
        return ;
    }
    let mut i: usize = 1;
    while i < n
        invariant
            1 <= i <= n,
            n == v@.len(),
            cxi == cx as int,
            cyi == cy as int,
            sxi == sx as int,
            syi == sy as int,

            v@.to_multiset() == orig.to_multiset(),
            coords_in_bounds(v@, w, h),
            w <= 0x1_0000_0000,
            h <= 0x1_0000_0000,
            -0x1_0000_0000 <= sx <= 0x1_0000_0000,
            -0x1_0000_0000 <= sy <= 0x1_0000_0000,
            forall|a: int, b: int| 0 <= a < b < i ==> #[trigger] point_le(cxi, cyi, sxi, syi, v@[a], v@[b]),
        decreases n - i,
    {
        let mut j: usize = i;
        while j > 0 && point_out_of_order(cx, cy, sx, sy, &v[j - 1], &v[j])
            invariant
                0 <= j <= i < n,
                n == v@.len(),
                cxi == cx as int,
                cyi == cy as int,
                sxi == sx as int,
                syi == sy as int,

                v@.to_multiset() == orig.to_multiset(),
                coords_in_bounds(v@, w, h),
                w <= 0x1_0000_0000,
                h <= 0x1_0000_0000,
                -0x1_0000_0000 <= sx <= 0x1_0000_0000,
                -0x1_0000_0000 <= sy <= 0x1_0000_0000,
                forall|a: int, b: int|
                    0 <= a < b <= i && b != j ==> #[trigger] point_le(cxi, cyi, sxi, syi, v@[a], v@[b]),
                forall|b: int| j < b <= i ==> #[trigger] point_le(cxi, cyi, sxi, syi, v@[j as int], v@[b]),
            decreases j,
        {
            let ghost pre = v@;
            let lo: (usize, usize) = v[j - 1];
            let hi: (usize, usize) = v[j];
            v.set(j - 1, hi);
            v.set(j, lo);
            proof {
                assert(v@ =~= pre.update(j - 1, pre[j as int]).update(j as int, pre[j - 1]));
                lemma_swap_multiset(pre, j - 1, j as int);
            }
            j -= 1;
        }
        proof {
            assert forall|a: int, b: int| 0 <= a < b <= i implies #[trigger] point_le(
                cxi,
                cyi,
                sxi,
                syi,
                v@[a],
                v@[b],
            ) by {
                if b == j {
                    assert(j > 0);
                    assert(point_le(cxi, cyi, sxi, syi, v@[j - 1], v@[j as int]));
                    if a < j - 1 {
                        assert(point_le(cxi, cyi, sxi, syi, v@[a], v@[j - 1]));
                    }
                }
            }
        }
        i += 1;
    }
}

/// Drop repeated points from an angularly ordered ring; what remains is a
/// duplicate-free path around the center.
fn dedup_points(
    v: &Vec<(usize, usize)>,
    cx: u32,
    cy: u32,
    sx: i64,
    sy: i64,
    Ghost(w): Ghost<int>,
    Ghost(h): Ghost<int>,
) -> (r: Vec<(usize, usize)>)
    requires
        w <= 0x1_0000_0000,
        h <= 0x1_0000_0000,
        coords_in_bounds(v@, w, h),
        points_sorted(v@, cx as int, cy as int, sx as int, sy as int),
    ensures
        coords_in_bounds(r@, w, h),
        coords_distinct(r@),
        points_sorted(r@, cx as int, cy as int, sx as int, sy as int),
        forall|m: int|
            0 <= m < r@.len() ==> exists|j: int| 0 <= j < v@.len() && #[trigger] r@[m] == v@[j],
        v@.len() > 0 ==> r@.len() > 0,
{
    let ghost cxi = cx as int;
    let ghost cyi = cy as int;
    let ghost sxi = sx as int;
    let ghost syi = sy as int;
    let n: usize = v.len();
    let mut r: Vec<(usize, usize)> = Vec::new();
    let mut k: usize = 0;
    let ghost mut last_src: int = 0;
    while k < n
        invariant
            k <= n,
            n == v@.len(),
            cxi == cx as int,
            cyi == cy as int,
            sxi == sx as int,
            syi == sy as int,
            coords_in_bounds(v@, w, h),
            points_sorted(v@, cxi, cyi, sxi, syi),
            coords_in_bounds(r@, w, h),
            points_sorted(r@, cxi, cyi, sxi, syi),
            forall|i: int| 0 <= i < r@.len() - 1 ==> #[trigger] r@[i] != r@[i + 1],
            r@.len() > 0 ==> 0 <= last_src < k && r@.last() == v@[last_src],
            forall|m: int|
                0 <= m < r@.len() ==> exists|j: int| 0 <= j < v@.len() && #[trigger] r@[m]
                    == v@[j],
            k > 0 ==> r@.len() > 0,
        decreases n - k,
    {
        let c: (usize, usize) = v[k];
        let mut push_it: bool = true;
        if r.len() > 0 {
            let t: (usize, usize) = r[r.len() - 1];
            if t.0 == c.0 && t.1 == c.1 {
                push_it = false;
            }
        }
        if push_it {
            proof {
                if r@.len() > 0 && last_src < k as int {
                    assert(point_le(cxi, cyi, sxi, syi, v@[last_src], v@[k as int]));
                }
            }
            let ghost old_r = r@;
            r.push(c);
            proof {
                last_src = k as int;
                assert forall|a: int, b: int| 0 <= a < b < r@.len() implies #[trigger] point_le(
                    cxi,
                    cyi,
                    sxi,
                    syi,
                    r@[a],
                    r@[b],
                ) by {
                    if b == r@.len() - 1 {
                        assert(r@[a] == old_r[a]);
                        if a < old_r.len() - 1 {
                            assert(point_le(cxi, cyi, sxi, syi, old_r[a], old_r[old_r.len() - 1]));
                        }
                    }
                }
                assert forall|i: int| 0 <= i < r@.len() - 1 implies #[trigger] r@[i] != r@[i
                    + 1] by {
                    if i < r@.len() - 2 {
                        assert(old_r[i] != old_r[i + 1]);
                    }
                }
            }
        }
        k += 1;
    }
    proof {
        assert forall|k1: int, k2: int| 0 <= k1 < k2 < r@.len() implies #[trigger] r@[k1]
            != #[trigger] r@[k2] by {
            assert(point_le(cxi, cyi, sxi, syi, r@[k1], r@[k1 + 1]));
            let key1 = spec_circle_key(cxi, cyi, sxi, syi, r@[k1].0 as int, r@[k1].1 as int);
            let keymid = spec_circle_key(cxi, cyi, sxi, syi, r@[k1 + 1].0 as int, r@[k1 + 1].1 as int);
            let key2 = spec_circle_key(cxi, cyi, sxi, syi, r@[k2].0 as int, r@[k2].1 as int);
            assert(r@[k1] != r@[k1 + 1]);
            if key1 == keymid {
                lemma_key_injective(
                    cxi,
                    cyi,
                    sxi,
                    syi,
                    r@[k1].0 as int,
                    r@[k1].1 as int,
                    r@[k1 + 1].0 as int,
                    r@[k1 + 1].1 as int,
                );
                assert((r@[k1].0, r@[k1].1) == (r@[k1 + 1].0, r@[k1 + 1].1));
                assert(false);
            }
            if k1 + 1 < k2 {
                assert(point_le(cxi, cyi, sxi, syi, r@[k1 + 1], r@[k2]));
            }
            assert(key1 < key2);
            if r@[k1] == r@[k2] {
                assert(key1 == key2);
                assert(false);
            }
        }
    }
    r
}

/// One circle-mode traversal path: the deduplicated grid points of the
/// radius-r midpoint circle around (cx, cy), ordered by angular position
/// clockwise from the start direction (sx, sy). Every point is in bounds,
/// none repeats, and the path runs in angular order, so a run along it
/// sorts an arc. The radius-0 path is exactly the center, when the center
/// lies inside the raster.
pub fn circle_ring_path(
    w: usize,
    h: usize,
    cx: u32,
    cy: u32,
    r: u64,
    sx: i64,
    sy: i64,
) -> (ring: Vec<(usize, usize)>)
    requires
        w < 0x1_0000_0000,
        h < 0x1_0000_0000,
        r <= 0x2_0000_0000,
        -0x1_0000_0000 <= sx <= 0x1_0000_0000,
        -0x1_0000_0000 <= sy <= 0x1_0000_0000,
    ensures
        coords_in_bounds(ring@, w as int, h as int),
        coords_distinct(ring@),
        points_sorted(ring@, cx as int, cy as int, sx as int, sy as int),
        r == 0 && (cx as int) < w && (cy as int) < h ==> ring@.len() == 1 && ring@[0] == (
            cx as usize,
            cy as usize,
        ),
        r == 0 && !((cx as int) < w && (cy as int) < h) ==> ring@.len() == 0,
{
    let mut pts: Vec<(usize, usize)> = midpoint_points(w, h, cx, cy, r);
    let ghost gen = pts@;
    sort_points(&mut pts, cx, cy, sx, sy, Ghost(w as int), Ghost(h as int));
    let ring: Vec<(usize, usize)> = dedup_points(&pts, cx, cy, sx, sy, Ghost(w as int), Ghost(
        h as int,
    ));
    proof {
        broadcast use vstd::seq_lib::group_to_multiset_ensures;

        if r == 0 {
            if (cx as int) < w && (cy as int) < h {
                let center = (cx as usize, cy as usize);
                assert forall|m: int| 0 <= m < pts@.len() implies #[trigger] pts@[m] == center by {
                    assert(pts@.contains(pts@[m]));
                    assert(gen.to_multiset().count(pts@[m]) > 0);
                    assert(gen.contains(pts@[m]));
                    let j = choose|j: int| 0 <= j < gen.len() && gen[j] == pts@[m];
                    assert(gen[j] == center);
                }
                assert(ring@.len() > 0);
                assert forall|m: int| 0 <= m < ring@.len() implies #[trigger] ring@[m]
                    == center by {
                    let j = choose|j: int| 0 <= j < pts@.len() && ring@[m] == pts@[j];
                    assert(pts@[j] == center);
                }
                if ring@.len() > 1 {
                    assert(ring@[0] == ring@[1]);
                    assert(false);
                }
            } else {
                if ring@.len() > 0 {
                    let j = choose|j: int| 0 <= j < pts@.len() && ring@[0] == pts@[j];
                    assert(false);
                }
            }
        }
    }
    ring
}

/// Whether the neighbor at (a, b) counts for the fill: inside the grid
/// and written by some radius pass.
pub open spec fn nb_ok(wr: Seq<bool>, w: int, h: int, a: int, b: int) -> bool {
    0 <= a < w && 0 <= b < h && wr[b * w + a]
}

pub open spec fn nb_cnt_at(wr: Seq<bool>, w: int, h: int, a: int, b: int) -> int {
    if nb_ok(wr, w, h, a, b) {
        1
    } else {
        0
    }
}

/// Channel c (0 red, 1 green, 2 blue, 3 alpha) of one pixel.
pub open spec fn spec_chan(p: Pixel, c: int) -> int {
    if c == 0 {
        p.r as int
    } else if c == 1 {
        p.g as int
    } else if c == 2 {
        p.b as int
    } else {
        p.a as int
    }
}

pub open spec fn nb_chan_at(
    s: Seq<Pixel>,
    wr: Seq<bool>,
    w: int,
    h: int,
    a: int,
    b: int,
    c: int,
) -> int {
    if nb_ok(wr, w, h, a, b) {
        spec_chan(s[b * w + a], c)
    } else {
        0
    }
}

/// How many of the eight immediate neighbors of (x, y) count.
pub open spec fn spec_fill_cnt(wr: Seq<bool>, w: int, h: int, x: int, y: int) -> int {
    nb_cnt_at(wr, w, h, x - 1, y - 1) + nb_cnt_at(wr, w, h, x, y - 1) + nb_cnt_at(
        wr,
        w,
        h,
        x + 1,
        y - 1,
    ) + nb_cnt_at(wr, w, h, x - 1, y) + nb_cnt_at(wr, w, h, x + 1, y) + nb_cnt_at(
        wr,
        w,
        h,
        x - 1,
        y + 1,
    ) + nb_cnt_at(wr, w, h, x, y + 1) + nb_cnt_at(wr, w, h, x + 1, y + 1)
}

/// The sum of channel c over the counting neighbors of (x, y).
pub open spec fn spec_fill_sum(
    s: Seq<Pixel>,
    wr: Seq<bool>,
    w: int,
    h: int,
    x: int,
    y: int,
    c: int,
) -> int {
    nb_chan_at(s, wr, w, h, x - 1, y - 1, c) + nb_chan_at(s, wr, w, h, x, y - 1, c) + nb_chan_at(
        s,
        wr,
        w,
        h,
        x + 1,
        y - 1,
        c,
    ) + nb_chan_at(s, wr, w, h, x - 1, y, c) + nb_chan_at(s, wr, w, h, x + 1, y, c) + nb_chan_at(
        s,
        wr,
        w,
        h,
        x - 1,
        y + 1,
        c,
    ) + nb_chan_at(s, wr, w, h, x, y + 1, c) + nb_chan_at(s, wr, w, h, x + 1, y + 1, c)
}

/// The unweighted channel-wise average of the written in-bounds neighbors
/// of (x, y); transparent black when no neighbor counts.
pub open spec fn spec_fill_pixel(
    s: Seq<Pixel>,
    wr: Seq<bool>,
    w: int,
    h: int,
    x: int,
    y: int,
) -> Pixel {
    let n = spec_fill_cnt(wr, w, h, x, y);
    if n == 0 {
        Pixel { r: 0, g: 0, b: 0, a: 0 }
    } else {
        Pixel {
            r: (spec_fill_sum(s, wr, w, h, x, y, 0) / n) as u8,
            g: (spec_fill_sum(s, wr, w, h, x, y, 1) / n) as u8,
            b: (spec_fill_sum(s, wr, w, h, x, y, 2) / n) as u8,
            a: (spec_fill_sum(s, wr, w, h, x, y, 3) / n) as u8,
        }
    }
}

fn nb_probe(s: &Vec<Pixel>, wr: &Vec<bool>, w: usize, h: usize, a: i64, b: i64) -> (res: Option<
    Pixel,
>)
    requires
        w < 0x1_0000_0000,
        h < 0x1_0000_0000,
        s@.len() == w * h,
        wr@.len() == w * h,
        -0x2_0000_0000 <= a <= 0x2_0000_0000,
        -0x2_0000_0000 <= b <= 0x2_0000_0000,
    ensures
        res is Some <==> nb_ok(wr@, w as int, h as int, a as int, b as int),
        res is Some ==> res->Some_0 == s@[b as int * w + a as int],
{
    if 0 <= a && a < w as i64 && 0 <= b && b < h as i64 {
        let au: usize = a as usize;
        let bu: usize = b as usize;
        proof {
            lemma_index_in_range(au as int, bu as int, w as int, h as int);
            assert(wr.len() == wr@.len() && wr.len() <= usize::MAX);
        }
        let idx: usize = bu * w + au;
        if wr[idx] {
            Some(s[idx])
        } else {
            None
        }
    } else {
        None
    }
}

fn chan_of(q: &Pixel, c: u8) -> (v: u8)
    ensures
        v as int == spec_chan(*q, c as int),
{
    if c == 0 {
        q.r
    } else if c == 1 {
        q.g
    } else if c == 2 {
        q.b
    } else {
        q.a
    }
}

fn fill_cnt(wr: &Vec<bool>, w: usize, h: usize, x: usize, y: usize) -> (n: u32)
    requires
        w < 0x1_0000_0000,
        h < 0x1_0000_0000,
        wr@.len() == w * h,
        x < w,
        y < h,
    ensures
        n as int == spec_fill_cnt(wr@, w as int, h as int, x as int, y as int),
        n <= 8,
{
    let xi: i64 = x as i64;
    let yi: i64 = y as i64;
    let mut cnt: u32 = 0;
    if probe_ok(wr, w, h, xi - 1, yi - 1) {
        cnt = cnt + 1;
    }
    if probe_ok(wr, w, h, xi, yi - 1) {
        cnt = cnt + 1;
    }
    if probe_ok(wr, w, h, xi + 1, yi - 1) {
        cnt = cnt + 1;
    }
    if probe_ok(wr, w, h, xi - 1, yi) {
        cnt = cnt + 1;
    }
    if probe_ok(wr, w, h, xi + 1, yi) {
        cnt = cnt + 1;
    }
    if probe_ok(wr, w, h, xi - 1, yi + 1) {
        cnt = cnt + 1;
    }
    if probe_ok(wr, w, h, xi, yi + 1) {
        cnt = cnt + 1;
    }
    if probe_ok(wr, w, h, xi + 1, yi + 1) {
        cnt = cnt + 1;
    }
    cnt
}

fn probe_ok(wr: &Vec<bool>, w: usize, h: usize, a: i64, b: i64) -> (res: bool)
    requires
        w < 0x1_0000_0000,
        h < 0x1_0000_0000,
        wr@.len() == w * h,
        -0x2_0000_0000 <= a <= 0x2_0000_0000,
        -0x2_0000_0000 <= b <= 0x2_0000_0000,
    ensures
        res == nb_ok(wr@, w as int, h as int, a as int, b as int),
{
    if 0 <= a && a < w as i64 && 0 <= b && b < h as i64 {
        let au: usize = a as usize;
        let bu: usize = b as usize;
        proof {
            lemma_index_in_range(au as int, bu as int, w as int, h as int);
            assert(wr.len() == wr@.len() && wr.len() <= usize::MAX);
        }
        wr[bu * w + au]
    } else {
        false
    }
}

#[verifier::rlimit(100)]
#[verifier::spinoff_prover]
fn fill_sum(s: &Vec<Pixel>, wr: &Vec<bool>, w: usize, h: usize, x: usize, y: usize, c: u8) -> (t:
    u32)
    requires
        w < 0x1_0000_0000,
        h < 0x1_0000_0000,
        s@.len() == w * h,
        wr@.len() == w * h,
        x < w,
        y < h,
    ensures
        t as int == spec_fill_sum(s@, wr@, w as int, h as int, x as int, y as int, c as int),
        t as int <= 255 * spec_fill_cnt(wr@, w as int, h as int, x as int, y as int),
{
    let xi: i64 = x as i64;
    let yi: i64 = y as i64;
    let mut t: u32 = 0;
    let n1: Option<Pixel> = nb_probe(s, wr, w, h, xi - 1, yi - 1);
    if let Some(q) = n1 {
        t = t + chan_of(&q, c) as u32;
    }
    let n2: Option<Pixel> = nb_probe(s, wr, w, h, xi, yi - 1);
    if let Some(q) = n2 {
        t = t + chan_of(&q, c) as u32;
    }
    let n3: Option<Pixel> = nb_probe(s, wr, w, h, xi + 1, yi - 1);
    if let Some(q) = n3 {
        t = t + chan_of(&q, c) as u32;
    }
    let n4: Option<Pixel> = nb_probe(s, wr, w, h, xi - 1, yi);
    if let Some(q) = n4 {
        t = t + chan_of(&q, c) as u32;
    }
    let n5: Option<Pixel> = nb_probe(s, wr, w, h, xi + 1, yi);
    if let Some(q) = n5 {
        t = t + chan_of(&q, c) as u32;
    }
    let n6: Option<Pixel> = nb_probe(s, wr, w, h, xi - 1, yi + 1);
    if let Some(q) = n6 {
        t = t + chan_of(&q, c) as u32;
    }
    let n7: Option<Pixel> = nb_probe(s, wr, w, h, xi, yi + 1);
    if let Some(q) = n7 {
        t = t + chan_of(&q, c) as u32;
    }
    let n8: Option<Pixel> = nb_probe(s, wr, w, h, xi + 1, yi + 1);
    if let Some(q) = n8 {
        t = t + chan_of(&q, c) as u32;
    }
    t
}

/// The fill color of one never-written position, averaged from its
/// written in-bounds neighbors in the post-pass snapshot.
fn fill_pixel(s: &Vec<Pixel>, wr: &Vec<bool>, w: usize, h: usize, x: usize, y: usize) -> (p: Pixel)
    requires
        w < 0x1_0000_0000,
        h < 0x1_0000_0000,
        s@.len() == w * h,
        wr@.len() == w * h,
        x < w,
        y < h,
    ensures
        p == spec_fill_pixel(s@, wr@, w as int, h as int, x as int, y as int),
{
    let cnt: u32 = fill_cnt(wr, w, h, x, y);
    if cnt == 0 {
        Pixel { r: 0, g: 0, b: 0, a: 0 }
    } else {
        let sr: u32 = fill_sum(s, wr, w, h, x, y, 0);
        let sg: u32 = fill_sum(s, wr, w, h, x, y, 1);
        let sb: u32 = fill_sum(s, wr, w, h, x, y, 2);
        let sa: u32 = fill_sum(s, wr, w, h, x, y, 3);
        proof {
            assert(sr as int / cnt as int <= 255 && sg as int / cnt as int <= 255 && sb as int
                / cnt as int <= 255 && sa as int / cnt as int <= 255) by (nonlinear_arith)
                requires
                    cnt >= 1,
                    sr <= 255 * cnt,
                    sg <= 255 * cnt,
                    sb <= 255 * cnt,
                    sa <= 255 * cnt,
            ;
        }
        Pixel { r: (sr / cnt) as u8, g: (sg / cnt) as u8, b: (sb / cnt) as u8, a: (sa / cnt) as u8 }
    }
}

/// After every radius pass, fill each never-written position with the
/// average of its written neighbors; written positions stay as the radius
/// passes left them. The fill reads a snapshot, so filled values never
/// feed later fills.
pub fn fill_unwritten(raster: &mut Raster, wr: &Vec<bool>)
    requires
        old(raster).wf(),
        wr@.len() == old(raster).px@.len(),
    ensures
        final(raster).wf(),
        final(raster).width == old(raster).width,
        final(raster).height == old(raster).height,
        forall|x: int, y: int|
            old(raster).in_bounds(x, y) && wr@[y * old(raster).width + x]
                ==> final(raster).spec_at(x, y) == old(raster).spec_at(x, y),
        forall|x: int, y: int|
            old(raster).in_bounds(x, y) && !wr@[y * old(raster).width + x]
                ==> final(raster).spec_at(x, y) == spec_fill_pixel(
                old(raster).px@,
                wr@,
                old(raster).width as int,
                old(raster).height as int,
                x,
                y,
            ),
{
    let w: usize = raster.width;
    let h: usize = raster.height;
    let snap: Vec<Pixel> = raster.snapshot();
    let mut x: usize = 0;
    while x < w
        invariant
            x <= w,
            w == old(raster).width,
            h == old(raster).height,
            raster.wf(),
            raster.width == w,
            raster.height == h,
            snap@ == old(raster).px@,
            snap@.len() == w * h,
            wr@.len() == w * h,
            forall|i: int, j: int|
                old(raster).in_bounds(i, j) && wr@[j * w + i] ==> raster.spec_at(i, j) == old(
                    raster,
                ).spec_at(i, j),
            forall|i: int, j: int|
                old(raster).in_bounds(i, j) && !wr@[j * w + i] && i < x ==> raster.spec_at(i, j)
                    == spec_fill_pixel(old(raster).px@, wr@, w as int, h as int, i, j),
            forall|i: int, j: int|
                old(raster).in_bounds(i, j) && !wr@[j * w + i] && i >= x ==> raster.spec_at(i, j)
                    == old(raster).spec_at(i, j),
        decreases w - x,
    {
        let mut y: usize = 0;
        while y < h
            invariant
                x < w,
                y <= h,
                w == old(raster).width,
                h == old(raster).height,
                raster.wf(),
                raster.width == w,
                raster.height == h,
                snap@ == old(raster).px@,
                snap@.len() == w * h,
                wr@.len() == w * h,
                forall|i: int, j: int|
                    old(raster).in_bounds(i, j) && wr@[j * w + i] ==> raster.spec_at(i, j) == old(
                        raster,
                    ).spec_at(i, j),
                forall|i: int, j: int|
                    old(raster).in_bounds(i, j) && !wr@[j * w + i] && (i < x || (i == x && j < y))
                        ==> raster.spec_at(i, j) == spec_fill_pixel(
                        old(raster).px@,
                        wr@,
                        w as int,
                        h as int,
                        i,
                        j,
                    ),
                forall|i: int, j: int|
                    old(raster).in_bounds(i, j) && !wr@[j * w + i] && !(i < x || (i == x && j < y))
                        ==> raster.spec_at(i, j) == old(raster).spec_at(i, j),
            decreases h - y,
        {
            proof {
                lemma_index_in_range(x as int, y as int, w as int, h as int);
                assert(wr.len() == wr@.len() && wr.len() <= usize::MAX);
            }
            let idx: usize = y * w + x;
            if !wr[idx] {
                let p: Pixel = fill_pixel(&snap, wr, w, h, x, y);
                raster.put(x, y, p);
            }
            y += 1;
        }
        x += 1;
    }
}

/// One full circle-mode pass: sort every radius ring from the pass-start
/// snapshot, then fill the positions no ring wrote from their written
/// neighbors.
pub fn sort_circle<P: Progress>(
    raster: &mut Raster,
    o: &Opts,
    cx: u32,
    cy: u32,
    sx: i64,
    sy: i64,
    rng: &mut RandomSource,
    progress: &mut P,
)
    requires
        old(raster).wf(),
        -0x1_0000_0000 <= sx <= 0x1_0000_0000,
        -0x1_0000_0000 <= sy <= 0x1_0000_0000,
    ensures
        final(raster).wf(),
        final(raster).width == old(raster).width,
        final(raster).height == old(raster).height,
{
    let w: usize = raster.width;
    let h: usize = raster.height;
    let n: u64 = circle_radius_bound(w, h, cx, cy);
    let total: usize = if n < 0xFFFF_FFFF {
        n as usize
    } else {
        0xFFFF_FFFF
    };
    progress.set_total(total);
    let snap: Vec<Pixel> = raster.snapshot();
    let npx: usize = raster.px.len();
    let mut wr: Vec<bool> = Vec::new();
    let mut i: usize = 0;
    while i < npx
        invariant
            i <= npx,
            wr@.len() == i,
        decreases npx - i,
    {
        wr.push(false);
        i += 1;
    }
    let mut r: u64 = 0;
    while r < n
        invariant
            r <= n,
            n <= 0x2_0000_0000,
            w == old(raster).width,
            h == old(raster).height,
            raster.wf(),
            raster.width == w,
            raster.height == h,
            snap@.len() == raster.px@.len(),
            wr@.len() == raster.px@.len(),
            -0x1_0000_0000 <= sx <= 0x1_0000_0000,
            -0x1_0000_0000 <= sy <= 0x1_0000_0000,
        decreases n - r,
    {
        let ring: Vec<(usize, usize)> = circle_ring_path(w, h, cx, cy, r, sx, sy);
        sort_sequence(raster, &snap, &ring, o, rng);
        let m: usize = ring.len();
        let mut k: usize = 0;
        while k < m
            invariant
                k <= m,
                m == ring@.len(),
                w == raster.width,
                h == raster.height,
                raster.wf(),
                wr@.len() == raster.px@.len(),
                coords_in_bounds(ring@, w as int, h as int),
            decreases m - k,
        {
            let c: (usize, usize) = ring[k];
            proof {
                assert((#[trigger] ring@[k as int]).0 < w && ring@[k as int].1 < h);
                lemma_index_in_range(c.0 as int, c.1 as int, w as int, h as int);
                assert(wr.len() == wr@.len() && wr.len() <= usize::MAX);
            }
            wr.set(c.1 * w + c.0, true);
            k += 1;
        }
        progress.advance();
        r = r + 1;
    }
    fill_unwritten(raster, &wr);
}

} // verus!