use vstd::prelude::*;

use crate::engine::coords_in_bounds;

verus! {

/// The geometry of one pass: which traversal paths cross the raster.
/// Parameters that the orchestrator derives from its floating-point angle
/// arrive here precomputed as integers: the per-column shear offsets of an
/// angled linear pass, and a start direction for circle rings.
pub enum SortType {
    /// One path per row, left to right.
    Linear,
    /// The image treated as sheared: column x of output row y reads row
    /// shear[x] + y. `extra` is the shear across the full width, which
    /// widens the row range so every sheared row is visited.
    Sheared { shear: Vec<i64>, extra: i64 },
    /// Rectangular rings, outermost first.
    Spiral,
    /// Midpoint circles of growing radius around (cx, cy), each ordered
    /// by angle starting from direction (sx, sy), with a neighbor-average
    /// fill for the pixels no circle hits.
    Circle { cx: u32, cy: u32, sx: i64, sy: i64 },
}

/// The integer parameters a geometry carries are within the ranges the
/// engine's arithmetic is proved for.
pub open spec fn geom_ok(g: SortType) -> bool {
    match g {
        SortType::Linear => true,
        SortType::Spiral => true,
        SortType::Sheared { shear, extra } => {
            &&& -0x100_0000_0000 <= extra <= 0x100_0000_0000
            &&& forall|i: int|
                0 <= i < shear@.len() ==> -0x100_0000_0000 <= #[trigger] shear@[i]
                    <= 0x100_0000_0000
        },
        SortType::Circle { cx, cy, sx, sy } => {
            &&& -0x1_0000_0000 <= sx <= 0x1_0000_0000
            &&& -0x1_0000_0000 <= sy <= 0x1_0000_0000
        },
    }
}

/// One sequence per row, each row left to right.
pub fn linear_sequences(w: usize, h: usize) -> (seqs: Vec<Vec<(usize, usize)>>)
    ensures
        seqs@.len() == h,
        forall|y: int| 0 <= y < h ==> (#[trigger] seqs@[y])@.len() == w,
        forall|y: int, i: int|
            0 <= y < h && 0 <= i < w ==> (#[trigger] seqs@[y]@[i]).0 == i && seqs@[y]@[i].1 == y,
{
    let mut seqs: Vec<Vec<(usize, usize)>> = Vec::new();
    let mut y: usize = 0;
    while y < h
        invariant
            y <= h,
            seqs@.len() == y,
            forall|r: int| 0 <= r < y ==> (#[trigger] seqs@[r])@.len() == w,
            forall|r: int, i: int|
                0 <= r < y && 0 <= i < w ==> (#[trigger] seqs@[r]@[i]).0 == i && seqs@[r]@[i].1
                    == r,
        decreases h - y,
    {
        let mut row: Vec<(usize, usize)> = Vec::new();
        let mut x: usize = 0;
        while x < w
            invariant
                x <= w,
                row@.len() == x,
                forall|i: int| 0 <= i < x ==> (#[trigger] row@[i]).0 == i && row@[i].1 == y,
            decreases w - x,
        {
            row.push((x, y));
            x += 1;
        }
        seqs.push(row);
        y += 1;
    }
    seqs
}

/// The traversal path for sheared output row y: for each column x in
/// order, the point (x, shear[x] + y), kept only when that row index lies
/// inside [0, h).
pub open spec fn spec_shear_row(shear: Seq<i64>, h: int, y: int) -> Seq<(usize, usize)>
    decreases shear.len(),
{
    if shear.len() == 0 {
        Seq::empty()
    } else {
        let rest = spec_shear_row(shear.drop_last(), h, y);
        let x = shear.len() - 1;
        let ysh = shear.last() as int + y;
        if 0 <= ysh < h {
            rest.push((x as usize, ysh as usize))
        } else {
            rest
        }
    }
}

/// Build one sheared row's path.
pub fn sheared_row(shear: &Vec<i64>, h: usize, y: i64) -> (row: Vec<(usize, usize)>)
    requires
        h < 0x1_0000_0000,
        -0x200_0000_0000 <= y <= 0x200_0000_0000,
        forall|i: int|
            0 <= i < shear@.len() ==> -0x100_0000_0000 <= #[trigger] shear@[i] <= 0x100_0000_0000,
    ensures
        row@ == spec_shear_row(shear@, h as int, y as int),
{
    let n: usize = shear.len();
    let mut row: Vec<(usize, usize)> = Vec::new();
    let mut k: usize = 0;
    proof {
        assert(row@ =~= spec_shear_row(shear@.take(0), h as int, y as int));
    }
    while k < n
        invariant
            k <= n,
            n == shear@.len(),
            h < 0x1_0000_0000,
            -0x200_0000_0000 <= y <= 0x200_0000_0000,
            forall|i: int|
                0 <= i < shear@.len() ==> -0x100_0000_0000 <= #[trigger] shear@[i]
                    <= 0x100_0000_0000,
            row@ == spec_shear_row(shear@.take(k as int), h as int, y as int),
        decreases n - k,
    {
        let ysh: i64 = shear[k] + y;
        proof {
            shear@.lemma_take_succ_push(k as int);
            assert(shear@.take(k as int + 1).drop_last() =~= shear@.take(k as int));
        }
        if 0 <= ysh && ysh < h as i64 {
            row.push((k, ysh as usize));
        }
        k += 1;
    }
    proof {
        assert(shear@.take(n as int) =~= shear@);
    }
    row
}

/// Segment lengths of the rectangular ring inset by i: the horizontal
/// (top and bottom) runs and the vertical (right and left) runs.
pub open spec fn spec_ring_horiz(w: int, i: int) -> int {
    if w > 2 * i {
        w - 2 * i - 1
    } else {
        0
    }
}

pub open spec fn spec_ring_vert(h: int, i: int) -> int {
    if h > 2 * i {
        h - 2 * i - 1
    } else {
        0
    }
}

/// Whether (x, y) lies on one of the four segments of the ring inset by
/// i: the positions a spiral pass may write.
pub open spec fn spec_on_spiral_ring(w: int, h: int, i: int, x: int, y: int) -> bool {
    let tl = spec_ring_horiz(w, i);
    let rl = spec_ring_vert(h, i);
    &&& 0 <= i
    &&& i + 1 <= w
    &&& {
        ||| (y == i && i + 1 <= x <= i + tl)
        ||| (x == w - i - 1 && i + 1 <= y <= i + rl)
        ||| (y == h - i - 1 && w - i - 1 - tl <= x <= w - i - 2)
        ||| (x == i && h - i - 1 - rl <= y <= h - i - 2)
    }
}

/// The rectangular ring inset by i pixels: top left-to-right, right
/// top-to-bottom, bottom right-to-left, left bottom-to-top, one closed
/// path. A width too small to hold the inset yields an empty path.
pub fn spiral_ring(w: usize, h: usize, i: usize) -> (ring: Vec<(usize, usize)>)
    requires
        2 * i + 2 <= h,
        h < 0x1_0000_0000,
        w < 0x1_0000_0000,
    ensures
        coords_in_bounds(ring@, w as int, h as int),
        w < i + 1 ==> ring@.len() == 0,
        w >= i + 1 ==> {
            let tl = spec_ring_horiz(w as int, i as int);
            let rl = spec_ring_vert(h as int, i as int);
            &&& ring@.len() == tl + rl + tl + rl
            &&& forall|k: int|
                0 <= k < tl ==> (#[trigger] ring@[k]).0 == i + 1 + k && ring@[k].1 == i
            &&& forall|k: int|
                0 <= k < rl ==> (#[trigger] ring@[tl + k]).0 == w - i - 1 && ring@[tl + k].1 == i
                    + 1 + k
            &&& forall|k: int|
                0 <= k < tl ==> (#[trigger] ring@[tl + rl + k]).0 == w - i - 2 - k && ring@[tl + rl
                    + k].1 == h - i - 1
            &&& forall|k: int|
                0 <= k < rl ==> (#[trigger] ring@[tl + rl + tl + k]).0 == i && ring@[tl + rl + tl
                    + k].1 == h - i - 2 - k
        },
{
    let mut ring: Vec<(usize, usize)> = Vec::new();
    if w < i + 1 {
        return ring;
    }
    let tl: usize = if w > 2 * i {
        w - 2 * i - 1
    } else {
        0
    };
    let rl: usize = h - 2 * i - 1;
    let mut k: usize = 0;
    while k < tl
        invariant
            k <= tl,
            w >= i + 1,
            tl == spec_ring_horiz(w as int, i as int),
            ring@.len() == k,
            forall|j: int| 0 <= j < k ==> (#[trigger] ring@[j]).0 == i + 1 + j && ring@[j].1 == i,
        decreases tl - k,
    {
        ring.push((i + 1 + k, i));
        k += 1;
    }
    let mut k: usize = 0;
    while k < rl
        invariant
            k <= rl,
            w >= i + 1,
            2 * i + 2 <= h,
            tl == spec_ring_horiz(w as int, i as int),
            rl == spec_ring_vert(h as int, i as int),
            ring@.len() == tl + k,
            forall|j: int| 0 <= j < tl ==> (#[trigger] ring@[j]).0 == i + 1 + j && ring@[j].1 == i,
            forall|j: int|
                0 <= j < k ==> (#[trigger] ring@[tl + j]).0 == w - i - 1 && ring@[tl + j].1 == i + 1
                    + j,
        decreases rl - k,
    {
        ring.push((w - i - 1, i + 1 + k));
        k += 1;
    }
    let mut k: usize = 0;
    while k < tl
        invariant
            k <= tl,
            w >= i + 1,
            2 * i + 2 <= h,
            tl == spec_ring_horiz(w as int, i as int),
            rl == spec_ring_vert(h as int, i as int),
            ring@.len() == tl + rl + k,
            forall|j: int| 0 <= j < tl ==> (#[trigger] ring@[j]).0 == i + 1 + j && ring@[j].1 == i,
            forall|j: int|
                0 <= j < rl ==> (#[trigger] ring@[tl + j]).0 == w - i - 1 && ring@[tl + j].1 == i
                    + 1 + j,
            forall|j: int|
                0 <= j < k ==> (#[trigger] ring@[tl + rl + j]).0 == w - i - 2 - j && ring@[tl + rl
                    + j].1 == h - i - 1,
        decreases tl - k,
    {
        ring.push((w - i - 2 - k, h - i - 1));
        k += 1;
    }
    let mut k: usize = 0;
    while k < rl
        invariant
            k <= rl,
            w >= i + 1,
            2 * i + 2 <= h,
            tl == spec_ring_horiz(w as int, i as int),
            rl == spec_ring_vert(h as int, i as int),
            ring@.len() == tl + rl + tl + k,
            forall|j: int| 0 <= j < tl ==> (#[trigger] ring@[j]).0 == i + 1 + j && ring@[j].1 == i,
            forall|j: int|
                0 <= j < rl ==> (#[trigger] ring@[tl + j]).0 == w - i - 1 && ring@[tl + j].1 == i
                    + 1 + j,
            forall|j: int|
                0 <= j < tl ==> (#[trigger] ring@[tl + rl + j]).0 == w - i - 2 - j && ring@[tl + rl
                    + j].1 == h - i - 1,
            forall|j: int|
                0 <= j < k ==> (#[trigger] ring@[tl + rl + tl + j]).0 == i && ring@[tl + rl + tl
                    + j].1 == h - i - 2 - j,
        decreases rl - k,
    {
        ring.push((i, h - i - 2 - k));
        k += 1;
    }
    proof {
        assert forall|j: int| 0 <= j < ring@.len() implies (#[trigger] ring@[j]).0 < w
            && ring@[j].1 < h by {
            let tli = spec_ring_horiz(w as int, i as int);
            let rli = spec_ring_vert(h as int, i as int);
            if j < tli {
            } else if j < tli + rli {
                assert(ring@[tli + (j - tli)].0 == w - i - 1);
            } else if j < tli + rli + tli {
                assert(ring@[tli + rli + (j - tli - rli)].0 == w - i - 2 - (j - tli - rli));
            } else {
                assert(ring@[tli + rli + tli + (j - tli - rli - tli)].0 == i);
            }
        }
    }
    ring
}

} // verus!
