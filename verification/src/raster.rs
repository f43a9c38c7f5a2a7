use vstd::prelude::*;

verus! {

use vstd::pervasive::VecAdditionalExecFns;

/// One pixel: four channel bytes. Its identity is the position it occupies
/// in the raster, never anything stored inside it.
#[derive(Clone, Copy, PartialEq, Eq, Structural, Debug)]
pub struct Pixel {
    pub r: u8,
    pub g: u8,
    pub b: u8,
    pub a: u8,
}

/// A width x height grid of pixels, stored row-major: (x, y) lives at
/// index y * width + x.
pub struct Raster {
    pub width: usize,
    pub height: usize,
    pub px: Vec<Pixel>,
}

pub proof fn lemma_index_in_range(x: int, y: int, w: int, h: int)
    by (nonlinear_arith)
    requires
        0 <= x < w,
        0 <= y < h,
    ensures
        0 <= y * w + x < w * h,
{
}

/// Positions are addressed with row-major linear indices; two distinct
/// in-range positions never share one.
pub proof fn lemma_index_injective(x1: int, y1: int, x2: int, y2: int, w: int)
    by (nonlinear_arith)
    requires
        0 <= x1 < w,
        0 <= x2 < w,
        0 <= y1,
        0 <= y2,
        !(x1 == x2 && y1 == y2),
    ensures
        y1 * w + x1 != y2 * w + x2,
{
}

impl Raster {
    /// The dimensions fit the backing store, whose row-major layout needs
    /// u32-sized axes (the decoded images the raster models have them).
    pub open spec fn wf(self) -> bool {
        &&& self.px@.len() == self.width * self.height
        &&& self.width < 0x1_0000_0000
        &&& self.height < 0x1_0000_0000
    }

    pub open spec fn spec_index(self, x: int, y: int) -> int {
        y * self.width + x
    }

    /// The pixel stored at (x, y).
    pub open spec fn spec_at(self, x: int, y: int) -> Pixel {
        self.px@[y * self.width + x]
    }

    pub open spec fn in_bounds(self, x: int, y: int) -> bool {
        0 <= x < self.width && 0 <= y < self.height
    }

    /// A raster filled with one color.
    pub fn new(width: usize, height: usize, fill: Pixel) -> (r: Raster)
        requires
            width < 0x1_0000_0000,
            height < 0x1_0000_0000,
            width * height <= usize::MAX,
        ensures
            r.wf(),
            r.width == width,
            r.height == height,
            forall|x: int, y: int| r.in_bounds(x, y) ==> r.spec_at(x, y) == fill,
    {
        proof {
            assert(width * height <= usize::MAX);
        }
        let n: usize = width * height;
        let mut px: Vec<Pixel> = Vec::new();
        let mut i: usize = 0;
        while i < n
            invariant
                i <= n,
                px@.len() == i,
                forall|k: int| 0 <= k < i ==> px@[k] == fill,
            decreases n - i,
        {
            px.push(fill);
            i += 1;
        }
        let r = Raster { width, height, px };
        proof {
            assert forall|x: int, y: int| r.in_bounds(x, y) implies r.spec_at(x, y) == fill by {
                lemma_index_in_range(x, y, width as int, height as int);
            }
        }
        r
    }

    /// Wrap an existing row-major pixel buffer.
    pub fn from_vec(width: usize, height: usize, px: Vec<Pixel>) -> (r: Raster)
        requires
            width < 0x1_0000_0000,
            height < 0x1_0000_0000,
            px@.len() == width * height,
        ensures
            r.wf(),
            r.width == width,
            r.height == height,
            r.px@ == px@,
    {
        Raster { width, height, px }
    }

    pub fn get(&self, x: usize, y: usize) -> (p: Pixel)
        requires
            self.wf(),
            self.in_bounds(x as int, y as int),
        ensures
            p == self.spec_at(x as int, y as int),
    {
        proof {
            lemma_index_in_range(x as int, y as int, self.width as int, self.height as int);
            assert(self.px.len() == self.px@.len() && self.px.len() <= usize::MAX);
        }
        self.px[y * self.width + x]
    }

    pub fn put(&mut self, x: usize, y: usize, p: Pixel)
        requires
            old(self).wf(),
            old(self).in_bounds(x as int, y as int),
        ensures
            final(self).wf(),
            final(self).width == old(self).width,
            final(self).height == old(self).height,
            final(self).px@ == old(self).px@.update(
                old(self).spec_index(x as int, y as int),
                p,
            ),
            final(self).spec_at(x as int, y as int) == p,
            forall|i: int, j: int|
                old(self).in_bounds(i, j) && !(i == x && j == y) ==> final(self).spec_at(i, j)
                    == old(self).spec_at(i, j),
    {
        proof {
            lemma_index_in_range(x as int, y as int, self.width as int, self.height as int);
            assert(self.px.len() == self.px@.len() && self.px.len() <= usize::MAX);
        }
        let idx: usize = y * self.width + x;
        self.px.set(idx, p);
        proof {
            assert forall|i: int, j: int|
                old(self).in_bounds(i, j) && !(i == x && j == y) implies self.spec_at(i, j)
                == old(self).spec_at(i, j) by {
                lemma_index_in_range(i, j, self.width as int, self.height as int);
                lemma_index_injective(i, j, x as int, y as int, self.width as int);
            }
        }
    }

    /// A copy of the pixel buffer, for the read-snapshot-then-write-live
    /// discipline: a pass reads source colors from this snapshot and writes
    /// into the live raster.
    pub fn snapshot(&self) -> (s: Vec<Pixel>)
        ensures
            s@ == self.px@,
    {
        let mut s: Vec<Pixel> = Vec::new();
        let mut i: usize = 0;
        let n: usize = self.px.len();
        while i < n
            invariant
                i <= n,
                n == self.px@.len(),
                s@ == self.px@.subrange(0, i as int),
            decreases n - i,
        {
            s.push(self.px[i]);
            i += 1;
        }
        proof {
            assert(s@ =~= self.px@);
        }
        s
    }
}

} // verus!
