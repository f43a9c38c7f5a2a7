use vstd::prelude::*;

use crate::metrics::{metric_value, spec_metric, Metric};
use crate::raster::Pixel;

verus! {

use vstd::multiset::Multiset;
use vstd::pervasive::VecAdditionalExecFns;

/// The ordering byte of one pixel under the selected metric.
pub open spec fn pixel_key(m: Metric, p: Pixel) -> u8 {
    spec_metric(m, p.r, p.g, p.b)
}

/// The selected metric applied to one pixel.
pub fn pixel_metric(m: Metric, p: &Pixel) -> (v: u8)
    ensures
        v == pixel_key(m, *p),
{
    metric_value(m, p.r, p.g, p.b)
}

/// `a` may stand before `b` in the configured direction: ascending keys,
/// or descending ones when `reverse` is set.
pub open spec fn key_le(m: Metric, reverse: bool, a: Pixel, b: Pixel) -> bool {
    if reverse {
        pixel_key(m, a) >= pixel_key(m, b)
    } else {
        pixel_key(m, a) <= pixel_key(m, b)
    }
}

/// The buffer is ordered in the configured direction.
pub open spec fn sorted_by(s: Seq<Pixel>, m: Metric, reverse: bool) -> bool {
    forall|i: int, j: int| 0 <= i < j < s.len() ==> #[trigger] key_le(m, reverse, s[i], s[j])
}

/// Concatenation turns into multiset union.
proof fn lemma_to_multiset_add<A>(s1: Seq<A>, s2: Seq<A>)
    ensures
        (s1 + s2).to_multiset() == s1.to_multiset().add(s2.to_multiset()),
    decreases s2.len(),
{
    broadcast use vstd::seq_lib::group_to_multiset_ensures;
    broadcast use vstd::multiset::group_multiset_axioms;

    if s2.len() == 0 {
        assert(s1 + s2 =~= s1);
        assert(s2.to_multiset() =~= Multiset::<A>::empty());
        assert((s1 + s2).to_multiset() =~= s1.to_multiset().add(s2.to_multiset()));
    } else {
        let last = s2.last();
        lemma_to_multiset_add(s1, s2.drop_last());
        assert(s1 + s2 =~= (s1 + s2.drop_last()).push(last));
        assert(s2 =~= s2.drop_last().push(last));
        assert((s1 + s2).to_multiset() =~= s1.to_multiset().add(s2.to_multiset()));
    }
}

/// Swapping two positions leaves the multiset of values alone.
pub(crate) proof fn lemma_swap_multiset<A>(s: Seq<A>, i: int, j: int)
    requires
        0 <= i < s.len(),
        0 <= j < s.len(),
        i != j,
    ensures
        s.update(i, s[j]).update(j, s[i]).to_multiset() == s.to_multiset(),
{
    broadcast use vstd::seq_lib::group_to_multiset_ensures;
    broadcast use vstd::multiset::group_multiset_axioms;

    let s1 = s.update(i, s[j]);
    let s2 = s1.update(j, s[i]);
    vstd::seq_lib::to_multiset_update(s, i, s[j]);
    vstd::seq_lib::to_multiset_update(s1, j, s[i]);
    assert(s1[j] == s[j]);
    assert(s.to_multiset().count(s[i]) > 0) by {
        assert(s.contains(s[i]));
    }
    assert(s1.to_multiset().count(s[j]) > 0) by {
        assert(s1.contains(s1[j]));
    }
    assert(s2.to_multiset() =~= s.to_multiset());
}

/// Two buffers of the same length that agree outside [a, b) and whose
/// [a, b) slices hold the same multiset hold the same multiset overall.
proof fn lemma_splice_multiset(s1: Seq<Pixel>, s2: Seq<Pixel>, a: int, b: int)
    requires
        s1.len() == s2.len(),
        0 <= a <= b <= s1.len(),
        forall|i: int| 0 <= i < s1.len() && !(a <= i < b) ==> s1[i] == s2[i],
        s1.subrange(a, b).to_multiset() == s2.subrange(a, b).to_multiset(),
    ensures
        s1.to_multiset() == s2.to_multiset(),
{
    let n = s1.len() as int;
    assert(s1.subrange(0, a) =~= s2.subrange(0, a));
    assert(s1.subrange(b, n) =~= s2.subrange(b, n));
    assert(s1 =~= (s1.subrange(0, a) + s1.subrange(a, b)) + s1.subrange(b, n));
    assert(s2 =~= (s2.subrange(0, a) + s2.subrange(a, b)) + s2.subrange(b, n));
    lemma_to_multiset_add(s1.subrange(0, a), s1.subrange(a, b));
    lemma_to_multiset_add(s1.subrange(0, a) + s1.subrange(a, b), s1.subrange(b, n));
    lemma_to_multiset_add(s2.subrange(0, a), s2.subrange(a, b));
    lemma_to_multiset_add(s2.subrange(0, a) + s2.subrange(a, b), s2.subrange(b, n));
}

fn out_of_order(m: Metric, reverse: bool, a: &Pixel, b: &Pixel) -> (r: bool)
    ensures
        r == !key_le(m, reverse, *a, *b),
{
    let ka: u8 = pixel_metric(m, a);
    let kb: u8 = pixel_metric(m, b);
    if reverse {
        ka < kb
    } else {
        ka > kb
    }
}

/// Sort one run of pixels by the metric, ascending unless `reverse` is set.
/// Only the multiset of colors changes hands: nothing is invented or lost,
/// and a run that already stands in the configured order is left untouched.
pub fn sort_run(v: &mut Vec<Pixel>, m: Metric, reverse: bool)
    ensures
        final(v)@.len() == old(v)@.len(),
        final(v)@.to_multiset() == old(v)@.to_multiset(),
        sorted_by(final(v)@, m, reverse),
        sorted_by(old(v)@, m, reverse) ==> final(v)@ == old(v)@,
{
    let ghost orig = v@;
    let n: usize = v.len();
    if n < 2 {
        return ;
    }
    let mut i: usize = 1;
    while i < n
        invariant
            1 <= i <= n,
            n == v@.len(),
            v@.to_multiset() == orig.to_multiset(),
            forall|a: int, b: int|
                0 <= a < b < i ==> #[trigger] key_le(m, reverse, v@[a], v@[b]),
            sorted_by(orig, m, reverse) ==> v@ == orig,
        decreases n - i,
    {
        let mut j: usize = i;
        while j > 0 && out_of_order(m, reverse, &v[j - 1], &v[j])
            invariant
                0 <= j <= i < n,
                n == v@.len(),
                v@.to_multiset() == orig.to_multiset(),
                forall|a: int, b: int|
                    0 <= a < b <= i && b != j ==> #[trigger] key_le(m, reverse, v@[a], v@[b]),
                forall|b: int| j < b <= i ==> #[trigger] key_le(m, reverse, v@[j as int], v@[b]),
                sorted_by(orig, m, reverse) ==> v@ == orig,
            decreases j,
        {
            let ghost pre = v@;
            let lo: Pixel = v[j - 1];
            let hi: Pixel = v[j];
            v.set(j - 1, hi);
            v.set(j, lo);
            proof {
                assert(v@ =~= pre.update(j - 1, pre[j as int]).update(j as int, pre[j - 1]));
                lemma_swap_multiset(pre, j - 1, j as int);
                if sorted_by(orig, m, reverse) {
                    assert(key_le(m, reverse, orig[j - 1], orig[j as int]));
                    assert(false);
                }
            }
            j -= 1;
        }
        proof {
            assert forall|a: int, b: int| 0 <= a < b <= i implies #[trigger] key_le(
                m,
                reverse,
                v@[a],
                v@[b],
            ) by {
                if b == j {
                    assert(j > 0);
                    assert(key_le(m, reverse, v@[j - 1], v@[j as int]));
                    if a < j - 1 {
                        assert(key_le(m, reverse, v@[a], v@[j - 1]));
                    }
                }
            }
        }
        i += 1;
    }
}

/// Sort the slice [start, start + n) of a pixel buffer in place, leaving
/// every position outside it alone. The slice's color multiset — and so
/// the whole buffer's — is preserved, and an already-ordered slice is left
/// exactly as it was.
pub fn sort_range(v: &mut Vec<Pixel>, start: usize, n: usize, m: Metric, reverse: bool)
    requires
        start + n <= old(v)@.len(),
    ensures
        final(v)@.len() == old(v)@.len(),
        forall|k: int|
            0 <= k < old(v)@.len() && !(start <= k < start + n) ==> final(v)@[k] == old(v)@[k],
        final(v)@.subrange(start as int, (start + n) as int).to_multiset() == old(v)@.subrange(
            start as int,
            (start + n) as int,
        ).to_multiset(),
        final(v)@.to_multiset() == old(v)@.to_multiset(),
        sorted_by(final(v)@.subrange(start as int, (start + n) as int), m, reverse),
        sorted_by(old(v)@.subrange(start as int, (start + n) as int), m, reverse) ==> final(v)@
            == old(v)@,
{
    let ghost orig = v@;
    let total: usize = v.len();
    let mut tmp: Vec<Pixel> = Vec::new();
    let mut k: usize = 0;
    while k < n
        invariant
            start + n <= total,
            total == v@.len(),
            v@ == orig,
            k <= n,
            tmp@ == orig.subrange(start as int, (start + k) as int),
        decreases n - k,
    {
        tmp.push(v[start + k]);
        k += 1;
        proof {
            assert(tmp@ =~= orig.subrange(start as int, (start + k) as int));
        }
    }
    sort_run(&mut tmp, m, reverse);
    let mut k: usize = 0;
    while k < n
        invariant
            start + n <= total,
            total == orig.len(),
            v@.len() == orig.len(),
            k <= n,
            tmp@.len() == n,
            forall|i: int| 0 <= i < orig.len() && !(start <= i < start + k) ==> v@[i] == orig[i],
            forall|i: int| 0 <= i < k ==> v@[start + i] == tmp@[i],
        decreases n - k,
    {
        v.set(start + k, tmp[k]);
        k += 1;
    }
    proof {
        assert(v@.subrange(start as int, (start + n) as int) =~= tmp@);
        lemma_splice_multiset(v@, orig, start as int, (start + n) as int);
        if sorted_by(orig.subrange(start as int, (start + n) as int), m, reverse) {
            assert forall|j: int| 0 <= j < orig.len() implies v@[j] == orig[j] by {
                if start <= j < start + n {
                    let i = j - start;
                    assert(v@[start + i] == tmp@[i]);
                    assert(orig.subrange(start as int, (start + n) as int)[i] == orig[start + i]);
                }
            }
            assert(v@ =~= orig);
        }
    }
}

} // verus!
