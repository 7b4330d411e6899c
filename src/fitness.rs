//! The three objectives of a decoded segmentation.

use vstd::prelude::*;
use crate::image_proc::{Img, Pix, color_dist, MAX_PIXELS};
use crate::graph::filled;

verus! {

/// Channel `c` (0 red, 1 green, otherwise blue) of a pixel.
pub open spec fn chan(p: Pix, c: int) -> nat {
    if c == 0 {
        p.r as nat
    } else if c == 1 {
        p.g as nat
    } else {
        p.b as nat
    }
}

/// Sum of channel `c` over the pixels before `k` labelled `s`.
pub open spec fn seg_sum(img: Img, seg: Seq<usize>, s: int, c: int, k: int) -> nat
    decreases k,
{
    if k <= 0 {
        0
    } else {
        seg_sum(img, seg, s, c, k - 1) + if seg[k - 1] == s {
            chan(img.pixels[k - 1], c)
        } else {
            0
        }
    }
}

/// Number of pixels before `k` labelled `s`.
pub open spec fn seg_size(seg: Seq<usize>, s: int, k: int) -> nat
    decreases k,
{
    if k <= 0 {
        0
    } else {
        seg_size(seg, s, k - 1) + if seg[k - 1] == s {
            1nat
        } else {
            0nat
        }
    }
}

/// The mean colour of segment `s`, each channel rounded down; black for a
/// segment without pixels.
pub open spec fn centroid(img: Img, seg: Seq<usize>, s: int) -> Pix {
    let n = seg_size(seg, s, seg.len() as int);
    if n == 0 {
        Pix { r: 0, g: 0, b: 0 }
    } else {
        Pix {
            r: (seg_sum(img, seg, s, 0, seg.len() as int) / n) as u8,
            g: (seg_sum(img, seg, s, 1, seg.len() as int) / n) as u8,
            b: (seg_sum(img, seg, s, 2, seg.len() as int) / n) as u8,
        }
    }
}

pub open spec fn centroids_of(img: Img, seg: Seq<usize>, n: nat) -> Seq<Pix> {
    Seq::new(n, |s: int| centroid(img, seg, s))
}

/// Colour distances from pixel `p` to those of its neighbours in
/// directions `1..=k` that lie in another segment.
pub open spec fn edge_terms(img: Img, seg: Seq<usize>, p: int, k: int) -> nat
    decreases k,
{
    if k <= 0 {
        0
    } else {
        edge_terms(img, seg, p, k - 1) + match img.nbr(p, k) {
            Some(q) => if seg[q] != seg[p] {
                color_dist(img.pixels[p], img.pixels[q])
            } else {
                0
            },
            None => 0,
        }
    }
}

/// Sum over the pixels before `k` and their four cardinal neighbours in
/// another segment of the colour distance between the two.
pub open spec fn edge_value(img: Img, seg: Seq<usize>, k: int) -> nat
    decreases k,
{
    if k <= 0 {
        0
    } else {
        edge_value(img, seg, k - 1) + edge_terms(img, seg, k - 1, 4)
    }
}

/// Sum over the pixels before `k` of the colour distance between the
/// centroid of the pixel's segment and the pixel.
pub open spec fn overall_dev(img: Img, seg: Seq<usize>, cents: Seq<Pix>, k: int) -> nat
    decreases k,
{
    if k <= 0 {
        0
    } else {
        overall_dev(img, seg, cents, k - 1) + color_dist(cents[seg[k - 1] as int], img.pixels[k - 1])
    }
}

/// Every label is below `n`.
pub open spec fn labels_below(seg: Seq<usize>, n: nat) -> bool {
    forall|i: int| 0 <= i < seg.len() ==> #[trigger] seg[i] < n
}

/// The fitness vector of a segmentation with `n` segments: average edge
/// value, average deviation from the centroids, average segment size, and
/// `n`.
pub open spec fn fitness(img: Img, seg: Seq<usize>, n: nat) -> (nat, nat, nat, nat) {
    let len = seg.len() as int;
    (
        edge_value(img, seg, len) / n,
        overall_dev(img, seg, centroids_of(img, seg, n), len) / n,
        seg.len() / n,
        n,
    )
}

proof fn lemma_seg_sum_bound(img: Img, seg: Seq<usize>, s: int, c: int, k: int)
    requires
        0 <= k <= seg.len(),
        k <= img.pixels.len(),
    ensures
        seg_sum(img, seg, s, c, k) <= 255 * seg_size(seg, s, k),
        seg_size(seg, s, k) <= k,
    decreases k,
{
    if k > 0 {
        lemma_seg_sum_bound(img, seg, s, c, k - 1);
    }
}

/// The centroid colour of each of the `num_segs` segments.
pub fn get_centroids(img: &Img, segments: &Vec<usize>, num_segs: usize) -> (r: Vec<Pix>)
    requires
        img.wf(),
        segments.len() == img.length,
        labels_below(segments@, num_segs as nat),
    ensures
        r@ == centroids_of(*img, segments@, num_segs as nat),
{
    let n = segments.len();
    let mut sums: Vec<(u32, u32, u32)> = filled((0u32, 0u32, 0u32), num_segs);
    let mut sizes: Vec<u32> = filled(0u32, num_segs);
    let mut i: usize = 0;
    while i < n
        invariant
            img.wf(),
            n == segments.len(),
            n == img.length,
            labels_below(segments@, num_segs as nat),
            i <= n,
            sums.len() == num_segs,
            sizes.len() == num_segs,
            forall|s: int|
                0 <= s < num_segs ==> #[trigger] sums[s].0 == seg_sum(*img, segments@, s, 0, i as int)
                    && sums[s].1 == seg_sum(*img, segments@, s, 1, i as int)
                    && sums[s].2 == seg_sum(*img, segments@, s, 2, i as int)
                    && sizes[s] == seg_size(segments@, s, i as int),
        decreases n - i,
    {
        let s = segments[i];
        assert(s < num_segs);
        proof {
            lemma_seg_sum_bound(*img, segments@, s as int, 0, i as int);
            lemma_seg_sum_bound(*img, segments@, s as int, 1, i as int);
            lemma_seg_sum_bound(*img, segments@, s as int, 2, i as int);
            let sz = seg_size(segments@, s as int, i as int);
            assert(255 * sz <= 255 * (MAX_PIXELS as int)) by (nonlinear_arith)
                requires sz <= i, i < MAX_PIXELS;
        }
        let p = img.get(i);
        let ghost sums0 = sums@;
        let ghost sizes0 = sizes@;
        let old_sum = sums[s];
        sums.set(s, p.add_to_centroid_sum(old_sum));
        let sz = sizes[s];
        sizes.set(s, sz + 1);
        assert forall|t: int| 0 <= t < num_segs implies #[trigger] sums[t].0 == seg_sum(*img, segments@, t, 0, i + 1)
            && sums[t].1 == seg_sum(*img, segments@, t, 1, i + 1)
            && sums[t].2 == seg_sum(*img, segments@, t, 2, i + 1)
            && sizes[t] == seg_size(segments@, t, i + 1) by {
            assert(sums0[t].0 == seg_sum(*img, segments@, t, 0, i as int));
            assert(sizes0[t] == seg_size(segments@, t, i as int));
            if t != s {
                assert(sums[t] == sums0[t]);
                assert(sizes[t] == sizes0[t]);
            }
            assert(seg_sum(*img, segments@, t, 0, i + 1) == seg_sum(*img, segments@, t, 0, i as int) + if segments@[i as int] == t { chan(img.pixels[i as int], 0) } else { 0 });
            assert(seg_sum(*img, segments@, t, 1, i + 1) == seg_sum(*img, segments@, t, 1, i as int) + if segments@[i as int] == t { chan(img.pixels[i as int], 1) } else { 0 });
            assert(seg_sum(*img, segments@, t, 2, i + 1) == seg_sum(*img, segments@, t, 2, i as int) + if segments@[i as int] == t { chan(img.pixels[i as int], 2) } else { 0 });
            assert(seg_size(segments@, t, i + 1) == seg_size(segments@, t, i as int) + if segments@[i as int] == t { 1nat } else { 0nat });
        }
        i = i + 1;
    }
    let mut cents: Vec<Pix> = Vec::new();
    let mut k: usize = 0;
    while k < num_segs
        invariant
            img.wf(),
            n == segments.len(),
            n == img.length,
            k <= num_segs,
            sums.len() == num_segs,
            sizes.len() == num_segs,
            forall|s: int|
                0 <= s < num_segs ==> #[trigger] sums[s].0 == seg_sum(*img, segments@, s, 0, n as int)
                    && sums[s].1 == seg_sum(*img, segments@, s, 1, n as int)
                    && sums[s].2 == seg_sum(*img, segments@, s, 2, n as int)
                    && sizes[s] == seg_size(segments@, s, n as int),
            cents@ == centroids_of(*img, segments@, num_segs as nat).subrange(0, k as int),
        decreases num_segs - k,
    {
        let (r, g, b) = sums[k];
        assert(sums[k as int].0 == seg_sum(*img, segments@, k as int, 0, n as int));
        let elems = sizes[k];
        proof {
            lemma_seg_sum_bound(*img, segments@, k as int, 0, n as int);
            lemma_seg_sum_bound(*img, segments@, k as int, 1, n as int);
            lemma_seg_sum_bound(*img, segments@, k as int, 2, n as int);
        }
        if elems == 0 {
            cents.push(Pix::new(0, 0, 0));
        } else {
            assert(r / elems <= 255 && g / elems <= 255 && b / elems <= 255) by (nonlinear_arith)
                requires
                    r <= 255 * elems,
                    g <= 255 * elems,
                    b <= 255 * elems,
                    elems > 0;
            cents.push(Pix::new((r / elems) as u8, (g / elems) as u8, (b / elems) as u8));
        }
        assert(cents@ =~= centroids_of(*img, segments@, num_segs as nat).subrange(0, k + 1));
        k = k + 1;
    }
    assert(cents@ =~= centroids_of(*img, segments@, num_segs as nat));
    cents
}

/// The summed edge value and summed deviation from the centroids.
pub fn get_measures(img: &Img, seg_nums: &Vec<usize>, centroids: &Vec<Pix>) -> (r: (u64, u64))
    requires
        img.wf(),
        seg_nums.len() == img.length,
        labels_below(seg_nums@, centroids.len() as nat),
    ensures
        r.0 == edge_value(*img, seg_nums@, img.length as int),
        r.1 == overall_dev(*img, seg_nums@, centroids@, img.length as int),
{
    let n = img.length();
    let mut edge_val: u64 = 0;
    let mut dev: u64 = 0;
    let mut p: usize = 0;
    while p < n
        invariant
            img.wf(),
            n == img.length,
            seg_nums.len() == n,
            labels_below(seg_nums@, centroids.len() as nat),
            p <= n,
            edge_val == edge_value(*img, seg_nums@, p as int),
            edge_val <= 1764 * p,
            dev == overall_dev(*img, seg_nums@, centroids@, p as int),
            dev <= 441 * p,
        decreases n - p,
    {
        let p_pix = img.get(p);
        let s = seg_nums[p];
        let c = &centroids[s];
        dev = dev + c.dist(p_pix) as u64;
        let mut d: i32 = 1;
        let mut terms: u64 = 0;
        while d <= 4
            invariant
                img.wf(),
                n == img.length,
                seg_nums.len() == n,
                p < n,
                1 <= d <= 5,
                *p_pix == img.pixels[p as int],
                s == seg_nums[p as int],
                terms == edge_terms(*img, seg_nums@, p as int, d - 1),
                terms <= 441 * (d - 1),
            decreases 5 - d,
        {
            match img.neighbor(p, d) {
                Some(q) => {
                    if seg_nums[q] != s {
                        terms = terms + p_pix.dist(img.get(q)) as u64;
                    }
                },
                None => {},
            }
            d = d + 1;
        }
        edge_val = edge_val + terms;
        p = p + 1;
    }
    (edge_val, dev)
}

/// The fitness vector of a segmentation whose labels are below `num_segs`.
pub fn get_fitness(img: &Img, segments: &Vec<usize>, num_segs: usize) -> (r: (u64, u64, u64, usize))
    requires
        img.wf(),
        segments.len() == img.length,
        num_segs >= 1,
        labels_below(segments@, num_segs as nat),
    ensures
        (r.0 as nat, r.1 as nat, r.2 as nat, r.3 as nat) == fitness(*img, segments@, num_segs as nat),
{
    let centroids = get_centroids(img, segments, num_segs);
    let (edge_val, overall_dev) = get_measures(img, segments, &centroids);
    let n = num_segs as u64;
    (edge_val / n, overall_dev / n, segments.len() as u64 / n, num_segs)
}

} // verus!
