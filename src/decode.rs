//! Decoding raw label arrays into canonical 4-connected segments.

use vstd::prelude::*;
use vstd::arithmetic::div_mod::{lemma_fundamental_div_mod, lemma_fundamental_div_mod_converse};
use crate::image_proc::{Img, nbr, opp_dir, dir_offset};
use vstd::set_lib::{set_int_range, lemma_int_range, lemma_map_size};
use vstd::relations::injective_on;
use crate::graph::{
    graph_of, in_range, linked, symmetric, reach, is_path, step_ok, all_vertices,
    dense, first_seen, appears_before, labels_components, renumber,
};

verus! {

/// The neighbours of `p` in directions `1..=k` (north, east, south, west)
/// that carry the same label as `p`, in that order.
pub open spec fn same_nbrs(img: Img, seg: Seq<usize>, p: int, k: int) -> Seq<usize>
    decreases k,
{
    if k <= 0 {
        seq![]
    } else {
        let prev = same_nbrs(img, seg, p, k - 1);
        match img.nbr(p, k) {
            Some(q) => if seg[p] == seg[q] {
                prev.push(q as usize)
            } else {
                prev
            },
            None => prev,
        }
    }
}

/// The same-label adjacency of a label array: each pixel linked to its
/// 4-neighbours that carry its label.
pub open spec fn same_label_graph(img: Img, seg: Seq<usize>) -> Seq<Seq<usize>> {
    Seq::new(seg.len(), |p: int| same_nbrs(img, seg, p, 4))
}

/// `labels` with `n` labels is the decoding of `raw`: the labels are
/// `0..n`, numbered by first appearance, and two pixels share one exactly
/// when a 4-connected path of equal raw labels joins them.
pub open spec fn decoded(img: Img, raw: Seq<usize>, labels: Seq<usize>, n: nat) -> bool {
    &&& labels.len() == raw.len()
    &&& dense(labels, n)
    &&& first_seen(labels)
    &&& labels_components(same_label_graph(img, raw), labels)
}

/// A label array in canonical form with `n` segments: labels `0..n`
/// numbered by first appearance, each label one connected region.
pub open spec fn canonical(img: Img, seg: Seq<usize>, n: nat) -> bool {
    &&& dense(seg, n)
    &&& first_seen(seg)
    &&& forall|i: int, j: int|
        0 <= i < seg.len() && 0 <= j < seg.len() && #[trigger] seg[i] == #[trigger] seg[j] ==> reach(
            same_label_graph(img, seg),
            i,
            j,
        )
}

pub proof fn lemma_same_nbrs_contains(img: Img, seg: Seq<usize>, p: int, k: int, q: int)
    requires
        img.wf(),
        0 <= p < img.length,
        k <= 4,
    ensures
        same_nbrs(img, seg, p, k).contains(q as usize) && 0 <= q < img.length ==> exists|d: int|
            1 <= d <= k && #[trigger] img.nbr(p, d) == Some(q) && seg[p] == seg[q],
        (exists|d: int| 1 <= d <= k && #[trigger] img.nbr(p, d) == Some(q) && seg[p] == seg[q])
            ==> same_nbrs(img, seg, p, k).contains(q as usize),
    decreases k,
{
    if k > 0 {
        lemma_same_nbrs_contains(img, seg, p, k - 1, q);
        let prev = same_nbrs(img, seg, p, k - 1);
        match img.nbr(p, k) {
            Some(r) => {
                if seg[p] == seg[r] {
                    let cur = prev.push(r as usize);
                    assert(cur.last() == r as usize);
                    if cur.contains(q as usize) && 0 <= q < img.length && !prev.contains(q as usize) {
                        let i = choose|i: int| 0 <= i < cur.len() && #[trigger] cur[i] == q as usize;
                        if i < prev.len() {
                            assert(prev[i] == q as usize);
                        }
                        lemma_nbr_back(img, p, k, r);
                        assert(r == q);
                    }
                    if prev.contains(q as usize) {
                        let i = choose|i: int| 0 <= i < prev.len() && #[trigger] prev[i] == q as usize;
                        assert(cur[i] == q as usize);
                    }
                }
            },
            None => {},
        }
    }
}

pub proof fn lemma_same_nbrs_elem(img: Img, seg: Seq<usize>, p: int, k: int, j: int)
    requires
        img.wf(),
        0 <= p < img.length,
        k <= 4,
        0 <= j < same_nbrs(img, seg, p, k).len(),
    ensures
        exists|d: int|
            1 <= d <= k && #[trigger] img.nbr(p, d) == Some(same_nbrs(img, seg, p, k)[j] as int)
                && seg[p] == seg[same_nbrs(img, seg, p, k)[j] as int],
    decreases k,
{
    let prev = same_nbrs(img, seg, p, k - 1);
    if j < prev.len() {
        lemma_same_nbrs_elem(img, seg, p, k - 1, j);
        assert(same_nbrs(img, seg, p, k)[j] == prev[j]);
    } else {
        let q = img.nbr(p, k).unwrap();
        lemma_nbr_back(img, p, k, q);
        assert(same_nbrs(img, seg, p, k)[j] as int == q);
    }
}

proof fn lemma_coords(w: int, h: int, x: int, y: int)
    requires
        w > 0,
        0 <= x < w,
        0 <= y < h,
    ensures
        (y * w + x) % w == x,
        (y * w + x) / w == y,
        0 <= y * w + x < w * h,
{
    lemma_fundamental_div_mod_converse(y * w + x, w, y, x);
    assert(0 <= y * w + x < w * h) by (nonlinear_arith)
        requires
            0 <= x < w,
            0 <= y < h;
}

/// North and south, east and west neighbours point back at each other.
pub proof fn lemma_nbr_back(img: Img, p: int, d: int, q: int)
    requires
        img.wf(),
        0 <= p < img.length,
        1 <= d <= 4,
        img.nbr(p, d) == Some(q),
    ensures
        img.nbr(q, opp_dir(d)) == Some(p),
        0 <= q < img.length,
        q != p,
{
    let w = img.width as int;
    let h = img.height as int;
    lemma_fundamental_div_mod(p, w);
    let x = p % w;
    let y = p / w;
    assert(0 <= x < w);
    assert(0 <= y < h) by (nonlinear_arith)
        requires
            p == w * y + x,
            0 <= x < w,
            0 <= p < w * h,
            w > 0;
    let nx = x + dir_offset(d).0;
    let ny = y + dir_offset(d).1;
    lemma_coords(w, h, nx, ny);
    lemma_coords(w, h, x, y);
    assert(y * w + x == p) by (nonlinear_arith)
        requires p == w * y + x;
}

/// The pixel grid is connected: a set of pixels that holds pixel 0 and
/// every cardinal neighbour of its members holds every pixel.
pub proof fn lemma_grid_closed(img: Img, m: Set<int>)
    requires
        img.wf(),
        m.contains(0),
        forall|p: int, d: int|
            m.contains(p) && 1 <= d <= 4 && #[trigger] img.nbr(p, d) is Some ==> m.contains(img.nbr(p, d).unwrap()),
    ensures
        forall|p: int| 0 <= p < img.length ==> #[trigger] m.contains(p),
{
    let w = img.width as int;
    let h = img.height as int;
    assert forall|p: int| 0 <= p < img.length implies #[trigger] m.contains(p) by {
        lemma_fundamental_div_mod(p, w);
        let x = p % w;
        let y = p / w;
        assert(0 <= y < h) by (nonlinear_arith)
            requires
                p == w * y + x,
                0 <= x < w,
                0 <= p < w * h,
                w > 0;
        assert(y * w + x == p) by (nonlinear_arith)
            requires p == w * y + x;
        lemma_grid_reach(img, m, x, y);
    }
}

/// For a set of pixels that is neither empty nor all of them, some pixel
/// outside it has a cardinal neighbour inside it.
pub proof fn lemma_grid_cut(img: Img, inside: Set<int>, a: int, b: int)
    requires
        img.wf(),
        0 <= a < img.length && inside.contains(a),
        0 <= b < img.length && !inside.contains(b),
    ensures
        exists|v: int, d: int|
            0 <= v < img.length && !inside.contains(v) && 1 <= d <= 4 && #[trigger] img.nbr(v, d) is Some
                && inside.contains(img.nbr(v, d).unwrap()),
{
    if !(exists|v: int, d: int|
        0 <= v < img.length && !inside.contains(v) && 1 <= d <= 4 && #[trigger] img.nbr(v, d) is Some
            && inside.contains(img.nbr(v, d).unwrap())) {
        let outside = Set::new(|v: int| 0 <= v < img.length && !inside.contains(v));
        let ins = Set::new(|v: int| 0 <= v < img.length && inside.contains(v));
        if outside.contains(0) {
            assert forall|p: int, d: int|
                outside.contains(p) && 1 <= d <= 4 && #[trigger] img.nbr(p, d) is Some implies outside.contains(
                img.nbr(p, d).unwrap(),
            ) by {
                lemma_nbr_back(img, p, d, img.nbr(p, d).unwrap());
            }
            lemma_grid_closed(img, outside);
            assert(outside.contains(a));
        } else {
            assert forall|p: int, d: int|
                ins.contains(p) && 1 <= d <= 4 && #[trigger] img.nbr(p, d) is Some implies ins.contains(
                img.nbr(p, d).unwrap(),
            ) by {
                let q = img.nbr(p, d).unwrap();
                lemma_nbr_back(img, p, d, q);
                if !inside.contains(q) {
                    assert(img.nbr(q, opp_dir(d)) is Some);
                    assert(1 <= opp_dir(d) <= 4);
                }
            }
            lemma_grid_closed(img, ins);
            assert(ins.contains(b));
        }
    }
}

proof fn lemma_grid_reach(img: Img, m: Set<int>, x: int, y: int)
    requires
        img.wf(),
        m.contains(0),
        forall|p: int, d: int|
            m.contains(p) && 1 <= d <= 4 && #[trigger] img.nbr(p, d) is Some ==> m.contains(img.nbr(p, d).unwrap()),
        0 <= x < img.width,
        0 <= y < img.height,
    ensures
        m.contains(y * img.width + x),
    decreases y, x,
{
    let w = img.width as int;
    let h = img.height as int;
    if x > 0 {
        lemma_grid_reach(img, m, x - 1, y);
        let p = y * w + x - 1;
        lemma_coords(w, h, x - 1, y);
        assert(img.nbr(p, 2) == Some(y * w + x));
    } else if y > 0 {
        lemma_grid_reach(img, m, 0, y - 1);
        let p = (y - 1) * w;
        lemma_coords(w, h, 0, y - 1);
        assert((y - 1) * w + w == y * w) by (nonlinear_arith);
        assert(img.nbr(p, 3) == Some(y * w + x));
    } else {
        assert(y * w + x == 0) by (nonlinear_arith)
            requires x == 0, y == 0;
    }
}

pub proof fn lemma_graph_facts(img: Img, seg: Seq<usize>)
    requires
        img.wf(),
        seg.len() == img.length,
    ensures
        in_range(same_label_graph(img, seg)),
        symmetric(same_label_graph(img, seg)),
        forall|u: int, v: int| #[trigger] linked(same_label_graph(img, seg), u, v) ==> seg[u] == seg[v],
{
    let g = same_label_graph(img, seg);
    assert forall|u: int, j: int| 0 <= u < g.len() && 0 <= j < g[u].len() implies #[trigger] g[u][j] < g.len() by {
        let q = g[u][j] as int;
        lemma_same_nbrs_elem(img, seg, u, 4, j);
        let d = choose|d: int| 1 <= d <= 4 && #[trigger] img.nbr(u, d) == Some(q) && seg[u] == seg[q];
        lemma_nbr_back(img, u, d, q);
    }
    assert forall|u: int, v: int| #[trigger] linked(g, u, v) implies linked(g, v, u) && seg[u] == seg[v] by {
        lemma_same_nbrs_contains(img, seg, u, 4, v);
        let d = choose|d: int| 1 <= d <= 4 && #[trigger] img.nbr(u, d) == Some(v) && seg[u] == seg[v];
        lemma_nbr_back(img, u, d, v);
        assert(1 <= opp_dir(d) <= 4);
        lemma_same_nbrs_contains(img, seg, v, 4, u);
    }
}

/// Labels are constant along paths of the same-label graph.
pub proof fn lemma_reach_same_label(img: Img, seg: Seq<usize>, i: int, j: int)
    requires
        img.wf(),
        seg.len() == img.length,
        reach(same_label_graph(img, seg), i, j),
    ensures
        seg[i] == seg[j],
{
    let g = same_label_graph(img, seg);
    lemma_graph_facts(img, seg);
    let p = choose|path: Seq<int>|
        #[trigger] is_path(g, all_vertices(g), path) && path[0] == i && path.last() == j;
    lemma_path_same_label(img, seg, p, p.len() - 1);
}

proof fn lemma_path_same_label(img: Img, seg: Seq<usize>, p: Seq<int>, k: int)
    requires
        img.wf(),
        seg.len() == img.length,
        is_path(same_label_graph(img, seg), all_vertices(same_label_graph(img, seg)), p),
        forall|u: int, v: int| #[trigger] linked(same_label_graph(img, seg), u, v) ==> seg[u] == seg[v],
        0 <= k < p.len(),
    ensures
        seg[p[0]] == seg[p[k]],
    decreases k,
{
    if k > 0 {
        lemma_path_same_label(img, seg, p, k - 1);
        assert(step_ok(same_label_graph(img, seg), p, k - 1));
    }
}

/// Two labellings that group positions alike and both number labels by
/// first appearance are equal.
pub proof fn lemma_first_seen_unique(a: Seq<usize>, b: Seq<usize>, j: int)
    requires
        a.len() == b.len(),
        first_seen(a),
        first_seen(b),
        forall|i: int, k: int|
            0 <= i < a.len() && 0 <= k < a.len() ==> (#[trigger] a[i] == #[trigger] a[k] <==> b[i] == b[k]),
        j <= a.len(),
    ensures
        forall|i: int| 0 <= i < j ==> #[trigger] a[i] == b[i],
    decreases j,
{
    if j > 0 {
        lemma_first_seen_unique(a, b, j - 1);
        let m = j - 1;
        if a[m] < b[m] {
            assert(appears_before(b, a[m] as int, m));
            let i = choose|i: int| 0 <= i < m && #[trigger] b[i] == a[m] as int;
            assert(a[i] == b[i]);
        } else if b[m] < a[m] {
            assert(appears_before(a, b[m] as int, m));
            let i = choose|i: int| 0 <= i < m && #[trigger] a[i] == b[m] as int;
            assert(a[i] == b[i]);
        }
    }
}

/// The count of a dense labelling is determined by the labels.
pub proof fn lemma_dense_count(s: Seq<usize>, n: nat, m: nat)
    requires
        dense(s, n),
        dense(s, m),
    ensures
        n == m,
{
    if n < m {
        assert(appears_before(s, n as int, s.len() as int));
        let i = choose|i: int| 0 <= i < s.len() && #[trigger] s[i] == n as int;
        assert(s[i] < n);
    } else if m < n {
        assert(appears_before(s, m as int, s.len() as int));
        let i = choose|i: int| 0 <= i < s.len() && #[trigger] s[i] == m as int;
        assert(s[i] < m);
    }
}

/// Decoding a label array that is already canonical gives back the same
/// array and the same segment count.
pub proof fn lemma_decode_idempotent(img: Img, seg: Seq<usize>, n: nat, labels: Seq<usize>, m: nat)
    requires
        img.wf(),
        seg.len() == img.length,
        canonical(img, seg, n),
        decoded(img, seg, labels, m),
    ensures
        labels == seg,
        m == n,
{
    let g = same_label_graph(img, seg);
    assert forall|i: int, k: int|
        0 <= i < labels.len() && 0 <= k < labels.len() implies (#[trigger] labels[i] == #[trigger] labels[k]
        <==> seg[i] == seg[k]) by {
        if reach(g, i, k) {
            lemma_reach_same_label(img, seg, i, k);
        }
    }
    lemma_first_seen_unique(labels, seg, labels.len() as int);
    assert(labels =~= seg);
    lemma_dense_count(seg, n, m);
}

/// Decoding a label array whose labels `0..k` each form one connected
/// region, numbered in any order, keeps its partition into segments and
/// its segment count; only the numbering may change, to first appearance.
pub proof fn lemma_decode_keeps_segments(img: Img, seg: Seq<usize>, k: nat, labels: Seq<usize>, m: nat)
    requires
        img.wf(),
        seg.len() == img.length,
        dense(seg, k),
        forall|i: int, j: int|
            0 <= i < seg.len() && 0 <= j < seg.len() && #[trigger] seg[i] == #[trigger] seg[j] ==> reach(
                same_label_graph(img, seg),
                i,
                j,
            ),
        decoded(img, seg, labels, m),
    ensures
        forall|i: int, j: int|
            0 <= i < seg.len() && 0 <= j < seg.len() ==> (#[trigger] labels[i] == #[trigger] labels[j] <==> seg[i]
                == seg[j]),
        m == k,
{
    let g = same_label_graph(img, seg);
    assert forall|i: int, j: int|
        0 <= i < seg.len() && 0 <= j < seg.len() implies (#[trigger] labels[i] == #[trigger] labels[j] <==> seg[i]
        == seg[j]) by {
        if reach(g, i, j) {
            lemma_reach_same_label(img, seg, i, j);
        }
    }
    let wit = |l: int| choose|i: int| 0 <= i < seg.len() && seg[i] == l;
    let f = |l: int| labels[wit(l)] as int;
    let a = set_int_range(0, k as int);
    let b = set_int_range(0, m as int);
    assert forall|l: int| 0 <= l < k implies 0 <= #[trigger] wit(l) < seg.len() && seg[wit(l)] == l by {
        assert(appears_before(seg, l, seg.len() as int));
    }
    assert(injective_on(f, a)) by {
        assert forall|l1: int, l2: int| a.contains(l1) && a.contains(l2) && #[trigger] f(l1) == #[trigger] f(l2) implies l1
            == l2 by {
            assert(labels[wit(l1)] == labels[wit(l2)]);
        }
    }
    assert(a.map(f) =~= b) by {
        assert forall|t: int| b.contains(t) implies a.map(f).contains(t) by {
            assert(appears_before(labels, t, labels.len() as int));
            let i = choose|i: int| 0 <= i < labels.len() && #[trigger] labels[i] == t;
            let l = seg[i] as int;
            assert(seg[i] < k);
            assert(labels[wit(l)] == labels[i]);
            assert(a.contains(l) && f(l) == t);
        }
        assert forall|t: int| a.map(f).contains(t) implies b.contains(t) by {
            let l = choose|l: int| a.contains(l) && f(l) == t;
            assert(labels[wit(l)] < m);
        }
    }
    lemma_int_range(0, k as int);
    lemma_int_range(0, m as int);
    lemma_map_size(a, b, f);
}

/// A label array with one label throughout decodes to a single segment.
pub proof fn lemma_decode_uniform(img: Img, raw: Seq<usize>, labels: Seq<usize>, n: nat)
    requires
        img.wf(),
        raw.len() == img.length,
        forall|p: int| 0 <= p < raw.len() ==> #[trigger] raw[p] == raw[0],
        decoded(img, raw, labels, n),
    ensures
        n == 1,
        forall|p: int| 0 <= p < labels.len() ==> #[trigger] labels[p] == 0,
{
    let g = same_label_graph(img, raw);
    let m = Set::new(|p: int| reach(g, 0, p));
    crate::graph::lemma_reach_refl(g, all_vertices(g), 0);
    assert forall|p: int, d: int|
        m.contains(p) && 1 <= d <= 4 && #[trigger] img.nbr(p, d) is Some implies m.contains(img.nbr(p, d).unwrap()) by {
        let q = img.nbr(p, d).unwrap();
        crate::graph::lemma_reach_bounds(g, all_vertices(g), 0, p);
        lemma_nbr_back(img, p, d, q);
        lemma_same_nbrs_contains(img, raw, p, 4, q);
        assert(linked(g, p, q));
        crate::graph::lemma_reach_step(g, all_vertices(g), 0, p, q);
    }
    lemma_grid_closed(img, m);
    if labels[0] > 0 {
        assert(appears_before(labels, 0, 0));
    }
    assert forall|p: int| 0 <= p < labels.len() implies #[trigger] labels[p] == 0 by {
        assert(m.contains(p));
    }
    if n == 0 {
        assert(labels[0] < n);
    }
    if n > 1 {
        assert(appears_before(labels, 1, labels.len() as int));
        let i = choose|i: int| 0 <= i < labels.len() && #[trigger] labels[i] == 1;
        assert(labels[i] == 0);
    }
}

pub proof fn lemma_same_nbrs_agree(img: Img, a: Seq<usize>, b: Seq<usize>, p: int, k: int)
    requires
        img.wf(),
        0 <= p < img.length,
        a.len() == img.length,
        b.len() == img.length,
        k <= 4,
        forall|d: int|
            1 <= d <= 4 && #[trigger] img.nbr(p, d) is Some ==> (a[p] == a[img.nbr(p, d).unwrap()]
                <==> b[p] == b[img.nbr(p, d).unwrap()]),
    ensures
        same_nbrs(img, a, p, k) == same_nbrs(img, b, p, k),
    decreases k,
{
    if k > 0 {
        lemma_same_nbrs_agree(img, a, b, p, k - 1);
        if img.nbr(p, k) is Some {
            let q = img.nbr(p, k).unwrap();
            assert(a[p] == a[q] <==> b[p] == b[q]);
        }
    }
}

/// The decoder's output is canonical, with the same count; so decoding it
/// again changes nothing.
pub proof fn lemma_decoded_is_canonical(img: Img, raw: Seq<usize>, labels: Seq<usize>, n: nat)
    requires
        img.wf(),
        raw.len() == img.length,
        decoded(img, raw, labels, n),
    ensures
        canonical(img, labels, n),
        same_label_graph(img, labels) == same_label_graph(img, raw),
{
    let g = same_label_graph(img, raw);
    lemma_graph_facts(img, raw);
    assert forall|p: int| 0 <= p < labels.len() implies #[trigger] same_nbrs(img, labels, p, 4) == same_nbrs(img, raw, p, 4) by {
        assert forall|d: int| 1 <= d <= 4 && #[trigger] img.nbr(p, d) is Some implies (labels[p]
            == labels[img.nbr(p, d).unwrap()] <==> raw[p] == raw[img.nbr(p, d).unwrap()]) by {
            let q = img.nbr(p, d).unwrap();
            lemma_nbr_back(img, p, d, q);
            if raw[p] == raw[q] {
                lemma_same_nbrs_contains(img, raw, p, 4, q);
                assert(linked(g, p, q));
                crate::graph::lemma_reach_refl(g, all_vertices(g), p);
                crate::graph::lemma_reach_step(g, all_vertices(g), p, p, q);
            }
            if labels[p] == labels[q] {
                lemma_reach_same_label(img, raw, p, q);
            }
        }
        lemma_same_nbrs_agree(img, labels, raw, p, 4);
    }
    assert(same_label_graph(img, labels) =~= same_label_graph(img, raw));
}

/// The same-label adjacency list of a label array: for each pixel, its
/// north, east, south and west neighbours that carry its label.
pub fn make_adj_list(segmentation: &Vec<usize>, img: &Img) -> (adj: Vec<Vec<usize>>)
    requires
        img.wf(),
        segmentation.len() == img.length,
    ensures
        graph_of(adj@) == same_label_graph(*img, segmentation@),
{
    let n = img.length();
    let mut adj: Vec<Vec<usize>> = Vec::new();
    let mut i: usize = 0;
    while i < n
        invariant
            img.wf(),
            n == img.length,
            segmentation.len() == n,
            i <= n,
            adj.len() == i,
            forall|p: int| 0 <= p < i ==> #[trigger] adj[p]@ == same_nbrs(*img, segmentation@, p, 4),
        decreases n - i,
    {
        let mut row: Vec<usize> = Vec::new();
        let mut d: i32 = 1;
        while d <= 4
            invariant
                img.wf(),
                n == img.length,
                segmentation.len() == n,
                i < n,
                1 <= d <= 5,
                row@ == same_nbrs(*img, segmentation@, i as int, d - 1),
            decreases 5 - d,
        {
            if let Some(q) = img.neighbor(i, d) {
                if segmentation[i] == segmentation[q] {
                    row.push(q);
                }
            }
            d = d + 1;
        }
        adj.push(row);
        i = i + 1;
    }
    assert(graph_of(adj@) =~= same_label_graph(*img, segmentation@));
    adj
}

/// Decodes a raw label array: returns the canonical labels, the same-label
/// adjacency list and the segment count.
pub fn decode(img: &Img, raw: &Vec<usize>) -> (r: (Vec<usize>, Vec<Vec<usize>>, usize))
    requires
        img.wf(),
        raw.len() == img.length,
    ensures
        decoded(*img, raw@, r.0@, r.2 as nat),
        graph_of(r.1@) == same_label_graph(*img, r.0@),
        r.2 >= 1,
{
    let adj = make_adj_list(raw, img);
    proof {
        lemma_graph_facts(*img, raw@);
    }
    let (labels, n) = renumber(&adj);
    proof {
        assert(adj.len() == graph_of(adj@).len());
        assert(labels.len() == raw.len());
        assert(labels_components(same_label_graph(*img, raw@), labels@));
        lemma_decoded_is_canonical(*img, raw@, labels@, n as nat);
        assert(labels@[0] < n);
    }
    (labels, adj, n)
}

} // verus!
