//! The parent-direction encoding of a segmentation: a greedy spanning walk
//! that produces one, and the decoding of one into segments.

use vstd::prelude::*;
use crate::b_heap::BinaryHeap;
use crate::decode::{lemma_nbr_back, lemma_grid_cut};
use crate::fitness::{centroids_of, get_centroids};
use crate::graph::{
    graph_of, in_range, linked, symmetric, dense, first_seen, labels_components, renumber, reach,
    all_vertices, lemma_reach_refl, lemma_reach_step,
};
use crate::image_proc::{Img, Pix, MAX_PIXELS};

verus! {

/// A direction of the encoding: 0 (no parent) or a cardinal direction
/// whose neighbour exists.
pub open spec fn valid_dir(img: Img, v: int, d: int) -> bool {
    d == 0 || (1 <= d <= 4 && img.nbr(v, d) is Some)
}

/// Each pixel but `start` points at a parent that comes earlier in
/// `order`; so following the directions from any pixel reaches `start`.
pub open spec fn parents_earlier(img: Img, dirs: Seq<i32>, start: int, order: Seq<int>) -> bool {
    &&& order.len() == dirs.len()
    &&& forall|v: int|
        0 <= v < dirs.len() && v != start ==> #[trigger] img.nbr(v, dirs[v] as int) is Some && order[img.nbr(
            v,
            dirs[v] as int,
        ).unwrap()] < order[v]
}

/// A greedy walk over the pixel grid from `start`, with the colour
/// distance between neighbours as edge weight: a min-heap holds every
/// pixel not yet reached, keyed by the smallest path cost found so far;
/// each step takes the cheapest pixel, records the direction of the pixel
/// it was reached from, and relaxes its four neighbours. Returns each
/// pixel's parent direction, 0 for the start.
pub fn spanning_tree_directions(img: &Img, start: usize) -> (dirs: Vec<i32>)
    requires
        img.wf(),
        start < img.length,
    ensures
        dirs.len() == img.length,
        forall|v: int| 0 <= v < img.length ==> #[trigger] valid_dir(*img, v, dirs[v] as int),
        dirs[start as int] == 0,
        forall|v: int| 0 <= v < img.length && v != start ==> 1 <= #[trigger] dirs[v] <= 4,
        exists|order: Seq<int>| #[trigger] parents_earlier(*img, dirs@, start as int, order),
{
    let n = img.length();
    let mut dirs = crate::graph::filled(0i32, n);
    let mut heap = BinaryHeap::new();
    let mut v: usize = 0;
    while v < n
        invariant
            img.wf(),
            n == img.length,
            v <= n,
            heap.wf(),
            heap.len_spec() == v,
            forall|u: usize| #[trigger] heap@.contains_key(u) <==> u < v,
            forall|u: usize| #[trigger] heap@.contains_key(u) ==> heap@[u] == (u64::MAX, 0i32),
        decreases n - v,
    {
        heap.insert(v, u64::MAX, 0);
        v = v + 1;
    }
    heap.try_update_smallest_edge(start, 0, 0);
    let ghost mut order: Seq<int> = Seq::new(n as nat, |i: int| 0);
    proof {
        assert(441 * (n as int) < u64::MAX) by (nonlinear_arith)
            requires n <= MAX_PIXELS;
    }
    while !heap.is_empty()
        invariant
            img.wf(),
            n == img.length,
            441 * (n as int) < u64::MAX,
            dirs.len() == n,
            heap.wf(),
            heap.len_spec() <= n,
            forall|u: usize| #[trigger] heap@.contains_key(u) ==> u < n,
            forall|u: usize|
                #[trigger] heap@.contains_key(u) ==> valid_dir(*img, u as int, heap@[u].1 as int),
            forall|u: int| 0 <= u < n ==> #[trigger] valid_dir(*img, u, dirs[u] as int),
            start < n,
            dirs[start as int] == 0,
            heap@.contains_key(start) ==> heap@[start] == (0u64, 0i32),
            heap@.contains_key(start) ==> forall|u: usize|
                u < n ==> #[trigger] heap@.contains_key(u) && (u != start ==> heap@[u].0 == u64::MAX),
            forall|u: usize|
                #[trigger] heap@.contains_key(u) && u != start && heap@[u].0 < u64::MAX ==> 1
                    <= heap@[u].1 <= 4,
            forall|u: usize|
                #[trigger] heap@.contains_key(u) && heap@[u].0 < u64::MAX ==> heap@[u].0 <= 441 * (n
                    - heap.len_spec()),
            forall|v: int, e: int|
                0 <= v < n && !heap@.contains_key(v as usize) && 1 <= e <= 4 && #[trigger] img.nbr(v, e) is Some
                    && heap@.contains_key(img.nbr(v, e).unwrap() as usize) ==> heap@[img.nbr(
                    v,
                    e,
                ).unwrap() as usize].0 < u64::MAX,
            forall|v: int|
                0 <= v < n && !heap@.contains_key(v as usize) && v != start ==> 1 <= #[trigger] dirs[v] <= 4,
            order.len() == n,
            forall|u: usize|
                #[trigger] heap@.contains_key(u) && u != start && heap@[u].0 < u64::MAX ==> img.nbr(
                    u as int,
                    heap@[u].1 as int,
                ) is Some && !heap@.contains_key(img.nbr(u as int, heap@[u].1 as int).unwrap() as usize),
            forall|v: int|
                0 <= v < n && !heap@.contains_key(v as usize) ==> #[trigger] order[v] < n - heap.len_spec(),
            forall|v: int|
                0 <= v < n && !heap@.contains_key(v as usize) && v != start ==> #[trigger] img.nbr(
                    v,
                    dirs[v] as int,
                ) is Some && order[img.nbr(v, dirs[v] as int).unwrap()] < order[v] && !heap@.contains_key(
                    img.nbr(v, dirs[v] as int).unwrap() as usize,
                ),
        decreases heap.len_spec(),
    {
        let ghost h0 = heap@;
        let ghost len0 = heap.len_spec();
        let (dist, cur, dir) = heap.extract_max();
        proof {
            if cur != start {
                if !h0.contains_key(start) {
                    let inside = Set::new(|v: int| 0 <= v < n && h0.contains_key(v as usize));
                    lemma_grid_cut(*img, inside, cur as int, start as int);
                    let (v, e) = choose|v: int, e: int|
                        0 <= v < n && !inside.contains(v) && 1 <= e <= 4 && #[trigger] img.nbr(v, e) is Some
                            && inside.contains(img.nbr(v, e).unwrap());
                    let wq = img.nbr(v, e).unwrap();
                    lemma_nbr_back(*img, v, e, wq);
                    assert(h0.contains_key(wq as usize));
                    assert(h0[wq as usize].0 < u64::MAX);
                } else {
                    assert(h0.contains_key(start));
                    assert(dist <= h0[start].0);
                }
                assert(dist < u64::MAX);
            } else {
                assert(dist == 0);
            }
        }
        let ghost remaining = heap.len_spec();
        let ghost order_prev = order;
        proof {
            if cur != start {
                let p = img.nbr(cur as int, dir as int).unwrap();
                lemma_nbr_back(*img, cur as int, dir as int, p);
                assert(!h0.contains_key(p as usize));
                assert(p != cur);
            }
            assert forall|v: int|
                0 <= v < n && !h0.contains_key(v as usize) && v != start implies img.nbr(v, dirs[v] as int).unwrap()
                != cur by {
                assert(!h0.contains_key(img.nbr(v, dirs[v] as int).unwrap() as usize));
            }
            order = order.update(cur as int, n - len0);
        }
        let ghost dirs_old = dirs@;
        dirs.set(cur, dir);
        proof {
            assert forall|v: int|
                0 <= v < n && !heap@.contains_key(v as usize) && v != start implies #[trigger] img.nbr(
                v,
                dirs[v] as int,
            ) is Some && order[img.nbr(v, dirs[v] as int).unwrap()] < order[v] && !heap@.contains_key(
                img.nbr(v, dirs[v] as int).unwrap() as usize,
            ) by {
                if v == cur {
                    assert(h0[cur] == (dist, dir));
                    assert(dirs[v] == dir);
                    let p = img.nbr(cur as int, dir as int).unwrap();
                    lemma_nbr_back(*img, cur as int, dir as int, p);
                    assert(!h0.contains_key(p as usize));
                    assert(p != cur);
                    assert(order_prev[p] < n - len0);
                    assert(order[p] == order_prev[p]);
                    assert(order[v] == n - len0);
                } else {
                    assert(!h0.contains_key(v as usize));
                    assert(dirs[v] == dirs_old[v]);
                    let p = img.nbr(v, dirs[v] as int).unwrap();
                    assert(!h0.contains_key(p as usize));
                    lemma_nbr_back(*img, v, dirs[v] as int, p);
                    assert(p != cur as int);
                    assert(v != cur as int);
                    assert(order == order_prev.update(cur as int, n - len0));
                    assert(order_prev[p] < order_prev[v]);
                    assert(order[p] == order_prev[p]);
                    assert(order[v] == order_prev[v]);
                }
            }
        }
        let mut d: i32 = 1;
        while d <= 4
            invariant
                img.wf(),
                n == img.length,
                441 * (n as int) < u64::MAX,
                dirs.len() == n,
                cur < n,
                1 <= d <= 5,
                heap.wf(),
                heap.len_spec() == remaining,
                remaining < n,
                start < n,
                !heap@.contains_key(cur),
                dist <= 441 * (n - remaining - 1),
                dirs[start as int] == 0,
                forall|u: int| 0 <= u < n ==> #[trigger] valid_dir(*img, u, dirs[u] as int),
                heap@.contains_key(start) ==> heap@[start] == (0u64, 0i32),
                heap@.contains_key(start) ==> forall|u: usize|
                    u < n ==> #[trigger] heap@.contains_key(u) && (u != start ==> heap@[u].0 == u64::MAX),
                forall|u: usize| #[trigger] heap@.contains_key(u) ==> u < n,
                forall|u: usize|
                    #[trigger] heap@.contains_key(u) ==> valid_dir(*img, u as int, heap@[u].1 as int),
                forall|u: usize|
                    #[trigger] heap@.contains_key(u) && u != start && heap@[u].0 < u64::MAX ==> 1
                        <= heap@[u].1 <= 4,
                forall|u: usize|
                    #[trigger] heap@.contains_key(u) && heap@[u].0 < u64::MAX ==> heap@[u].0 <= 441 * (n
                        - remaining),
                forall|v: int, e: int|
                    0 <= v < n && v != cur && !heap@.contains_key(v as usize) && 1 <= e <= 4
                        && #[trigger] img.nbr(v, e) is Some && heap@.contains_key(img.nbr(v, e).unwrap() as usize)
                        ==> heap@[img.nbr(v, e).unwrap() as usize].0 < u64::MAX,
                forall|e: int|
                    1 <= e < d && #[trigger] img.nbr(cur as int, e) is Some && heap@.contains_key(
                        img.nbr(cur as int, e).unwrap() as usize,
                    ) ==> heap@[img.nbr(cur as int, e).unwrap() as usize].0 < u64::MAX,
                forall|v: int|
                    0 <= v < n && !heap@.contains_key(v as usize) && v != start ==> 1 <= #[trigger] dirs[v] <= 4,
                order.len() == n,
                forall|u: usize|
                    #[trigger] heap@.contains_key(u) && u != start && heap@[u].0 < u64::MAX ==> img.nbr(
                        u as int,
                        heap@[u].1 as int,
                    ) is Some && !heap@.contains_key(img.nbr(u as int, heap@[u].1 as int).unwrap() as usize),
                forall|v: int|
                    0 <= v < n && !heap@.contains_key(v as usize) ==> #[trigger] order[v] < n - remaining,
                forall|v: int|
                    0 <= v < n && !heap@.contains_key(v as usize) && v != start ==> #[trigger] img.nbr(
                        v,
                        dirs[v] as int,
                    ) is Some && order[img.nbr(v, dirs[v] as int).unwrap()] < order[v] && !heap@.contains_key(
                    img.nbr(v, dirs[v] as int).unwrap() as usize,
                ),
            decreases 5 - d,
        {
            if let Some((adj, w)) = img.dist_to_adj(cur, d) {
                if heap.contains(adj) {
                    proof {
                        lemma_nbr_back(*img, cur as int, d as int, adj as int);
                    }
                    assert(dist + w <= 441 * (n - remaining)) by (nonlinear_arith)
                        requires dist <= 441 * (n - remaining - 1), w <= 441;
                    let key = if dist > u64::MAX - w as u64 {
                        u64::MAX
                    } else {
                        dist + w as u64
                    };
                    heap.try_update_smallest_edge(adj, key, Img::get_opp_dir(d));
                }
            }
            d = d + 1;
        }
    }
    proof {
        assert(parents_earlier(*img, dirs@, start as int, order));
    }
    dirs
}

/// The graph of a direction encoding: each pixel linked both ways to the
/// neighbour its direction points at.
pub open spec fn tree_link(img: Img, edges: Seq<i32>, v: int, q: int) -> bool {
    1 <= edges[v] <= 4 && img.nbr(v, edges[v] as int) == Some(q)
}

/// `g` is the graph of the direction encoding `edges`: two pixels are
/// linked exactly when one points at the other.
pub open spec fn direction_graph(img: Img, edges: Seq<i32>, g: Seq<Seq<usize>>) -> bool {
    &&& g.len() == edges.len()
    &&& forall|a: int, b: int|
        0 <= a < g.len() && 0 <= b < g.len() ==> (#[trigger] linked(g, a, b) <==> tree_link(img, edges, a, b)
            || tree_link(img, edges, b, a))
}

/// Decodes a direction encoding: pixels joined by direction links form
/// one segment. Returns the labels (dense, by first appearance) and the
/// centroid colour of each segment.
pub fn find_segments(img: &Img, edges: &Vec<i32>) -> (r: (Vec<usize>, Vec<Pix>))
    requires
        img.wf(),
        edges.len() == img.length,
    ensures
        r.0.len() == img.length,
        dense(r.0@, r.1.len() as nat),
        first_seen(r.0@),
        forall|v: int, q: int|
            0 <= v < img.length && #[trigger] tree_link(*img, edges@, v, q) ==> r.0[v] == r.0[q],
        exists|g: Seq<Seq<usize>>| #[trigger] direction_graph(*img, edges@, g) && labels_components(g, r.0@),
        r.1@ == centroids_of(*img, r.0@, r.1.len() as nat),
{
    let n = img.length();
    let mut adj: Vec<Vec<usize>> = Vec::new();
    let mut i: usize = 0;
    while i < n
        invariant
            i <= n,
            adj.len() == i,
            forall|k: int| 0 <= k < i ==> (#[trigger] adj[k])@.len() == 0,
        decreases n - i,
    {
        adj.push(Vec::new());
        i = i + 1;
    }
    proof {
        assert forall|u: int, w: int| #[trigger] linked(graph_of(adj@), u, w) implies false by {
            assert(graph_of(adj@)[u] == adj[u]@);
        }
    }
    let mut v: usize = 0;
    while v < n
        invariant
            img.wf(),
            n == img.length,
            edges.len() == n,
            adj.len() == n,
            v <= n,
            in_range(graph_of(adj@)),
            symmetric(graph_of(adj@)),
            forall|u: int, q: int|
                0 <= u < v && #[trigger] tree_link(*img, edges@, u, q) ==> linked(graph_of(adj@), u, q),
            forall|a: int, b: int|
                #[trigger] linked(graph_of(adj@), a, b) ==> (a < v && tree_link(*img, edges@, a, b)) || (b < v
                    && tree_link(*img, edges@, b, a)),
        decreases n - v,
    {
        let e = edges[v];
        if 1 <= e && e <= 4 {
            if let Some(q) = img.neighbor(v, e) {
                proof {
                    lemma_nbr_back(*img, v as int, e as int, q as int);
                }
                let ghost g0 = graph_of(adj@);
                let mut row = adj[v].clone();
                row.push(q);
                adj.set(v, row);
                let mut back = adj[q].clone();
                back.push(v);
                adj.set(q, back);
                proof {
                    let g1 = graph_of(adj@);
                    assert(q != v);
                    assert(g1[v as int] == g0[v as int].push(q));
                    assert(g1[q as int] == g0[q as int].push(v));
                    assert forall|a: int, b: int| #[trigger] linked(g1, a, b) implies linked(g0, a, b) || (a == v
                        && b == q) || (a == q && b == v) by {
                        if a != v && a != q {
                            assert(g1[a] == g0[a]);
                        } else if a == v && b != q {
                            let j = choose|j: int| 0 <= j < g1[a].len() && g1[a][j] == b as usize;
                            assert(g0[a][j] == b as usize);
                        } else if a == q && b != v {
                            let j = choose|j: int| 0 <= j < g1[a].len() && g1[a][j] == b as usize;
                            assert(g0[a][j] == b as usize);
                        }
                    }
                    assert forall|a: int, b: int| #[trigger] linked(g0, a, b) implies linked(g1, a, b) by {
                        let j = choose|j: int| 0 <= j < g0[a].len() && g0[a][j] == b as usize;
                        if a == v || a == q {
                            assert(g1[a][j] == b as usize);
                        } else {
                            assert(g1[a] == g0[a]);
                        }
                    }
                    assert(g1[v as int].last() == q);
                    assert(g1[q as int].last() == v);
                    assert(linked(g1, v as int, q as int));
                    assert(linked(g1, q as int, v as int));
                    assert forall|a: int, b: int| #[trigger] linked(g1, a, b) implies linked(g1, b, a) by {
                        if linked(g0, a, b) {
                            assert(linked(g0, b, a));
                        }
                    }
                    assert forall|a: int, j: int| 0 <= a < g1.len() && 0 <= j < g1[a].len() implies #[trigger] g1[a][j] < g1.len() by {
                        if a == v as int && j == g1[a].len() - 1 {
                        } else if a == q as int && j == g1[a].len() - 1 {
                        } else if a == v as int || a == q as int {
                            assert(g1[a][j] == g0[a][j]);
                        } else {
                            assert(g1[a] == g0[a]);
                        }
                    }
                    assert forall|u: int, t: int| 0 <= u < v + 1 && #[trigger] tree_link(*img, edges@, u, t) implies linked(g1, u, t) by {
                        if u < v {
                            assert(linked(g0, u, t));
                        }
                    }
                    assert(tree_link(*img, edges@, v as int, q as int));
                    assert forall|a: int, b: int| #[trigger] linked(g1, a, b) implies (a < v + 1 && tree_link(*img, edges@, a, b))
                        || (b < v + 1 && tree_link(*img, edges@, b, a)) by {
                        if linked(g0, a, b) {
                        }
                    }
                }
            }
        }
        v = v + 1;
    }
    let (labels, count) = renumber(&adj);
    proof {
        let g = graph_of(adj@);
        assert forall|a: int, b: int| 0 <= a < g.len() && 0 <= b < g.len() implies (#[trigger] linked(g, a, b)
            <==> tree_link(*img, edges@, a, b) || tree_link(*img, edges@, b, a)) by {
            if tree_link(*img, edges@, a, b) {
                assert(linked(g, a, b));
            }
            if tree_link(*img, edges@, b, a) {
                assert(linked(g, b, a));
            }
        }
        assert(direction_graph(*img, edges@, g));
        assert forall|u: int, t: int| 0 <= u < n && #[trigger] tree_link(*img, edges@, u, t) implies labels[u] == labels[t] by {
            assert(linked(g, u, t));
            lemma_reach_refl(g, all_vertices(g), u);
            lemma_reach_step(g, all_vertices(g), u, u, t);
            assert(reach(g, u, t));
        }
        assert forall|k: int| 0 <= k < labels.len() implies #[trigger] labels@[k] < count by {}
    }
    let centroids = get_centroids(img, &labels, count);
    (labels, centroids)
}

} // verus!
