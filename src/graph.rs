//! Reachability in an adjacency-list graph, flood filling and
//! connected-component numbering.

use vstd::prelude::*;

verus! {

/// The graph held by an adjacency list, as sequences.
pub open spec fn graph_of(adj: Seq<Vec<usize>>) -> Seq<Seq<usize>> {
    adj.map_values(|v: Vec<usize>| v@)
}

/// Every listed neighbour is a vertex of the graph.
pub open spec fn in_range(g: Seq<Seq<usize>>) -> bool {
    forall|u: int, j: int|
        0 <= u < g.len() && 0 <= j < g[u].len() ==> #[trigger] g[u][j] < g.len()
}

/// `v` is listed as a neighbour of `u`.
pub open spec fn linked(g: Seq<Seq<usize>>, u: int, v: int) -> bool {
    0 <= u < g.len() && 0 <= v < g.len() && g[u].contains(v as usize)
}

pub open spec fn symmetric(g: Seq<Seq<usize>>) -> bool {
    forall|u: int, v: int| #[trigger] linked(g, u, v) ==> linked(g, v, u)
}

/// The vertices whose flag is set.
pub open spec fn flagged(f: Seq<bool>) -> Set<int> {
    Set::new(|v: int| 0 <= v < f.len() && f[v])
}

/// All vertices of `g`.
pub open spec fn all_vertices(g: Seq<Seq<usize>>) -> Set<int> {
    Set::new(|v: int| 0 <= v < g.len())
}

/// Consecutive vertices `i` and `i + 1` of `path` are linked.
pub open spec fn step_ok(g: Seq<Seq<usize>>, path: Seq<int>, i: int) -> bool {
    linked(g, path[i], path[i + 1])
}

/// `path` is a walk along links of `g` that stays inside `within`.
pub open spec fn is_path(g: Seq<Seq<usize>>, within: Set<int>, path: Seq<int>) -> bool {
    &&& path.len() > 0
    &&& forall|i: int| 0 <= i < path.len() ==> within.contains(#[trigger] path[i])
    &&& forall|i: int| 0 <= i < path.len() - 1 ==> #[trigger] step_ok(g, path, i)
    &&& 0 <= path[0] < g.len()
}

/// `t` can be reached from `s` by a walk inside `within`.
pub open spec fn reach_in(g: Seq<Seq<usize>>, within: Set<int>, s: int, t: int) -> bool {
    exists|path: Seq<int>|
        #[trigger] is_path(g, within, path) && path[0] == s && path.last() == t
}

/// `t` can be reached from `s`.
pub open spec fn reach(g: Seq<Seq<usize>>, s: int, t: int) -> bool {
    reach_in(g, all_vertices(g), s, t)
}

pub proof fn lemma_reach_refl(g: Seq<Seq<usize>>, within: Set<int>, s: int)
    requires
        0 <= s < g.len(),
        within.contains(s),
    ensures
        reach_in(g, within, s, s),
{
    let path = seq![s];
    assert(is_path(g, within, path));
}

pub proof fn lemma_reach_step(g: Seq<Seq<usize>>, within: Set<int>, s: int, v: int, w: int)
    requires
        reach_in(g, within, s, v),
        linked(g, v, w),
        within.contains(w),
    ensures
        reach_in(g, within, s, w),
{
    let path = choose|path: Seq<int>|
        #[trigger] is_path(g, within, path) && path[0] == s && path.last() == v;
    let p2 = path.push(w);
    assert forall|i: int| 0 <= i < p2.len() - 1 implies #[trigger] step_ok(g, p2, i) by {
        if i < path.len() - 1 {
            assert(step_ok(g, path, i));
        }
    }
    assert(is_path(g, within, p2));
}

pub proof fn lemma_reach_trans(g: Seq<Seq<usize>>, within: Set<int>, s: int, v: int, t: int)
    requires
        reach_in(g, within, s, v),
        reach_in(g, within, v, t),
    ensures
        reach_in(g, within, s, t),
{
    let p1 = choose|path: Seq<int>|
        #[trigger] is_path(g, within, path) && path[0] == s && path.last() == v;
    let p2 = choose|path: Seq<int>|
        #[trigger] is_path(g, within, path) && path[0] == v && path.last() == t;
    let p = p1 + p2.drop_first();
    assert forall|i: int| 0 <= i < p.len() implies within.contains(#[trigger] p[i]) by {
        if i >= p1.len() {
            assert(p[i] == p2[i - p1.len() + 1]);
        }
    }
    assert forall|i: int| 0 <= i < p.len() - 1 implies #[trigger] step_ok(g, p, i) by {
        if i < p1.len() - 1 {
            assert(step_ok(g, p1, i));
        } else if i == p1.len() - 1 {
            assert(step_ok(g, p2, 0));
        } else {
            let k = i - p1.len() + 1;
            assert(step_ok(g, p2, k));
        }
    }
    assert(is_path(g, within, p));
}

pub proof fn lemma_reach_sym(g: Seq<Seq<usize>>, within: Set<int>, s: int, t: int)
    requires
        symmetric(g),
        reach_in(g, within, s, t),
    ensures
        reach_in(g, within, t, s),
{
    let p = choose|path: Seq<int>|
        #[trigger] is_path(g, within, path) && path[0] == s && path.last() == t;
    let r = p.reverse();
    assert forall|i: int| 0 <= i < r.len() implies within.contains(#[trigger] r[i]) by {
        assert(r[i] == p[p.len() - 1 - i]);
    }
    assert forall|i: int| 0 <= i < r.len() - 1 implies #[trigger] step_ok(g, r, i) by {
        let k = p.len() - 2 - i;
        assert(step_ok(g, p, k));
    }
    if p.len() > 1 {
        assert(step_ok(g, p, p.len() - 2));
    }
    assert(is_path(g, within, r));
}

pub proof fn lemma_reach_widen(g: Seq<Seq<usize>>, a: Set<int>, b: Set<int>, s: int, t: int)
    requires
        reach_in(g, a, s, t),
        a.subset_of(b),
    ensures
        reach_in(g, b, s, t),
{
    let p = choose|path: Seq<int>|
        #[trigger] is_path(g, a, path) && path[0] == s && path.last() == t;
    assert(is_path(g, b, p));
}

pub proof fn lemma_reach_bounds(g: Seq<Seq<usize>>, within: Set<int>, s: int, t: int)
    requires
        reach_in(g, within, s, t),
    ensures
        0 <= s < g.len(),
        0 <= t < g.len(),
        within.contains(s),
        within.contains(t),
{
    let p = choose|path: Seq<int>|
        #[trigger] is_path(g, within, path) && path[0] == s && path.last() == t;
    assert(within.contains(p[p.len() - 1]));
    if p.len() > 1 {
        assert(step_ok(g, p, p.len() - 2));
    }
}

/// A set that holds `s` and is closed under links inside `within` holds
/// everything reachable from `s` inside `within`.
pub proof fn lemma_closed_holds_reach(g: Seq<Seq<usize>>, within: Set<int>, m: Set<int>, s: int, t: int)
    requires
        m.contains(s),
        forall|v: int, w: int|
            m.contains(v) && #[trigger] linked(g, v, w) && within.contains(w) ==> m.contains(w),
        reach_in(g, within, s, t),
    ensures
        m.contains(t),
{
    let p = choose|path: Seq<int>|
        #[trigger] is_path(g, within, path) && path[0] == s && path.last() == t;
    lemma_closed_holds_path(g, within, m, p, p.len() - 1);
}

proof fn lemma_closed_holds_path(g: Seq<Seq<usize>>, within: Set<int>, m: Set<int>, p: Seq<int>, i: int)
    requires
        is_path(g, within, p),
        m.contains(p[0]),
        forall|v: int, w: int|
            m.contains(v) && #[trigger] linked(g, v, w) && within.contains(w) ==> m.contains(w),
        0 <= i < p.len(),
    ensures
        m.contains(p[i]),
    decreases i,
{
    if i > 0 {
        lemma_closed_holds_path(g, within, m, p, i - 1);
        assert(step_ok(g, p, i - 1));
    }
}

/// In a symmetric graph, a walk that starts outside a link-closed set `a`
/// never enters it.
pub proof fn lemma_reach_avoids_closed(g: Seq<Seq<usize>>, a: Set<int>, s: int, t: int)
    requires
        symmetric(g),
        forall|v: int, w: int| a.contains(v) && #[trigger] linked(g, v, w) ==> a.contains(w),
        !a.contains(s),
        reach(g, s, t),
    ensures
        reach_in(g, all_vertices(g).difference(a), s, t),
{
    let p = choose|path: Seq<int>|
        #[trigger] is_path(g, all_vertices(g), path) && path[0] == s && path.last() == t;
    let u = all_vertices(g).difference(a);
    assert forall|k: int| 0 <= k < p.len() implies u.contains(#[trigger] p[k]) by {
        lemma_path_avoids(g, a, p, k);
        assert(all_vertices(g).contains(p[k]));
    }
    assert(is_path(g, u, p));
}

proof fn lemma_path_avoids(g: Seq<Seq<usize>>, a: Set<int>, p: Seq<int>, i: int)
    requires
        symmetric(g),
        forall|v: int, w: int| a.contains(v) && #[trigger] linked(g, v, w) ==> a.contains(w),
        is_path(g, all_vertices(g), p),
        !a.contains(p[0]),
        0 <= i < p.len(),
    ensures
        !a.contains(p[i]),
    decreases i,
{
    if i > 0 {
        lemma_path_avoids(g, a, p, i - 1);
        assert(step_ok(g, p, i - 1));
        assert(linked(g, p[i], p[i - 1]));
    }
}

/// The vertices reachable from `s` inside `within`.
pub open spec fn region(g: Seq<Seq<usize>>, within: Set<int>, s: int) -> Set<int> {
    Set::new(|v: int| reach_in(g, within, s, v))
}

/// A walk from `s` inside `within` stays inside the region it reaches.
pub proof fn lemma_reach_in_region(g: Seq<Seq<usize>>, within: Set<int>, s: int, t: int)
    requires
        reach_in(g, within, s, t),
    ensures
        reach_in(g, region(g, within, s), s, t),
{
    let p = choose|path: Seq<int>|
        #[trigger] is_path(g, within, path) && path[0] == s && path.last() == t;
    assert forall|k: int| 0 <= k < p.len() implies region(g, within, s).contains(#[trigger] p[k]) by {
        let q = p.subrange(0, k + 1);
        assert forall|i: int| 0 <= i < q.len() - 1 implies #[trigger] step_ok(g, q, i) by {
            assert(step_ok(g, p, i));
        }
        assert(is_path(g, within, q));
    }
    assert(is_path(g, region(g, within, s), p));
}

/// Number of set flags.
pub open spec fn count_true(f: Seq<bool>) -> nat
    decreases f.len(),
{
    if f.len() == 0 {
        0
    } else {
        count_true(f.drop_last()) + if f.last() {
            1nat
        } else {
            0nat
        }
    }
}

pub proof fn lemma_count_clear(f: Seq<bool>, i: int)
    requires
        0 <= i < f.len(),
        f[i],
    ensures
        count_true(f.update(i, false)) + 1 == count_true(f),
    decreases f.len(),
{
    let f2 = f.update(i, false);
    if i < f.len() - 1 {
        assert(f2.drop_last() =~= f.drop_last().update(i, false));
        lemma_count_clear(f.drop_last(), i);
    } else {
        assert(f2.drop_last() =~= f.drop_last());
    }
}

pub proof fn lemma_count_bound(f: Seq<bool>)
    ensures
        count_true(f) <= f.len(),
    decreases f.len(),
{
    if f.len() > 0 {
        lemma_count_bound(f.drop_last());
    }
}

/// Clearing flags never raises the count.
pub proof fn lemma_count_mono(a: Seq<bool>, b: Seq<bool>)
    requires
        a.len() == b.len(),
        forall|i: int| 0 <= i < b.len() && #[trigger] b[i] ==> a[i],
    ensures
        count_true(b) <= count_true(a),
    decreases a.len(),
{
    if a.len() > 0 {
        lemma_count_mono(a.drop_last(), b.drop_last());
    }
}

/// Every listed neighbour of `v` whose flag was set in `free0` has been
/// cleared in `free`.
pub open spec fn closed_at(g: Seq<Seq<usize>>, free0: Seq<bool>, free: Seq<bool>, v: int) -> bool {
    forall|j: int| 0 <= j < g[v].len() && free0[g[v][j] as int] ==> !free[#[trigger] g[v][j] as int]
}

/// Gives `label` to every vertex reachable from `s` through vertices still
/// flagged in `free`, and clears their flags. The start must itself still
/// be flagged: every caller floods from a vertex no earlier flood reached.
pub fn flood(s: usize, label: usize, adj: &Vec<Vec<usize>>, free: &mut Vec<bool>, seg: &mut Vec<usize>)
    requires
        in_range(graph_of(adj@)),
        old(free).len() == adj.len(),
        old(seg).len() == adj.len(),
        s < adj.len(),
        old(free)[s as int],
    ensures
        final(free).len() == adj.len(),
        final(seg).len() == adj.len(),
        forall|v: int|
            0 <= v < adj.len() ==> #[trigger] final(free)[v] == (old(free)[v] && !reach_in(
                graph_of(adj@),
                flagged(old(free)@),
                s as int,
                v,
            )),
        forall|v: int|
            0 <= v < adj.len() ==> #[trigger] final(seg)[v] == if reach_in(
                graph_of(adj@),
                flagged(old(free)@),
                s as int,
                v,
            ) {
                label
            } else {
                old(seg)[v]
            },
{
    let ghost g = graph_of(adj@);
    let ghost f0 = free@;
    let ghost u0 = flagged(free@);
    let ghost seg0 = seg@;
    let ghost n = adj.len();
    proof {
        lemma_reach_refl(g, u0, s as int);
        lemma_count_clear(free@, s as int);
    }
    free.set(s, false);
    seg.set(s, label);
    let mut stack: Vec<usize> = Vec::new();
    stack.push(s);
    assert(stack@[0] == s);
    assert forall|v: int| 0 <= v < n && f0[v] && !#[trigger] free[v] implies v == s by {
        if v != s {
            assert(free[v] == f0[v]);
        }
    }
    while stack.len() > 0
        invariant
            g == graph_of(adj@),
            n == adj.len(),
            in_range(g),
            f0.len() == n,
            u0 == flagged(f0),
            seg0.len() == n,
            free.len() == n,
            seg.len() == n,
            s < n,
            f0[s as int] && !free[s as int],
            forall|v: int| 0 <= v < n && #[trigger] free[v] ==> f0[v],
            forall|v: int| 0 <= v < n && f0[v] && !#[trigger] free[v] ==> reach_in(g, u0, s as int, v),
            forall|v: int|
                0 <= v < n ==> #[trigger] seg[v] == if f0[v] && !free[v] {
                    label
                } else {
                    seg0[v]
                },
            forall|k: int|
                0 <= k < stack.len() ==> #[trigger] stack[k] < n && f0[stack[k] as int]
                    && !free[stack[k] as int],
            forall|v: int|
                0 <= v < n && f0[v] && !#[trigger] free[v] ==> stack@.contains(v as usize)
                    || closed_at(g, f0, free@, v),
        decreases 2 * count_true(free@) + stack.len(),
    {
        let ghost measure = 2 * count_true(free@) + stack.len();
        let ghost stack_before = stack@;
        let v = stack.pop().unwrap();
        assert(stack_before[stack_before.len() - 1] == v);
        assert forall|u: int|
            0 <= u < n && f0[u] && !#[trigger] free[u] && u != v implies stack@.contains(u as usize)
            || closed_at(g, f0, free@, u) by {
            if stack_before.contains(u as usize) {
                let k = choose|k: int| 0 <= k < stack_before.len() && stack_before[k] == u as usize;
                assert(stack@[k] == u as usize);
            }
        }
        assert(g[v as int] == adj[v as int]@);
        let mut j: usize = 0;
        while j < adj[v].len()
            invariant
                g == graph_of(adj@),
                n == adj.len(),
                in_range(g),
                f0.len() == n,
                u0 == flagged(f0),
                seg0.len() == n,
                free.len() == n,
                seg.len() == n,
                s < n,
                v < n,
                g[v as int] == adj[v as int]@,
                f0[s as int] && !free[s as int],
                f0[v as int] && !free[v as int],
                2 * count_true(free@) + stack.len() < measure,
                forall|w: int| 0 <= w < n && #[trigger] free[w] ==> f0[w],
                forall|w: int|
                    0 <= w < n && f0[w] && !#[trigger] free[w] ==> reach_in(g, u0, s as int, w),
                forall|w: int|
                    0 <= w < n ==> #[trigger] seg[w] == if f0[w] && !free[w] {
                        label
                    } else {
                        seg0[w]
                    },
                forall|k: int|
                    0 <= k < stack.len() ==> #[trigger] stack[k] < n && f0[stack[k] as int]
                        && !free[stack[k] as int],
                forall|u: int|
                    0 <= u < n && f0[u] && !#[trigger] free[u] && u != v ==> stack@.contains(
                        u as usize,
                    ) || closed_at(g, f0, free@, u),
                forall|jj: int|
                    0 <= jj < j && f0[g[v as int][jj] as int] ==> !free[#[trigger] g[v as int][jj] as int],
            decreases adj[v as int].len() - j,
        {
            let w = adj[v][j];
            assert(g[v as int][j as int] == w);
            if free[w] {
                proof {
                    assert(linked(g, v as int, w as int)) by {
                        assert(g[v as int][j as int] == w);
                    }
                    assert(u0.contains(w as int));
                    lemma_reach_step(g, u0, s as int, v as int, w as int);
                    lemma_count_clear(free@, w as int);
                }
                let ghost free_before = free@;
                let ghost st = stack@;
                free.set(w, false);
                seg.set(w, label);
                stack.push(w);
                assert forall|u: int|
                    0 <= u < n && f0[u] && !#[trigger] free[u] && u != v implies stack@.contains(
                        u as usize,
                    ) || closed_at(g, f0, free@, u) by {
                    if u == w {
                        assert(stack@[stack@.len() - 1] == w);
                    } else if closed_at(g, f0, free_before, u) {
                        assert forall|jj: int|
                            0 <= jj < g[u].len() && f0[g[u][jj] as int] implies !free[#[trigger] g[u][jj] as int] by {
                            assert(!free_before[g[u][jj] as int]);
                        }
                    } else {
                        assert(free_before[u] == free[u]);
                        assert(st.contains(u as usize));
                        let k = choose|k: int| 0 <= k < st.len() && st[k] == u as usize;
                        assert(stack@[k] == u as usize);
                    }
                }
            }
            j = j + 1;
        }
        assert(closed_at(g, f0, free@, v as int));
    }
    proof {
        let m = Set::new(|v: int| 0 <= v < n && f0[v] && !free[v]);
        assert(stack@.len() == 0);
        assert forall|v: int, w: int|
            m.contains(v) && #[trigger] linked(g, v, w) && u0.contains(w) implies m.contains(w) by {
            assert(closed_at(g, f0, free@, v));
            let j = choose|j: int| 0 <= j < g[v].len() && g[v][j] == w as usize;
            assert(g[v][j] == w as usize);
        }
        assert forall|t: int| 0 <= t < n && reach_in(g, u0, s as int, t) implies m.contains(t) by {
            lemma_closed_holds_reach(g, u0, m, s as int, t);
        }
        assert forall|t: int| 0 <= t < n && reach_in(g, u0, s as int, t) implies f0[t] by {
            lemma_reach_bounds(g, u0, s as int, t);
        }
        assert forall|t: int| 0 <= t < n implies #[trigger] free[t] == (f0[t] && !reach_in(g, u0, s as int, t)) by {
            if reach_in(g, u0, s as int, t) {
                lemma_closed_holds_reach(g, u0, m, s as int, t);
            }
        }
    }
}

/// Labels are numbered by first appearance: every label below `labels[j]`
/// already appears before position `j`.
pub open spec fn first_seen(labels: Seq<usize>) -> bool {
    forall|j: int, k: int|
        0 <= j < labels.len() && 0 <= k < labels[j] ==> #[trigger] appears_before(labels, k, j)
}

/// Label `k` is held by some position before `j`.
pub open spec fn appears_before(labels: Seq<usize>, k: int, j: int) -> bool {
    exists|i: int| 0 <= i < j && #[trigger] labels[i] == k
}

/// The labels used are exactly `0..n`.
pub open spec fn dense(labels: Seq<usize>, n: nat) -> bool {
    &&& forall|i: int| 0 <= i < labels.len() ==> #[trigger] labels[i] < n
    &&& forall|k: int| 0 <= k < n ==> #[trigger] appears_before(labels, k, labels.len() as int)
}

/// Two vertices share a label exactly when one can be reached from the other.
pub open spec fn labels_components(g: Seq<Seq<usize>>, labels: Seq<usize>) -> bool {
    forall|i: int, j: int|
        0 <= i < labels.len() && 0 <= j < labels.len() ==> (#[trigger] labels[i] == #[trigger] labels[j]
            <==> reach(g, i, j))
}

/// A vector of `n` copies of `x`.
pub fn filled<T: Copy>(x: T, n: usize) -> (v: Vec<T>)
    ensures
        v.len() == n,
        forall|i: int| 0 <= i < n ==> #[trigger] v[i] == x,
{
    let mut v: Vec<T> = Vec::new();
    let mut i: usize = 0;
    while i < n
        invariant
            i <= n,
            v.len() == i,
            forall|k: int| 0 <= k < i ==> #[trigger] v[k] == x,
        decreases n - i,
    {
        v.push(x);
        i = i + 1;
    }
    v
}

/// Numbers the connected components of a symmetric graph `0, 1, ...` in the
/// order of their smallest vertex, and returns each vertex's number with
/// the number of components.
pub fn renumber(adj: &Vec<Vec<usize>>) -> (r: (Vec<usize>, usize))
    requires
        in_range(graph_of(adj@)),
        symmetric(graph_of(adj@)),
    ensures
        r.0.len() == adj.len(),
        dense(r.0@, r.1 as nat),
        first_seen(r.0@),
        labels_components(graph_of(adj@), r.0@),
{
    let ghost g = graph_of(adj@);
    let n = adj.len();
    let mut free = filled(true, n);
    let mut seg = filled(0usize, n);
    let mut cur: usize = 0;
    let ghost mut seeds: Seq<int> = seq![];
    let mut s: usize = 0;
    while s < n
        invariant
            g == graph_of(adj@),
            n == adj.len(),
            in_range(g),
            symmetric(g),
            free.len() == n,
            seg.len() == n,
            cur == seeds.len(),
            cur <= s <= n,
            forall|v: int| 0 <= v < s ==> !#[trigger] free[v],
            forall|v: int, w: int| !free[v] && #[trigger] linked(g, v, w) ==> !free[w],
            forall|k: int|
                0 <= k < cur ==> 0 <= #[trigger] seeds[k] < s && !free[seeds[k]] && seg[seeds[k]] == k,
            forall|k1: int, k2: int| 0 <= k1 < k2 < cur ==> #[trigger] seeds[k1] < #[trigger] seeds[k2],
            forall|v: int|
                0 <= v < n && !#[trigger] free[v] ==> seg[v] < cur && seeds[seg[v] as int] <= v && reach(
                    g,
                    seeds[seg[v] as int],
                    v,
                ),
            forall|k: int, w: int|
                0 <= k < cur && 0 <= w < n && #[trigger] reach(g, seeds[k], w) ==> !free[w] && seg[w] == k,
        decreases n - s,
    {
        if free[s] {
            let ghost free0 = free@;
            let ghost seg0 = seg@;
            let ghost a = Set::new(|v: int| 0 <= v < n && !free0[v]);
            let ghost u0 = flagged(free0);
            proof {
                assert(u0 =~= all_vertices(g).difference(a));
                assert forall|v: int, w: int| a.contains(v) && #[trigger] linked(g, v, w) implies a.contains(w) by {}
                assert forall|t: int| reach(g, s as int, t) implies reach_in(g, u0, s as int, t) by {
                    lemma_reach_avoids_closed(g, a, s as int, t);
                }
                assert forall|t: int| reach_in(g, u0, s as int, t) implies reach(g, s as int, t) by {
                    lemma_reach_widen(g, u0, all_vertices(g), s as int, t);
                }
            }
            flood(s, cur, adj, &mut free, &mut seg);
            proof {
                lemma_reach_refl(g, all_vertices(g), s as int);
                lemma_reach_refl(g, u0, s as int);
                let seeds1 = seeds.push(s as int);
                assert forall|v: int, w: int| !free[v] && #[trigger] linked(g, v, w) implies !free[w] by {
                    if free0[v] {
                        assert(reach_in(g, u0, s as int, v));
                        assert(reach(g, s as int, v));
                        lemma_reach_step(g, all_vertices(g), s as int, v, w);
                        lemma_reach_avoids_closed(g, a, s as int, w);
                        assert(reach_in(g, u0, s as int, w));
                    } else {
                        assert(!free0[w]);
                    }
                }
                assert forall|v: int|
                    0 <= v < n && !#[trigger] free[v] implies seg[v] < cur + 1 && seeds1[seg[v] as int] <= v
                    && reach(g, seeds1[seg[v] as int], v) by {
                    if free0[v] {
                        assert(reach(g, s as int, v));
                    } else {
                        if reach_in(g, u0, s as int, v) {
                            lemma_reach_bounds(g, u0, s as int, v);
                        }
                        assert(seeds1[seg[v] as int] == seeds[seg[v] as int]);
                    }
                }
                assert forall|k: int, w: int|
                    0 <= k < cur + 1 && 0 <= w < n && #[trigger] reach(g, seeds1[k], w) implies !free[w]
                    && seg[w] == k by {
                    if k < cur {
                        assert(seeds1[k] == seeds[k]);
                        assert(!free0[w]);
                        if reach_in(g, u0, s as int, w) {
                            lemma_reach_bounds(g, u0, s as int, w);
                        }
                    }
                }
                assert forall|k: int| 0 <= k < cur + 1 implies 0 <= #[trigger] seeds1[k] < s + 1
                    && !free[seeds1[k]] && seg[seeds1[k]] == k by {
                    if k < cur {
                        assert(!free0[seeds[k]]);
                        if reach_in(g, u0, s as int, seeds[k]) {
                            lemma_reach_bounds(g, u0, s as int, seeds[k]);
                        }
                    }
                }
                seeds = seeds1;
            }
            cur = cur + 1;
        }
        s = s + 1;
    }
    proof {
        assert forall|j: int, k: int| 0 <= j < n && 0 <= k < seg[j] implies #[trigger] appears_before(seg@, k, j) by {
            assert(!free[j]);
            assert(seg[j] < cur);
            assert(seeds[k] < seeds[seg[j] as int]);
            assert(seg@[seeds[k]] == k);
        }
        assert forall|k: int| 0 <= k < cur implies #[trigger] appears_before(seg@, k, n as int) by {
            assert(seg@[seeds[k]] == k);
        }
        assert forall|i: int| 0 <= i < n implies #[trigger] seg@[i] < cur by {
            assert(!free[i]);
        }
        assert forall|i: int, j: int| 0 <= i < n && 0 <= j < n implies (#[trigger] seg@[i]
            == #[trigger] seg@[j] <==> reach(g, i, j)) by {
            let k = seg[i] as int;
            assert(!free[i] && !free[j]);
            assert(reach(g, seeds[k], i));
            assert(reach(g, seeds[seg[j] as int], j));
            if seg[i] == seg[j] {
                lemma_reach_sym(g, all_vertices(g), seeds[k], i);
                lemma_reach_trans(g, all_vertices(g), i, seeds[k], j);
                assert(reach(g, i, j));
            }
            if reach(g, i, j) {
                lemma_reach_trans(g, all_vertices(g), seeds[k], i, j);
                assert(reach(g, seeds[k], j));
                assert(0 <= k < cur);
                assert(seg[j] == k);
            }
        }
    }
    (seg, cur)
}

} // verus!
