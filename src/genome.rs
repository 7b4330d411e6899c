//! Candidate segmentations: decoding and evaluation, domination, seeding,
//! and the combined crossover and mutation operator.

use vstd::prelude::*;
use crate::image_proc::Img;
use crate::graph::{
    graph_of, in_range, symmetric, filled, flood, dense, first_seen, appears_before, flagged, linked,
    reach_in, region, lemma_reach_refl, lemma_reach_step, lemma_reach_sym, lemma_reach_trans,
    lemma_reach_bounds, lemma_reach_in_region, count_true, lemma_count_clear, lemma_count_mono, lemma_count_bound,
};
use crate::decode::{
    decode, decoded, canonical, same_label_graph, lemma_decoded_is_canonical, lemma_graph_facts,
    lemma_nbr_back,
};
use crate::fitness::{fitness, get_fitness};
use crate::random::random_in;

verus! {

/// Segment count from which a segmentation is infeasible.
pub const MAX_SEG_NUM: usize = 50;
/// Block seeding splits each side into `3..=INIT_SEGS_SQRT` parts.
pub const INIT_SEGS_SQRT: usize = 7;
/// Largest depth of one mutation's flood relabel, exclusive.
pub const MAX_SPREAD_SIZE: usize = 50;
/// Region-growing seeding draws each region's depth budget from
/// `MIN_RG_SEG_SIZE..MAX_RG_SEG_SIZE`.
pub const MIN_RG_SEG_SIZE: usize = 200;
pub const MAX_RG_SEG_SIZE: usize = 300;
/// Chance, in thousandths, that a pixel mutates.
pub const MUT_PROB_PER_MILLE: usize = 10;
/// Chance, in thousandths, that crossover happens rather than a copy of
/// the first parent.
pub const CROSS_PROB_PER_MILLE: usize = 1000;

/// A candidate segmentation with its cached adjacency and fitness.
pub struct Genome {
    pub avg_edge_value: u64,
    pub avg_overall_dev: u64,
    pub avg_seg_size: u64,
    pub segmentation: Vec<usize>,
    pub adj_list: Vec<Vec<usize>>,
    pub num_segs: usize,
}

/// A genome's fitness vector: average edge value, average deviation,
/// average segment size, segment count.
pub struct Fitness {
    pub edge: int,
    pub dev: int,
    pub size: int,
    pub segs: int,
}

pub open spec fn feasible(f: Fitness) -> bool {
    f.segs < MAX_SEG_NUM
}

/// `a` is dominated by `b`. A feasible genome is never dominated by an
/// infeasible one and always dominates it; of two infeasible genomes the
/// one with more segments is dominated; between feasible genomes `b`
/// dominates when it is at least as good on all three objectives (higher
/// edge value, higher segment size, lower deviation) and better on one.
pub open spec fn dominated(a: Fitness, b: Fitness) -> bool {
    if feasible(a) && !feasible(b) {
        false
    } else if feasible(b) && !feasible(a) {
        true
    } else if !feasible(a) {
        b.segs < a.segs
    } else {
        &&& b.edge >= a.edge
        &&& b.size >= a.size
        &&& b.dev <= a.dev
        &&& (b.edge > a.edge || b.size > a.size || b.dev < a.dev)
    }
}

/// No genome is dominated by itself, and of two genomes at most one
/// dominates the other.
pub proof fn lemma_dominance_asymmetric(a: Fitness, b: Fitness)
    ensures
        !dominated(a, a),
        !(dominated(a, b) && dominated(b, a)),
{
}

/// An infeasible genome is dominated by every feasible one, whatever the
/// other objectives, and never dominates it.
pub proof fn lemma_feasible_dominates(a: Fitness, b: Fitness)
    requires
        !feasible(a),
        feasible(b),
    ensures
        dominated(a, b),
        !dominated(b, a),
{
}

/// Evaluation is a function of the labels: two well-formed genomes with
/// the same labels on the same image have the same fitness vector, so
/// evaluating a decoded genome again gives the same result.
pub proof fn lemma_fitness_deterministic(img: Img, a: Genome, b: Genome)
    requires
        a.wf(img),
        b.wf(img),
        a.segmentation@ == b.segmentation@,
    ensures
        a.fit() == b.fit(),
{
    crate::decode::lemma_dense_count(a.segmentation@, a.num_segs as nat, b.num_segs as nat);
}

/// Draws that mutate no pixel leave the labels as they are.
pub proof fn lemma_mutated_none(img: Img, s: Seq<usize>, draws: Seq<MutationDraw>, k: int)
    requires
        0 <= k <= draws.len(),
        forall|i: int| 0 <= i < draws.len() ==> !(#[trigger] draws[i]).mutate,
    ensures
        mutated(img, s, draws, k) == s,
    decreases k,
{
    if k > 0 {
        lemma_mutated_none(img, s, draws, k - 1);
    }
}

proof fn lemma_path_not_above(g: Seq<Seq<usize>>, r: Seq<usize>, p: Seq<int>, k: int)
    requires
        crate::graph::is_path(g, crate::graph::all_vertices(g), p),
        g.len() == r.len(),
        forall|i: int, w: int| 0 <= i < r.len() && #[trigger] linked(g, i, w) ==> r[w] <= r[i],
        0 <= k < p.len(),
    ensures
        r[p[k]] <= r[p[0]],
    decreases k,
{
    if k > 0 {
        lemma_path_not_above(g, r, p, k - 1);
        assert(crate::graph::step_ok(g, p, k - 1));
    }
}

/// Crossing a decoded genome with itself, with no pixel mutating, gives
/// back its own segmentation: every child segment is a whole segment of
/// the parent.
pub proof fn lemma_self_cross_keeps_segments(
    img: Img,
    g: Genome,
    child: Genome,
    cross: Seq<usize>,
    count: nat,
    draws: Seq<MutationDraw>,
)
    requires
        img.wf(),
        g.wf(img),
        child_witness(img, g, g, child, cross, count, draws),
        forall|i: int| 0 <= i < draws.len() ==> !(#[trigger] draws[i]).mutate,
    ensures
        child.segmentation@ == g.segmentation@,
        child.num_segs == g.num_segs,
{
    let seg = g.segmentation@;
    let gr = same_label_graph(img, seg);
    assert(graph_of(g.adj_list@) == gr);
    lemma_graph_facts(img, seg);
    lemma_mutated_none(img, cross, draws, img.length as int);
    assert(forall|t: int| #[trigger] parent_graph(gr, gr, t) == gr);
    // The crossover labels group pixels as the parent's segments do.
    assert forall|i: int, j: int| 0 <= i < seg.len() && 0 <= j < seg.len() implies (#[trigger] cross[i]
        == #[trigger] cross[j] <==> seg[i] == seg[j]) by {
        if cross[i] == cross[j] {
            assert(reach_in(gr, label_class(cross, cross[i] as int), i, j));
            crate::graph::lemma_reach_widen(gr, label_class(cross, cross[i] as int), crate::graph::all_vertices(gr), i, j);
            crate::decode::lemma_reach_same_label(img, seg, i, j);
        }
        if seg[i] == seg[j] {
            assert(crate::graph::reach(gr, i, j));
            crate::graph::lemma_reach_sym(gr, crate::graph::all_vertices(gr), i, j);
            let p1 = choose|path: Seq<int>|
                #[trigger] crate::graph::is_path(gr, crate::graph::all_vertices(gr), path) && path[0] == i
                    && path.last() == j;
            let p2 = choose|path: Seq<int>|
                #[trigger] crate::graph::is_path(gr, crate::graph::all_vertices(gr), path) && path[0] == j
                    && path.last() == i;
            lemma_path_not_above(gr, cross, p1, p1.len() - 1);
            lemma_path_not_above(gr, cross, p2, p2.len() - 1);
        }
    }
    // So both arrays have the same same-label graph.
    assert forall|p: int| 0 <= p < seg.len() implies #[trigger] crate::decode::same_nbrs(img, cross, p, 4)
        == crate::decode::same_nbrs(img, seg, p, 4) by {
        assert forall|d: int| 1 <= d <= 4 && #[trigger] img.nbr(p, d) is Some implies (cross[p]
            == cross[img.nbr(p, d).unwrap()] <==> seg[p] == seg[img.nbr(p, d).unwrap()]) by {
            lemma_nbr_back(img, p, d, img.nbr(p, d).unwrap());
        }
        crate::decode::lemma_same_nbrs_agree(img, cross, seg, p, 4);
    }
    assert(same_label_graph(img, cross) =~= gr);
    let c = child.segmentation@;
    assert forall|i: int, j: int| 0 <= i < seg.len() && 0 <= j < seg.len() implies (#[trigger] c[i]
        == #[trigger] c[j] <==> seg[i] == seg[j]) by {
        if crate::graph::reach(gr, i, j) {
            crate::decode::lemma_reach_same_label(img, seg, i, j);
        }
    }
    crate::decode::lemma_first_seen_unique(c, seg, seg.len() as int);
    assert(c =~= seg);
    crate::decode::lemma_dense_count(seg, child.num_segs as nat, g.num_segs as nat);
}

/// Without mutation, every segment of a child lies inside one segment of
/// one parent: of `a` when its crossover label is even, of `b` when odd.
pub proof fn lemma_child_segment_in_parent(
    img: Img,
    a: Genome,
    b: Genome,
    child: Genome,
    cross: Seq<usize>,
    count: nat,
    draws: Seq<MutationDraw>,
    i: int,
    j: int,
)
    requires
        img.wf(),
        a.wf(img),
        b.wf(img),
        child_witness(img, a, b, child, cross, count, draws),
        forall|k: int| 0 <= k < draws.len() ==> !(#[trigger] draws[k]).mutate,
        0 <= i < img.length,
        0 <= j < img.length,
        child.segmentation[i] == child.segmentation[j],
    ensures
        cross[i] == cross[j],
        cross[i] % 2 == 0 ==> a.segmentation[i] == a.segmentation[j],
        cross[i] % 2 == 1 ==> b.segmentation[i] == b.segmentation[j],
{
    lemma_mutated_none(img, cross, draws, img.length as int);
    crate::decode::lemma_reach_same_label(img, cross, i, j);
    let t = cross[i] as int;
    let cls = label_class(cross, t);
    assert(reach_in(parent_graph(graph_of(a.adj_list@), graph_of(b.adj_list@), t), cls, i, j));
    if t % 2 == 0 {
        let ga = same_label_graph(img, a.segmentation@);
        crate::graph::lemma_reach_widen(ga, cls, crate::graph::all_vertices(ga), i, j);
        crate::decode::lemma_reach_same_label(img, a.segmentation@, i, j);
    } else {
        let gb = same_label_graph(img, b.segmentation@);
        crate::graph::lemma_reach_widen(gb, cls, crate::graph::all_vertices(gb), i, j);
        crate::decode::lemma_reach_same_label(img, b.segmentation@, i, j);
    }
}

/// Block labels: the image is cut into `n` by `n` blocks of
/// `width / n` by `height / n` pixels, numbered row by row; pixels left
/// over at the right and bottom get the label `n * n`.
pub open spec fn block_label(w: int, h: int, n: int, p: int) -> int {
    let bw = w / n;
    let bh = h / n;
    let x = p % w;
    let y = p / w;
    if x < n * bw && y < n * bh {
        (y / bh) * n + x / bw
    } else {
        n * n
    }
}

/// The block labels of every pixel of `img` for `n` blocks per side.
pub open spec fn block_labelling(img: Img, n: int) -> Seq<usize> {
    Seq::new(img.length as nat, |p: int| block_label(img.width as int, img.height as int, n, p) as usize)
}

/// Pixel `b` is fewer than `k` cardinal steps away from pixel `a`.
pub open spec fn near(img: Img, a: int, b: int, k: int) -> bool
    decreases k,
{
    if k <= 0 {
        false
    } else {
        a == b || exists|d: int|
            1 <= d <= 4 && #[trigger] img.nbr(a, d) is Some && near(img, img.nbr(a, d).unwrap(), b, k - 1)
    }
}

/// The flood relabel of `spread_flip` as a value: from `cur`, if it holds
/// `orig`, relabel it `new_seg` and spread from each of its four cardinal
/// neighbours in turn, one step shallower.
pub open spec fn spread(img: Img, s: Seq<usize>, cur: int, orig: usize, new_seg: usize, size: int) -> Seq<usize>
    decreases size, 6int,
{
    if size <= 0 || !(0 <= cur < s.len()) || s[cur] != orig {
        s
    } else {
        spread_dirs(img, s.update(cur, new_seg), cur, orig, new_seg, size, 1)
    }
}

/// The spreads from the neighbours of `cur` in directions `d..=4`.
pub open spec fn spread_dirs(
    img: Img,
    s: Seq<usize>,
    cur: int,
    orig: usize,
    new_seg: usize,
    size: int,
    d: int,
) -> Seq<usize>
    decreases size, 5 - d,
{
    if d > 4 || d < 1 || size <= 0 {
        s
    } else {
        let s2 = match img.nbr(cur, d) {
            Some(q) => spread(img, s, q, orig, new_seg, size - 1),
            None => s,
        };
        spread_dirs(img, s2, cur, orig, new_seg, size, d + 1)
    }
}

/// The region growth of `make_rd_seg` as a value, on labels `s` and free
/// flags `f`: from `cur`, if it is free, label it `new_seg`, take it, and
/// grow from each of its four cardinal neighbours in turn, one step
/// shallower.
pub open spec fn grow(
    img: Img,
    s: Seq<usize>,
    f: Seq<bool>,
    cur: int,
    new_seg: usize,
    size: int,
) -> (Seq<usize>, Seq<bool>)
    decreases size, 6int,
{
    if size <= 0 || !(0 <= cur < f.len()) || !f[cur] {
        (s, f)
    } else {
        grow_dirs(img, s.update(cur, new_seg), f.update(cur, false), cur, new_seg, size, 1)
    }
}

/// The growths from the neighbours of `cur` in directions `d..=4`.
pub open spec fn grow_dirs(
    img: Img,
    s: Seq<usize>,
    f: Seq<bool>,
    cur: int,
    new_seg: usize,
    size: int,
    d: int,
) -> (Seq<usize>, Seq<bool>)
    decreases size, 5 - d,
{
    if d > 4 || d < 1 || size <= 0 {
        (s, f)
    } else {
        let r = match img.nbr(cur, d) {
            Some(q) => grow(img, s, f, q, new_seg, size - 1),
            None => (s, f),
        };
        grow_dirs(img, r.0, r.1, cur, new_seg, size, d + 1)
    }
}

/// Region growing with per-pixel budgets, after the seeds `0..k`: each
/// pixel still free when its turn comes seeds the next region (numbered
/// from 1), grown with that pixel's budget. Gives labels, free flags and
/// the next region number.
pub open spec fn regions(img: Img, budgets: Seq<usize>, k: int) -> (Seq<usize>, Seq<bool>, int)
    decreases k,
{
    if k <= 0 {
        (Seq::new(img.length as nat, |i: int| 0usize), Seq::new(img.length as nat, |i: int| true), 1)
    } else {
        let prev = regions(img, budgets, k - 1);
        if prev.1[k - 1] {
            let g = grow(img, prev.0, prev.1, k - 1, prev.2 as usize, budgets[k - 1] as int);
            (g.0, g.1, prev.2 + 1)
        } else {
            prev
        }
    }
}

/// `g` decodes the block labels for some block count in
/// `3..=INIT_SEGS_SQRT`.
pub open spec fn block_seeded(img: Img, g: Genome) -> bool {
    exists|n: int|
        3 <= n <= INIT_SEGS_SQRT && decoded(
            img,
            #[trigger] block_labelling(img, n),
            g.segmentation@,
            g.num_segs as nat,
        )
}

/// `g` decodes the region-growing labels for some valid budgets.
pub open spec fn region_seeded(img: Img, g: Genome) -> bool {
    exists|budgets: Seq<usize>|
        budgets.len() == img.length && budgets_valid(budgets) && decoded(
            img,
            #[trigger] regions(img, budgets, img.length as int).0,
            g.segmentation@,
            g.num_segs as nat,
        )
}

/// Budgets as region growing draws them.
pub open spec fn budgets_valid(budgets: Seq<usize>) -> bool {
    forall|i: int| 0 <= i < budgets.len() ==> MIN_RG_SEG_SIZE <= #[trigger] budgets[i] < MAX_RG_SEG_SIZE
}

/// One pixel's mutation draws: whether it mutates, the direction of the
/// neighbour whose label it takes, and the depth of the spread.
#[derive(Clone, Copy, Debug, PartialEq, Eq, Structural)]
pub struct MutationDraw {
    pub mutate: bool,
    pub dir: i32,
    pub spread_size: usize,
}

/// Draws as `cross_mut` makes them: a mutating pixel looks in a cardinal
/// direction and spreads at most `MAX_SPREAD_SIZE - 1` steps deep.
pub open spec fn draws_valid(draws: Seq<MutationDraw>) -> bool {
    forall|i: int|
        0 <= i < draws.len() && (#[trigger] draws[i]).mutate ==> 1 <= draws[i].dir <= 4 && 1
            <= draws[i].spread_size < MAX_SPREAD_SIZE
}

/// The mutation of pixel `i` with draw `m`: when it mutates and its
/// neighbour in direction `m.dir` has another label, that label spreads
/// over the pixel's label from the pixel.
pub open spec fn mutate_step(img: Img, s: Seq<usize>, i: int, m: MutationDraw) -> Seq<usize> {
    if m.mutate {
        match img.nbr(i, m.dir as int) {
            Some(q) => if s[q] != s[i] {
                spread(img, s, i, s[i], s[q], m.spread_size as int)
            } else {
                s
            },
            None => s,
        }
    } else {
        s
    }
}

/// The labels after the mutations of pixels `0..k`, in pixel order.
pub open spec fn mutated(img: Img, s: Seq<usize>, draws: Seq<MutationDraw>, k: int) -> Seq<usize>
    decreases k,
{
    if k <= 0 {
        s
    } else {
        mutate_step(img, mutated(img, s, draws, k - 1), k - 1, draws[k - 1])
    }
}

/// `child` is an outcome of `a.cross_mut(img, b)`: the decoding of the
/// crossover labels of `a` and `b` after mutation with valid draws.
pub open spec fn child_of(img: Img, a: Genome, b: Genome, child: Genome) -> bool {
    exists|cross: Seq<usize>, count: nat, draws: Seq<MutationDraw>|
        #[trigger] child_witness(img, a, b, child, cross, count, draws)
}

pub open spec fn child_witness(
    img: Img,
    a: Genome,
    b: Genome,
    child: Genome,
    cross: Seq<usize>,
    count: nat,
    draws: Seq<MutationDraw>,
) -> bool {
    &&& cross.len() == img.length
    &&& crossover_of(graph_of(a.adj_list@), graph_of(b.adj_list@), cross, count)
    &&& draws.len() == img.length
    &&& draws_valid(draws)
    &&& decoded(img, mutated(img, cross, draws, img.length as int), child.segmentation@, child.num_segs as nat)
}

impl Genome {
    pub open spec fn fit(&self) -> Fitness {
        Fitness {
            edge: self.avg_edge_value as int,
            dev: self.avg_overall_dev as int,
            size: self.avg_seg_size as int,
            segs: self.num_segs as int,
        }
    }

    /// The genome is decoded and its cached adjacency and fitness are those
    /// of its labels on `img`.
    pub open spec fn wf(&self, img: Img) -> bool {
        &&& self.segmentation.len() == img.length
        &&& self.num_segs >= 1
        &&& canonical(img, self.segmentation@, self.num_segs as nat)
        &&& graph_of(self.adj_list@) == same_label_graph(img, self.segmentation@)
        &&& (self.avg_edge_value as nat, self.avg_overall_dev as nat, self.avg_seg_size as nat, self.num_segs as nat)
            == fitness(img, self.segmentation@, self.num_segs as nat)
    }

    /// Genome equality: same fitness vector and same labels.
    pub open spec fn same(&self, o: &Genome) -> bool {
        &&& self.fit() == o.fit()
        &&& self.segmentation@ == o.segmentation@
    }

    pub fn new(measures: (u64, u64, u64, usize), segmentation: Vec<usize>, adj_list: Vec<Vec<usize>>) -> (g: Genome)
        ensures
            g.avg_edge_value == measures.0,
            g.avg_overall_dev == measures.1,
            g.avg_seg_size == measures.2,
            g.num_segs == measures.3,
            g.segmentation == segmentation,
            g.adj_list == adj_list,
    {
        Genome {
            avg_edge_value: measures.0,
            avg_overall_dev: measures.1,
            avg_seg_size: measures.2,
            segmentation,
            adj_list,
            num_segs: measures.3,
        }
    }

    /// Decodes a raw label array and evaluates the result.
    pub fn from_labels(img: &Img, raw: &Vec<usize>) -> (g: Genome)
        requires
            img.wf(),
            raw.len() == img.length,
        ensures
            g.wf(*img),
            decoded(*img, raw@, g.segmentation@, g.num_segs as nat),
    {
        let (labels, adj, n) = decode(img, raw);
        proof {
            lemma_decoded_is_canonical(*img, raw@, labels@, n as nat);
        }
        let measures = get_fitness(img, &labels, n);
        Genome::new(measures, labels, adj)
    }

    /// A copy of the genome.
    pub fn duplicate(&self) -> (g: Genome)
        ensures
            g.fit() == self.fit(),
            g.segmentation@ == self.segmentation@,
            graph_of(g.adj_list@) == graph_of(self.adj_list@),
    {
        let mut adj: Vec<Vec<usize>> = Vec::new();
        let mut i: usize = 0;
        while i < self.adj_list.len()
            invariant
                i <= self.adj_list.len(),
                adj.len() == i,
                forall|k: int| 0 <= k < i ==> #[trigger] adj[k]@ == self.adj_list[k]@,
            decreases self.adj_list.len() - i,
        {
            adj.push(self.adj_list[i].clone());
            i = i + 1;
        }
        assert(graph_of(adj@) =~= graph_of(self.adj_list@));
        Genome {
            avg_edge_value: self.avg_edge_value,
            avg_overall_dev: self.avg_overall_dev,
            avg_seg_size: self.avg_seg_size,
            segmentation: self.segmentation.clone(),
            adj_list: adj,
            num_segs: self.num_segs,
        }
    }

    /// Whether the two genomes have the same fitness vector and labels.
    pub fn is_same(&self, other: &Genome) -> (r: bool)
        ensures
            r == self.same(other),
    {
        if self.avg_edge_value != other.avg_edge_value || self.avg_overall_dev != other.avg_overall_dev
            || self.avg_seg_size != other.avg_seg_size || self.num_segs != other.num_segs
            || self.segmentation.len() != other.segmentation.len() {
            return false;
        }
        let mut i: usize = 0;
        while i < self.segmentation.len()
            invariant
                i <= self.segmentation.len(),
                self.segmentation.len() == other.segmentation.len(),
                forall|k: int| 0 <= k < i ==> self.segmentation[k] == other.segmentation[k],
            decreases self.segmentation.len() - i,
        {
            if self.segmentation[i] != other.segmentation[i] {
                return false;
            }
            i = i + 1;
        }
        assert(self.segmentation@ =~= other.segmentation@);
        true
    }

    pub fn satisfies_constraints(&self) -> (r: bool)
        ensures
            r == feasible(self.fit()),
    {
        self.num_segs < MAX_SEG_NUM
    }

    /// Whether `other` dominates this genome.
    pub fn dominated_by(&self, other: &Genome) -> (r: bool)
        ensures
            r == dominated(self.fit(), other.fit()),
    {
        let c1 = self.satisfies_constraints();
        let c2 = other.satisfies_constraints();
        if c1 && !c2 {
            false
        } else if c2 && !c1 {
            true
        } else if !c1 {
            other.num_segs < self.num_segs
        } else {
            let better = other.avg_edge_value > self.avg_edge_value || other.avg_seg_size
                > self.avg_seg_size || other.avg_overall_dev < self.avg_overall_dev;
            let at_least = !(other.avg_edge_value < self.avg_edge_value || other.avg_seg_size
                < self.avg_seg_size || other.avg_overall_dev > self.avg_overall_dev);
            at_least && better
        }
    }

    /// Block seeding: a random block count `n` in `3..=INIT_SEGS_SQRT`, the
    /// block labels for `n`, decoded and evaluated.
    pub fn random(img: &Img) -> (g: Genome)
        requires
            img.wf(),
        ensures
            g.wf(*img),
            block_seeded(*img, g),
    {
        let n = random_in(3, INIT_SEGS_SQRT + 1);
        let raw = block_labels(img, n);
        let g = Genome::from_labels(img, &raw);
        proof {
            assert(raw@ =~= block_labelling(*img, n as int));
        }
        g
    }

    /// Region-growing seeding: labels from `region_labels`, decoded and
    /// evaluated.
    pub fn random2(img: &Img) -> (g: Genome)
        requires
            img.wf(),
        ensures
            g.wf(*img),
            region_seeded(*img, g),
            img.length < MIN_RG_SEG_SIZE ==> g.num_segs == 1 && forall|p: int|
                0 <= p < img.length ==> #[trigger] g.segmentation[p] == 0,
    {
        let raw = region_labels(img);
        let g = Genome::from_labels(img, &raw);
        proof {
            if img.length < MIN_RG_SEG_SIZE {
                assert(raw[0] == 1);
                assert forall|p: int| 0 <= p < raw@.len() implies #[trigger] raw@[p] == raw@[0] by {
                    assert(raw[p] == 1);
                }
                crate::decode::lemma_decode_uniform(*img, raw@, g.segmentation@, g.num_segs as nat);
            }
        }
        g
    }

    /// Grows region `new_seg` from `current`: a depth-first spread over
    /// 4-neighbours that are still `free`, at most `spread_size` steps deep.
    /// Each pixel it reaches is labelled `new_seg` and no longer free.
    pub fn make_rd_seg(
        current: usize,
        new_seg: usize,
        segmentation: &mut Vec<usize>,
        spread_size: usize,
        img: &Img,
        free: &mut Vec<bool>,
    )
        requires
            img.wf(),
            old(segmentation).len() == img.length,
            old(free).len() == img.length,
            current < img.length,
        ensures
            final(segmentation).len() == img.length,
            final(free).len() == img.length,
            forall|v: int| 0 <= v < img.length && #[trigger] final(free)[v] ==> old(free)[v],
            forall|v: int|
                0 <= v < img.length ==> #[trigger] final(segmentation)[v] == if old(free)[v]
                    && !final(free)[v] {
                    new_seg
                } else {
                    old(segmentation)[v]
                },
            (final(segmentation)@, final(free)@) == grow(
                *img,
                old(segmentation)@,
                old(free)@,
                current as int,
                new_seg,
                spread_size as int,
            ),
            old(free)[current as int] && spread_size > 0 ==> !final(free)[current as int],
            spread_size > count_true(old(free)@) ==> forall|v: int, d: int|
                0 <= v < img.length && old(free)[v] && !final(free)[v] && 1 <= d <= 4
                    && #[trigger] img.nbr(v, d) is Some ==> !final(free)[img.nbr(v, d).unwrap()],
            forall|v: int|
                0 <= v < img.length && old(free)[v] && !#[trigger] final(free)[v] ==> near(
                    *img,
                    current as int,
                    v,
                    spread_size as int,
                ),
        decreases spread_size,
    {
        if spread_size == 0 || !free[current] {
            return;
        }
        let ghost target = grow(*img, segmentation@, free@, current as int, new_seg, spread_size as int);
        let ghost big = spread_size > count_true(free@);
        proof {
            lemma_count_clear(free@, current as int);
        }
        free.set(current, false);
        segmentation.set(current, new_seg);
        let ghost free0 = old(free)@;
        let ghost seg0 = old(segmentation)@;
        let mut d: i32 = 1;
        while d <= 4
            invariant
                img.wf(),
                segmentation.len() == img.length,
                free.len() == img.length,
                free0.len() == img.length,
                seg0.len() == img.length,
                current < img.length,
                spread_size > 0,
                !free[current as int],
                grow_dirs(*img, segmentation@, free@, current as int, new_seg, spread_size as int, d as int)
                    == target,
                forall|v: int| 0 <= v < img.length && #[trigger] free[v] ==> free0[v],
                forall|v: int|
                    0 <= v < img.length ==> #[trigger] segmentation[v] == if free0[v] && !free[v] {
                        new_seg
                    } else {
                        seg0[v]
                    },
                1 <= d <= 5,
                free0 == old(free)@,
                big == (spread_size > count_true(free0)),
                big ==> count_true(free@) + 1 < spread_size,
                big ==> forall|v: int, e: int|
                    0 <= v < img.length && free0[v] && !free[v] && v != current && 1 <= e <= 4
                        && #[trigger] img.nbr(v, e) is Some ==> !free[img.nbr(v, e).unwrap()],
                big ==> forall|e: int|
                    1 <= e < d && #[trigger] img.nbr(current as int, e) is Some ==> !free[img.nbr(
                        current as int,
                        e,
                    ).unwrap()],
                forall|v: int|
                    0 <= v < img.length && free0[v] && !#[trigger] free[v] ==> near(
                        *img,
                        current as int,
                        v,
                        spread_size as int,
                    ),
            decreases 5 - d,
        {
            if let Some(q) = img.neighbor(current, d) {
                let ghost f1 = free@;
                Self::make_rd_seg(q, new_seg, segmentation, spread_size - 1, img, free);
                proof {
                    lemma_count_mono(f1, free@);
                    if big {
                        assert forall|v: int, e: int|
                            0 <= v < img.length && free0[v] && !free[v] && v != current && 1 <= e <= 4
                                && #[trigger] img.nbr(v, e) is Some implies !free[img.nbr(v, e).unwrap()] by {
                            let w = img.nbr(v, e).unwrap();
                            lemma_nbr_back(*img, v, e, w);
                            if !f1[v] {
                                assert(!f1[w]);
                            }
                        }
                        assert forall|e: int|
                            1 <= e < d + 1 && #[trigger] img.nbr(current as int, e) is Some implies !free[img.nbr(
                                current as int,
                                e,
                            ).unwrap()] by {
                            let w = img.nbr(current as int, e).unwrap();
                            lemma_nbr_back(*img, current as int, e, w);
                            if e < d {
                                assert(!f1[w]);
                            }
                        }
                    }
                }
                assert forall|v: int|
                    0 <= v < img.length && free0[v] && !#[trigger] free[v] implies near(
                    *img,
                    current as int,
                    v,
                    spread_size as int,
                ) by {
                    if f1[v] {
                        assert(near(*img, q as int, v, spread_size - 1));
                        assert(img.nbr(current as int, d as int) is Some);
                    }
                }
            }
            d = d + 1;
        }
    }

    /// Mutation's flood relabel: from `current`, relabels to `new_seg` the
    /// 4-connected pixels that still carry `orig`, depth first and at most
    /// `spread_size` steps deep.
    pub fn spread_flip(
        current: usize,
        orig: usize,
        new_seg: usize,
        segmentation: &mut Vec<usize>,
        spread_size: usize,
        img: &Img,
    )
        requires
            img.wf(),
            old(segmentation).len() == img.length,
            current < img.length,
            orig != new_seg,
        ensures
            final(segmentation).len() == img.length,
            forall|v: int|
                0 <= v < img.length ==> #[trigger] final(segmentation)[v] == old(segmentation)[v] || (
                old(segmentation)[v] == orig && final(segmentation)[v] == new_seg),
            final(segmentation)@ == spread(*img, old(segmentation)@, current as int, orig, new_seg, spread_size as int),
            old(segmentation)[current as int] == orig && spread_size > 0 ==> final(segmentation)[current as int]
                == new_seg,
            forall|v: int|
                0 <= v < img.length && #[trigger] final(segmentation)[v] != old(segmentation)[v] ==> near(
                    *img,
                    current as int,
                    v,
                    spread_size as int,
                ),
        decreases spread_size,
    {
        if spread_size == 0 || segmentation[current] != orig {
            return;
        }
        let ghost target = spread(*img, segmentation@, current as int, orig, new_seg, spread_size as int);
        segmentation.set(current, new_seg);
        let ghost seg0 = old(segmentation)@;
        let mut d: i32 = 1;
        while d <= 4
            invariant
                img.wf(),
                segmentation.len() == img.length,
                seg0.len() == img.length,
                current < img.length,
                spread_size > 0,
                orig != new_seg,
                segmentation[current as int] == new_seg,
                forall|v: int|
                    0 <= v < img.length ==> #[trigger] segmentation[v] == seg0[v] || (seg0[v] == orig
                        && segmentation[v] == new_seg),
                1 <= d <= 5,
                spread_dirs(*img, segmentation@, current as int, orig, new_seg, spread_size as int, d as int)
                    == target,
                forall|v: int|
                    0 <= v < img.length && #[trigger] segmentation[v] != seg0[v] ==> near(
                        *img,
                        current as int,
                        v,
                        spread_size as int,
                    ),
            decreases 5 - d,
        {
            if let Some(q) = img.neighbor(current, d) {
                let ghost s1 = segmentation@;
                Self::spread_flip(q, orig, new_seg, segmentation, spread_size - 1, img);
                assert forall|v: int|
                    0 <= v < img.length && #[trigger] segmentation[v] != seg0[v] implies near(
                    *img,
                    current as int,
                    v,
                    spread_size as int,
                ) by {
                    if segmentation[v] != s1[v] {
                        assert(near(*img, q as int, v, spread_size - 1));
                        assert(img.nbr(current as int, d as int) is Some);
                    }
                }
            }
            d = d + 1;
        }
    }

    /// Crossover followed by mutation. The crossover copies whole
    /// segments, alternately from this genome and from `other`, as
    /// `crossover_labels` describes (the crossover chance,
    /// `CROSS_PROB_PER_MILLE` / 1000, is certain here). Each pixel then
    /// mutates with chance `MUT_PROB_PER_MILLE` / 1000, in a random
    /// cardinal direction and with a random spread depth below
    /// `MAX_SPREAD_SIZE`, as `mutate` describes. The result is decoded and
    /// evaluated.
    pub fn cross_mut(&self, img: &Img, other: &Genome) -> (child: Genome)
        requires
            img.wf(),
            self.wf(*img),
            other.wf(*img),
        ensures
            child.wf(*img),
            child_of(*img, *self, *other, child),
    {
        let n = img.length();
        let mut seg: Vec<usize>;
        if random_in(0, 1000) < CROSS_PROB_PER_MILLE {
            seg = crossover_labels(img, self, other);
        } else {
            seg = self.segmentation.clone();
        }
        let ghost cross = seg@;
        let mut draws: Vec<MutationDraw> = Vec::new();
        let mut i: usize = 0;
        while i < n
            invariant
                i <= n,
                draws.len() == i,
                draws_valid(draws@),
            decreases n - i,
        {
            let mut m = MutationDraw { mutate: false, dir: 0, spread_size: 0 };
            if random_in(0, 1000) < MUT_PROB_PER_MILLE {
                let dir = random_in(1, 5) as i32;
                let spread_size = random_in(1, MAX_SPREAD_SIZE);
                m = MutationDraw { mutate: true, dir, spread_size };
            }
            draws.push(m);
            i = i + 1;
        }
        mutate(img, &mut seg, &draws);
        let child = Genome::from_labels(img, &seg);
        proof {
            let count = choose|count: nat|
                crossover_of(graph_of(self.adj_list@), graph_of(other.adj_list@), cross, count);
            assert(child_witness(*img, *self, *other, child, cross, count, draws@));
        }
        child
    }
}

/// Applies the mutation draws to every pixel in order, as `mutated`
/// describes: a pixel whose draw mutates takes, when its neighbour in the
/// drawn direction has another label, that label, spread over its own
/// label by `spread_flip` with the drawn depth.
pub fn mutate(img: &Img, seg: &mut Vec<usize>, draws: &Vec<MutationDraw>)
    requires
        img.wf(),
        old(seg).len() == img.length,
        draws.len() == img.length,
    ensures
        final(seg)@ == mutated(*img, old(seg)@, draws@, img.length as int),
        final(seg).len() == img.length,
{
    let n = img.length();
    let mut i: usize = 0;
    while i < n
        invariant
            img.wf(),
            n == img.length,
            seg.len() == n,
            draws.len() == n,
            i <= n,
            seg@ == mutated(*img, old(seg)@, draws@, i as int),
        decreases n - i,
    {
        let m = draws[i];
        if m.mutate {
            if let Some(q) = img.neighbor(i, m.dir) {
                let s = seg[q];
                let own = seg[i];
                if s != own {
                    Genome::spread_flip(i, own, s, seg, m.spread_size, img);
                }
            }
        }
        i = i + 1;
    }
}

/// The raw block labels for `n` blocks per side.
pub fn block_labels(img: &Img, n: usize) -> (r: Vec<usize>)
    requires
        img.wf(),
        1 <= n <= INIT_SEGS_SQRT,
    ensures
        r.len() == img.length,
        forall|p: int|
            0 <= p < img.length ==> #[trigger] r[p] == block_label(
                img.width as int,
                img.height as int,
                n as int,
                p,
            ) as usize,
{
    let len = img.length();
    let w = img.width();
    let bw = img.width() / n;
    let bh = img.height() / n;
    assert(n * bw <= img.width && n * bh <= img.height) by (nonlinear_arith)
        requires
            bw == img.width / n,
            bh == img.height / n,
            n >= 1;
    let mut r: Vec<usize> = Vec::new();
    let mut p: usize = 0;
    while p < len
        invariant
            img.wf(),
            len == img.length,
            w == img.width,
            bw == img.width / n,
            bh == img.height / n,
            1 <= n <= INIT_SEGS_SQRT,
            n * bw <= img.width,
            n * bh <= img.height,
            p <= len,
            r.len() == p,
            forall|k: int|
                0 <= k < p ==> #[trigger] r[k] == block_label(
                    img.width as int,
                    img.height as int,
                    n as int,
                    k,
                ) as usize,
        decreases len - p,
    {
        let x = p % w;
        let y = p / w;
        if x < n * bw && y < n * bh {
            assert(bw > 0 && bh > 0) by (nonlinear_arith)
                requires x < n * bw, y < n * bh, n >= 1, bw >= 0, bh >= 0;
            assert(y / bh <= y && x / bw <= x) by (nonlinear_arith)
                requires bw > 0, bh > 0, x >= 0, y >= 0;
            assert((y / bh) * n <= y * 7) by (nonlinear_arith)
                requires y / bh <= y, n <= 7, y / bh >= 0;
            assert(y <= p && x < w) by (nonlinear_arith)
                requires y == p / w, x == p % w, w > 0, p >= 0;
            assert(w <= len) by (nonlinear_arith)
                requires len == w * img.height, img.height > 0, w > 0;
            r.push((y / bh) * n + x / bw);
        } else {
            assert(n * n <= 49) by (nonlinear_arith)
                requires 1 <= n <= 7;
            r.push(n * n);
        }
        p = p + 1;
    }
    r
}

/// Region growing with given budgets, as `regions` describes: each pixel
/// still free when its turn comes, in index order, seeds a new region,
/// numbered from 1, grown by `make_rd_seg` with that pixel's budget.
pub fn grow_regions(img: &Img, budgets: &Vec<usize>) -> (r: Vec<usize>)
    requires
        img.wf(),
        budgets.len() == img.length,
        budgets_valid(budgets@),
    ensures
        r.len() == img.length,
        r@ == regions(*img, budgets@, img.length as int).0,
        forall|p: int| 0 <= p < img.length ==> #[trigger] r[p] >= 1,
        img.length < MIN_RG_SEG_SIZE ==> forall|p: int| 0 <= p < img.length ==> #[trigger] r[p] == 1,
{
    let len = img.length();
    let mut free = filled(true, len);
    let mut rd = filled(0usize, len);
    assert(rd@ =~= regions(*img, budgets@, 0).0);
    assert(free@ =~= regions(*img, budgets@, 0).1);
    let mut current: usize = 1;
    let mut start: usize = 0;
    while start < len
        invariant
            img.wf(),
            len == img.length,
            budgets.len() == len,
            budgets_valid(budgets@),
            free.len() == len,
            rd.len() == len,
            start <= len,
            1 <= current <= start + 1,
            forall|v: int| 0 <= v < start ==> !#[trigger] free[v],
            forall|v: int| 0 <= v < len ==> (#[trigger] rd[v] >= 1 <==> !free[v]),
            (rd@, free@, current as int) == regions(*img, budgets@, start as int),
            start == 0 ==> forall|v: int| 0 <= v < len ==> #[trigger] free[v],
            len < MIN_RG_SEG_SIZE && start >= 1 ==> forall|v: int| 0 <= v < len ==> #[trigger] rd[v] == 1,
            len < MIN_RG_SEG_SIZE && start >= 1 ==> forall|v: int| 0 <= v < len ==> !#[trigger] free[v],
        decreases len - start,
    {
        if free[start] {
            let ghost f0 = free@;
            proof {
                lemma_count_bound(free@);
            }
            Genome::make_rd_seg(start, current, &mut rd, budgets[start], img, &mut free);
            proof {
                if start == 0 && len < MIN_RG_SEG_SIZE {
                    let m = Set::new(|v: int| 0 <= v < len && !free[v]);
                    assert forall|p: int, d: int|
                        m.contains(p) && 1 <= d <= 4 && #[trigger] img.nbr(p, d) is Some implies m.contains(
                        img.nbr(p, d).unwrap(),
                    ) by {
                        lemma_nbr_back(*img, p, d, img.nbr(p, d).unwrap());
                        assert(f0[p]);
                    }
                    crate::decode::lemma_grid_closed(*img, m);
                    assert(current == 1);
                    assert forall|v: int| 0 <= v < len implies #[trigger] rd[v] == 1 by {
                        assert(m.contains(v));
                        assert(f0[v]);
                    }
                    assert forall|v: int| 0 <= v < len implies !#[trigger] free[v] by {
                        assert(m.contains(v));
                    }
                }
            }
            current = current + 1;
        }
        start = start + 1;
    }
    rd
}

/// Region-growing labels: draws a depth budget in
/// `MIN_RG_SEG_SIZE..MAX_RG_SEG_SIZE` for each pixel and grows regions
/// with `grow_regions`, so every pixel ends in a region numbered from 1.
pub fn region_labels(img: &Img) -> (r: Vec<usize>)
    requires
        img.wf(),
    ensures
        r.len() == img.length,
        forall|p: int| 0 <= p < img.length ==> #[trigger] r[p] >= 1,
        exists|budgets: Seq<usize>|
            budgets.len() == img.length && budgets_valid(budgets) && r@ == #[trigger] regions(
                *img,
                budgets,
                img.length as int,
            ).0,
        img.length < MIN_RG_SEG_SIZE ==> forall|p: int| 0 <= p < img.length ==> #[trigger] r[p] == 1,
{
    let len = img.length();
    let mut budgets: Vec<usize> = Vec::new();
    while budgets.len() < len
        invariant
            budgets.len() <= len,
            budgets_valid(budgets@),
        decreases len - budgets.len(),
    {
        budgets.push(random_in(MIN_RG_SEG_SIZE, MAX_RG_SEG_SIZE));
    }
    let r = grow_regions(img, &budgets);
    assert(budgets_valid(budgets@));
    r
}

/// The pixels labelled `t`.
pub open spec fn label_class(r: Seq<usize>, t: int) -> Set<int> {
    Set::new(|v: int| 0 <= v < r.len() && r[v] == t)
}

/// The same-label graph that segment `t` of a crossover child is copied
/// from: the first parent's for even `t`, the second's for odd `t`.
pub open spec fn parent_graph(ga: Seq<Seq<usize>>, gb: Seq<Seq<usize>>, t: int) -> Seq<Seq<usize>> {
    if t % 2 == 0 {
        ga
    } else {
        gb
    }
}

/// `r` is the crossover of parents with same-label graphs `ga` and `gb`:
/// labels `0..count` numbered by first appearance; each child segment `t`
/// is connected in its parent's graph, and every link of that graph out of
/// segment `t` ends in segment `t` or an earlier one. Together these
/// determine `r`: segment `t` is exactly what its first pixel reaches in
/// the parent's graph through pixels of no earlier segment.
pub open spec fn crossover_of(ga: Seq<Seq<usize>>, gb: Seq<Seq<usize>>, r: Seq<usize>, count: nat) -> bool {
    &&& dense(r, count)
    &&& first_seen(r)
    &&& forall|i: int, j: int|
        0 <= i < r.len() && 0 <= j < r.len() && #[trigger] r[i] == #[trigger] r[j] ==> reach_in(
            parent_graph(ga, gb, r[i] as int),
            label_class(r, r[i] as int),
            i,
            j,
        )
    &&& forall|i: int, w: int|
        0 <= i < r.len() && #[trigger] linked(parent_graph(ga, gb, r[i] as int), i, w) ==> r[w] <= r[i]
}

/// The crossover labels of two parents. Scanning pixels in order, each
/// pixel not yet covered seeds a new child segment, numbered from 0: the
/// pixels reachable from it through uncovered pixels in the same-label
/// graph of the first parent (even segments) or of the second (odd
/// segments).
pub fn crossover_labels(img: &Img, a: &Genome, b: &Genome) -> (r: Vec<usize>)
    requires
        img.wf(),
        a.wf(*img),
        b.wf(*img),
    ensures
        r.len() == img.length,
        exists|count: nat| crossover_of(graph_of(a.adj_list@), graph_of(b.adj_list@), r@, count),
{
    let n = img.length();
    let ghost ga = graph_of(a.adj_list@);
    let ghost gb = graph_of(b.adj_list@);
    proof {
        lemma_graph_facts(*img, a.segmentation@);
        lemma_graph_facts(*img, b.segmentation@);
    }
    let mut free = filled(true, n);
    let mut seg = filled(n, n);
    let mut cur: usize = 0;
    let ghost mut seeds: Seq<int> = seq![];
    let mut s: usize = 0;
    while s < n
        invariant
            img.wf(),
            n == img.length,
            a.adj_list.len() == n,
            b.adj_list.len() == n,
            ga == graph_of(a.adj_list@),
            gb == graph_of(b.adj_list@),
            in_range(ga),
            in_range(gb),
            symmetric(ga),
            symmetric(gb),
            free.len() == n,
            seg.len() == n,
            s <= n,
            cur <= s,
            cur == seeds.len(),
            forall|v: int| 0 <= v < s ==> !#[trigger] free[v],
            forall|k: int|
                0 <= k < cur ==> 0 <= #[trigger] seeds[k] < s && !free[seeds[k]] && seg[seeds[k]] == k,
            forall|k1: int, k2: int| 0 <= k1 < k2 < cur ==> #[trigger] seeds[k1] < #[trigger] seeds[k2],
            forall|v: int| 0 <= v < n && !#[trigger] free[v] ==> seg[v] < cur && seeds[seg[v] as int] <= v,
            forall|v: int| 0 <= v < n && #[trigger] free[v] ==> seg[v] == n,
            forall|i: int, j: int|
                0 <= i < n && 0 <= j < n && !free[i] && !free[j] && #[trigger] seg[i] == #[trigger] seg[j]
                    ==> reach_in(parent_graph(ga, gb, seg[i] as int), label_class(seg@, seg[i] as int), i, j),
            forall|i: int, w: int|
                0 <= i < n && !free[i] && #[trigger] linked(parent_graph(ga, gb, seg[i] as int), i, w) ==> !free[w]
                    && seg[w] <= seg[i],
        decreases n - s,
    {
        if free[s] {
            let ghost free0 = free@;
            let ghost seg0 = seg@;
            let ghost g = parent_graph(ga, gb, cur as int);
            let ghost u0 = flagged(free0);
            if cur % 2 == 0 {
                flood(s, cur, &a.adj_list, &mut free, &mut seg);
            } else {
                flood(s, cur, &b.adj_list, &mut free, &mut seg);
            }
            proof {
                let rg = region(g, u0, s as int);
                lemma_reach_refl(g, u0, s as int);
                assert forall|v: int| 0 <= v < n && reach_in(g, u0, s as int, v) implies free0[v] && v >= s by {
                    lemma_reach_bounds(g, u0, s as int, v);
                }
                // Earlier classes are unchanged.
                assert forall|t: int| 0 <= t < cur implies label_class(seg@, t) == label_class(seg0, t) by {
                    assert forall|v: int| label_class(seg@, t).contains(v) <==> label_class(seg0, t).contains(v) by {
                        if 0 <= v < n && free0[v] {
                            if !reach_in(g, u0, s as int, v) {
                                assert(seg[v] == n && free[v]);
                            }
                        }
                    }
                    assert(label_class(seg@, t) =~= label_class(seg0, t));
                }
                // The new class is the flooded region.
                assert(label_class(seg@, cur as int) =~= rg) by {
                    assert forall|v: int| label_class(seg@, cur as int).contains(v) <==> rg.contains(v) by {
                        if 0 <= v < n && !reach_in(g, u0, s as int, v) && seg[v] == cur {
                            if free0[v] {
                                assert(seg0[v] == n);
                                assert(free[v]);
                            } else {
                                assert(seg0[v] < cur);
                            }
                        }
                        if rg.contains(v) {
                            lemma_reach_bounds(g, u0, s as int, v);
                        }
                    }
                }
                let seeds1 = seeds.push(s as int);
                assert forall|k: int| 0 <= k < cur + 1 implies 0 <= #[trigger] seeds1[k] < s + 1 && !free[seeds1[k]]
                    && seg[seeds1[k]] == k by {
                    if k < cur {
                        assert(!free0[seeds[k]]);
                        if reach_in(g, u0, s as int, seeds[k]) {
                            lemma_reach_bounds(g, u0, s as int, seeds[k]);
                        }
                    }
                }
                assert forall|v: int| 0 <= v < n && !#[trigger] free[v] implies seg[v] < cur + 1 && seeds1[seg[v] as int] <= v by {
                    if !free0[v] {
                        if reach_in(g, u0, s as int, v) {
                            lemma_reach_bounds(g, u0, s as int, v);
                        }
                        assert(seeds1[seg[v] as int] == seeds[seg[v] as int]);
                    }
                }
                assert forall|i: int, j: int|
                    0 <= i < n && 0 <= j < n && !free[i] && !free[j] && #[trigger] seg[i] == #[trigger] seg[j]
                    implies reach_in(parent_graph(ga, gb, seg[i] as int), label_class(seg@, seg[i] as int), i, j) by {
                    if seg[i] == cur {
                        lemma_reach_in_region(g, u0, s as int, i);
                        lemma_reach_in_region(g, u0, s as int, j);
                        lemma_reach_sym(g, rg, s as int, i);
                        lemma_reach_trans(g, rg, i, s as int, j);
                    } else {
                        if reach_in(g, u0, s as int, i) {
                            lemma_reach_bounds(g, u0, s as int, i);
                        }
                        if reach_in(g, u0, s as int, j) {
                            lemma_reach_bounds(g, u0, s as int, j);
                        }
                        assert(!free0[i] && !free0[j]);
                        assert(seg0[i] == seg[i] && seg0[j] == seg[j]);
                    }
                }
                assert forall|i: int, w: int|
                    0 <= i < n && !free[i] && #[trigger] linked(parent_graph(ga, gb, seg[i] as int), i, w) implies !free[w]
                    && seg[w] <= seg[i] by {
                    if seg[i] == cur {
                        assert(rg.contains(i));
                        if free0[w] {
                            lemma_reach_step(g, u0, s as int, i, w);
                        }
                    } else {
                        if reach_in(g, u0, s as int, i) {
                            lemma_reach_bounds(g, u0, s as int, i);
                        }
                        assert(!free0[i]);
                        assert(!free0[w] && seg0[w] <= seg0[i]);
                        if reach_in(g, u0, s as int, w) {
                            lemma_reach_bounds(g, u0, s as int, w);
                        }
                    }
                }
                seeds = seeds1;
            }
            cur = cur + 1;
        }
        s = s + 1;
    }
    proof {
        assert forall|j: int, k: int| 0 <= j < n && 0 <= k < seg[j] implies #[trigger] appears_before(seg@, k, j) by {
            assert(!free[j]);
            assert(seeds[k] < seeds[seg[j] as int]);
            assert(seg@[seeds[k]] == k);
        }
        assert forall|k: int| 0 <= k < cur implies #[trigger] appears_before(seg@, k, n as int) by {
            assert(seg@[seeds[k]] == k);
        }
        assert forall|i: int| 0 <= i < n implies #[trigger] seg@[i] < cur by {
            assert(!free[i]);
        }
        assert(crossover_of(ga, gb, seg@, cur as nat));
    }
    seg
}

} // verus!
