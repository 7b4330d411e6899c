//! The generational loop: seeding, parent selection, offspring, survivor
//! selection and the final Pareto front.

use vstd::prelude::*;
use crate::image_proc::Img;
use crate::decode::canonical;
use crate::genome::{Genome, Fitness, dominated, child_of, block_seeded, region_seeded};
use crate::ranking::{rank_crowding_sort, rank_crowding_order, get_pareto_front, rank_in, dom_count, fits};
use crate::random::random_in;

verus! {

/// Population size at every generation boundary.
pub const POP_SIZE: usize = 50;
/// Candidates drawn per tournament.
pub const TOURNAMENT_SIZE: usize = 4;
/// Number of generations.
pub const GENERATIONS: usize = 200;
/// Most segmentations returned by `train`.
pub const FINAL_SAMPLE: usize = 20;

/// Every genome of `pop` is well formed on `img`.
pub open spec fn all_wf(pop: Seq<Genome>, img: Img) -> bool {
    forall|k: int| 0 <= k < pop.len() ==> #[trigger] pop[k].wf(img)
}

/// The largest of a non-empty list of indices.
pub fn largest(candidates: &Vec<usize>) -> (r: usize)
    requires
        candidates.len() >= 1,
    ensures
        candidates@.contains(r),
        forall|k: int| 0 <= k < candidates.len() ==> #[trigger] candidates[k] <= r,
{
    let mut best = candidates[0];
    let mut i: usize = 1;
    while i < candidates.len()
        invariant
            1 <= i <= candidates.len(),
            candidates@.contains(best),
            forall|k: int| 0 <= k < i ==> #[trigger] candidates[k] <= best,
        decreases candidates.len() - i,
    {
        if candidates[i] > best {
            best = candidates[i];
        }
        i = i + 1;
    }
    best
}

/// Tournament selection: draws `TOURNAMENT_SIZE` random indices of `pop`
/// and returns the largest. As the population is kept in survivor order,
/// best last, the largest index is the best ordered candidate.
pub fn tournament_select(pop: &Vec<Genome>) -> (r: usize)
    requires
        pop.len() >= 1,
    ensures
        r < pop.len(),
{
    let mut candidates: Vec<usize> = Vec::new();
    let mut k: usize = 0;
    while k < TOURNAMENT_SIZE
        invariant
            pop.len() >= 1,
            k <= TOURNAMENT_SIZE,
            candidates.len() == k,
            forall|j: int| 0 <= j < k ==> #[trigger] candidates[j] < pop.len(),
        decreases TOURNAMENT_SIZE - k,
    {
        candidates.push(random_in(0, pop.len()));
        k = k + 1;
    }
    let r = largest(&candidates);
    proof {
        let j = choose|j: int| 0 <= j < candidates.len() && candidates[j] == r;
        assert(candidates[j] < pop.len());
    }
    r
}

/// `c1` and `c2` are the children of members `i` and `j` of `pop`: `c1`
/// from `i` crossed with `j`, `c2` from `j` crossed with `i`.
pub open spec fn pair_of(img: Img, pop: Seq<Genome>, i: int, j: int, c1: Genome, c2: Genome) -> bool {
    &&& 0 <= i < pop.len()
    &&& 0 <= j < pop.len()
    &&& child_of(img, pop[i], pop[j], c1)
    &&& child_of(img, pop[j], pop[i], c2)
}

/// Two children of two parents chosen by tournament: each parent crossed
/// with the other, then mutated.
pub fn breed(pop: &Vec<Genome>, img: &Img) -> (r: (Genome, Genome))
    requires
        img.wf(),
        pop.len() >= 1,
        all_wf(pop@, *img),
    ensures
        r.0.wf(*img),
        r.1.wf(*img),
        exists|i: int, j: int| #[trigger] pair_of(*img, pop@, i, j, r.0, r.1),
{
    let p1 = tournament_select(pop);
    let p2 = tournament_select(pop);
    let c1 = pop[p1].cross_mut(img, &pop[p2]);
    let c2 = pop[p2].cross_mut(img, &pop[p1]);
    assert(pair_of(*img, pop@, p1 as int, p2 as int, c1, c2));
    let r = (c1, c2);
    assert(pair_of(*img, pop@, p1 as int, p2 as int, r.0, r.1));
    r
}

/// Adds `g` to `set` unless a genome equal to it (same fitness vector and
/// labels) is already there.
pub fn add_unique(set: &mut Vec<Genome>, g: Genome)
    ensures
        (exists|k: int| 0 <= k < old(set).len() && #[trigger] old(set)[k].same(&g)) ==> final(set)@ == old(
            set,
        )@,
        (forall|k: int| 0 <= k < old(set).len() ==> !#[trigger] old(set)[k].same(&g)) ==> final(set)@
            == old(set)@.push(g),
{
    let mut i: usize = 0;
    while i < set.len()
        invariant
            i <= set.len(),
            set@ == old(set)@,
            forall|k: int| 0 <= k < i ==> !#[trigger] set[k].same(&g),
        decreases set.len() - i,
    {
        if set[i].is_same(&g) {
            return;
        }
        i = i + 1;
    }
    set.push(g);
}

/// The initial population: block-seeded genomes at even positions,
/// region-grown ones at odd positions.
pub fn seed_population(img: &Img) -> (pop: Vec<Genome>)
    requires
        img.wf(),
    ensures
        pop.len() == POP_SIZE,
        all_wf(pop@, *img),
        forall|k: int|
            0 <= k < pop.len() ==> if k % 2 == 0 {
                block_seeded(*img, #[trigger] pop[k])
            } else {
                region_seeded(*img, pop[k])
            },
{
    let mut pop: Vec<Genome> = Vec::new();
    while pop.len() < POP_SIZE
        invariant
            img.wf(),
            pop.len() <= POP_SIZE,
            pop.len() % 2 == 0,
            all_wf(pop@, *img),
            forall|k: int|
                0 <= k < pop.len() ==> if k % 2 == 0 {
                    block_seeded(*img, #[trigger] pop[k])
                } else {
                    region_seeded(*img, pop[k])
                },
        decreases POP_SIZE - pop.len(),
    {
        pop.push(Genome::random(img));
        pop.push(Genome::random2(img));
    }
    pop
}

/// Survivor selection: merges the offspring into the population, orders
/// the whole by rank and crowding (`rank_crowding_sort`) and keeps the
/// best-ordered `POP_SIZE` genomes, which come last.
pub fn next_generation(pop: Vec<Genome>, offspring: Vec<Genome>) -> (r: Vec<Genome>)
    requires
        pop.len() + offspring.len() >= POP_SIZE,
    ensures
        r.len() == POP_SIZE,
        exists|sorted: Seq<Genome>, order: Seq<usize>, crowd: Seq<u64>|
            #[trigger] rank_crowding_order(pop@ + offspring@, sorted, order, crowd) && r@ == sorted.subrange(
                sorted.len() - POP_SIZE,
                sorted.len() as int,
            ),
        forall|k: int| 0 <= k < r.len() ==> (pop@ + offspring@).contains(#[trigger] r[k]),
{
    let ghost merged = pop@ + offspring@;
    let mut all = pop;
    let mut offspring = offspring;
    all.append(&mut offspring);
    assert(all@ == merged);
    let mut sorted = rank_crowding_sort(all);
    let ghost s0 = sorted@;
    let len = sorted.len();
    let r = sorted.split_off(len - POP_SIZE);
    proof {
        let (order, crowd) = choose|order: Seq<usize>, crowd: Seq<u64>|
            #[trigger] rank_crowding_order(merged, s0, order, crowd);
        assert(rank_crowding_order(merged, s0, order, crowd));
        assert forall|k: int| 0 <= k < r.len() implies merged.contains(#[trigger] r[k]) by {
            let j = len - POP_SIZE + k;
            assert(r[k] == s0[j]);
            assert(s0[j] == merged[order[j] as int]);
        }
    }
    r
}

/// `s` is a canonical segmentation of `img`.
pub open spec fn is_segmentation(img: Img, s: Seq<usize>) -> bool {
    s.len() == img.length && exists|n: nat| canonical(img, s, n)
}

/// The members of `pop` that no member dominates, in their order in `pop`.
pub open spec fn front_of(pop: Seq<Genome>) -> Seq<Genome> {
    pop.filter(|g: Genome| rank_in(pop, g) == 0)
}

/// `segs` holds the labels of the first `FINAL_SAMPLE` genomes of the
/// Pareto front of `pop` (all of them when the front is smaller).
pub open spec fn front_labels(pop: Seq<Genome>, segs: Seq<Vec<usize>>) -> bool {
    let front = front_of(pop);
    &&& segs.len() == if front.len() < FINAL_SAMPLE { front.len() } else { FINAL_SAMPLE as nat }
    &&& forall|k: int| 0 <= k < segs.len() ==> #[trigger] segs[k]@ == front[k].segmentation@
}

/// Domination is transitive.
pub proof fn lemma_dominated_transitive(a: Fitness, b: Fitness, c: Fitness)
    requires
        dominated(a, b),
        dominated(b, c),
    ensures
        dominated(a, c),
{
}

proof fn lemma_count_positive(fs: Seq<Fitness>, a: Fitness, k: int)
    requires
        0 <= k <= fs.len(),
        dom_count(fs, a, k) > 0,
    ensures
        exists|j: int| 0 <= j < k && dominated(a, #[trigger] fs[j]),
    decreases k,
{
    if !dominated(a, fs[k - 1]) {
        lemma_count_positive(fs, a, k - 1);
    }
}

/// If everything that dominates `z` dominates `y`, and `fs[jz]` dominates
/// `y` but not `z`, then `z` has fewer dominators than `y`.
proof fn lemma_count_smaller(fs: Seq<Fitness>, y: Fitness, z: Fitness, jz: int, k: int)
    requires
        0 <= k <= fs.len(),
        forall|j: int| 0 <= j < fs.len() && dominated(z, #[trigger] fs[j]) ==> dominated(y, fs[j]),
    ensures
        dom_count(fs, z, k) <= dom_count(fs, y, k),
        0 <= jz < k && dominated(y, fs[jz]) && !dominated(z, fs[jz]) ==> dom_count(fs, z, k) < dom_count(
            fs,
            y,
            k,
        ),
    decreases k,
{
    if k > 0 {
        lemma_count_smaller(fs, y, z, jz, k - 1);
    }
}

proof fn lemma_reach_front(pop: Seq<Genome>, i: int)
    requires
        0 <= i < pop.len(),
    ensures
        exists|j: int| 0 <= j < pop.len() && #[trigger] rank_in(pop, pop[j]) == 0,
    decreases rank_in(pop, pop[i]),
{
    let fs = fits(pop);
    if rank_in(pop, pop[i]) > 0 {
        lemma_count_positive(fs, pop[i].fit(), pop.len() as int);
        let j = choose|j: int| 0 <= j < pop.len() && dominated(pop[i].fit(), #[trigger] fs[j]);
        assert(fs[j] == pop[j].fit());
        assert forall|jj: int| 0 <= jj < fs.len() && dominated(pop[j].fit(), #[trigger] fs[jj]) implies dominated(
            pop[i].fit(),
            fs[jj],
        ) by {
            lemma_dominated_transitive(pop[i].fit(), pop[j].fit(), fs[jj]);
        }
        crate::genome::lemma_dominance_asymmetric(pop[j].fit(), pop[j].fit());
        lemma_count_smaller(fs, pop[i].fit(), pop[j].fit(), j, pop.len() as int);
        lemma_reach_front(pop, j);
    } else {
        assert(rank_in(pop, pop[i]) == 0);
    }
}

/// Every non-empty population has a member that no member dominates.
pub proof fn lemma_front_nonempty(pop: Seq<Genome>)
    requires
        pop.len() >= 1,
    ensures
        front_of(pop).len() >= 1,
{
    lemma_reach_front(pop, 0);
    let j = choose|j: int| 0 <= j < pop.len() && #[trigger] rank_in(pop, pop[j]) == 0;
    let pred = |g: Genome| rank_in(pop, g) == 0;
    pop.lemma_filter_contains(pred, j);
    assert(front_of(pop).contains(pop[j]));
}

/// The segmentations of the final Pareto front, at most `FINAL_SAMPLE` of
/// them, in population order.
pub fn front_segmentations(pop: Vec<Genome>, img: &Img) -> (segs: Vec<Vec<usize>>)
    requires
        img.wf(),
        all_wf(pop@, *img),
    ensures
        front_labels(pop@, segs@),
        forall|k: int| 0 <= k < segs.len() ==> #[trigger] is_segmentation(*img, segs[k]@),
{
    let ghost pop0 = pop@;
    let ghost pred = |g: Genome| rank_in(pop0, g) == 0;
    let front = get_pareto_front(pop);
    assert(front@ == front_of(pop0));
    let mut segs: Vec<Vec<usize>> = Vec::new();
    let mut i: usize = 0;
    while i < front.len() && i < FINAL_SAMPLE
        invariant
            img.wf(),
            all_wf(pop0, *img),
            i <= front.len(),
            i <= FINAL_SAMPLE,
            segs.len() == i,
            front@ == pop0.filter(pred),
            pred == (|g: Genome| rank_in(pop0, g) == 0),
            forall|k: int| 0 <= k < i ==> #[trigger] segs[k]@ == front[k].segmentation@,
            forall|k: int| 0 <= k < i ==> #[trigger] is_segmentation(*img, segs[k]@),
        decreases front.len() - i,
    {
        proof {
            pop0.lemma_filter_contains_rev(pred, front[i as int]);
            assert(front@.contains(front[i as int]));
            let j = choose|j: int| 0 <= j < pop0.len() && pop0[j] == front[i as int];
            assert(pop0[j].wf(*img));
            assert(canonical(*img, front[i as int].segmentation@, front[i as int].num_segs as nat));
        }
        segs.push(front[i].segmentation.clone());
        assert(segs[i as int]@ == front[i as int].segmentation@);
        assert(is_segmentation(*img, segs[i as int]@));
        i = i + 1;
    }
    segs
}

/// Evolves segmentations of `img`: seeds `POP_SIZE` genomes, then for
/// `GENERATIONS` generations breeds `POP_SIZE / 2` pairs of children,
/// drops children equal to one already made, and keeps `POP_SIZE`
/// survivors. Returns the labels of the final population's Pareto front,
/// at most `FINAL_SAMPLE` of them and never none, each a canonical
/// segmentation of `img`.
pub fn train(img: &Img) -> (segs: Vec<Vec<usize>>)
    requires
        img.wf(),
    ensures
        segs.len() >= 1,
        exists|pop: Seq<Genome>|
            pop.len() == POP_SIZE && all_wf(pop, *img) && #[trigger] front_labels(pop, segs@),
        forall|k: int| 0 <= k < segs.len() ==> #[trigger] is_segmentation(*img, segs[k]@),
{
    let mut pop = seed_population(img);
    let mut generation: usize = 0;
    while generation < GENERATIONS
        invariant
            img.wf(),
            pop.len() == POP_SIZE,
            all_wf(pop@, *img),
            generation <= GENERATIONS,
        decreases GENERATIONS - generation,
    {
        pop = generation_step(pop, img);
        generation = generation + 1;
    }
    let ghost pop0 = pop@;
    proof {
        lemma_front_nonempty(pop0);
    }
    let segs = front_segmentations(pop, img);
    assert(front_labels(pop0, segs@));
    segs
}

/// One generation: breeds `POP_SIZE / 2` pairs of children from `pop`
/// and keeps the survivors with `next_from_children`.
pub fn generation_step(pop: Vec<Genome>, img: &Img) -> (next: Vec<Genome>)
    requires
        img.wf(),
        pop.len() == POP_SIZE,
        all_wf(pop@, *img),
    ensures
        next.len() == POP_SIZE,
        all_wf(next@, *img),
        exists|offspring: Seq<Genome>|
            all_wf(offspring, *img) && #[trigger] survivors(pop@ + offspring, next@),
{
    let mut children: Vec<(Genome, Genome)> = Vec::new();
    let mut pair: usize = 0;
    while pair < POP_SIZE / 2
        invariant
            img.wf(),
            pop.len() == POP_SIZE,
            all_wf(pop@, *img),
            pairs_wf(children@, *img),
            pair <= POP_SIZE / 2,
        decreases POP_SIZE / 2 - pair,
    {
        children.push(breed(&pop, img));
        pair = pair + 1;
    }
    next_from_children(pop, children, img)
}

/// Survivor selection after breeding: adds both children of each pair to
/// the offspring unless an equal genome is already there, then keeps the
/// `POP_SIZE` survivors of `next_generation`.
pub fn next_from_children(pop: Vec<Genome>, children: Vec<(Genome, Genome)>, img: &Img) -> (next: Vec<Genome>)
    requires
        img.wf(),
        pop.len() == POP_SIZE,
        all_wf(pop@, *img),
        pairs_wf(children@, *img),
    ensures
        next.len() == POP_SIZE,
        all_wf(next@, *img),
        exists|offspring: Seq<Genome>|
            all_wf(offspring, *img) && #[trigger] survivors(pop@ + offspring, next@),
{
    let mut children = children;
    let mut offspring: Vec<Genome> = Vec::new();
    while children.len() > 0
        invariant
            img.wf(),
            pairs_wf(children@, *img),
            all_wf(offspring@, *img),
        decreases children.len(),
    {
        let ghost before = children@;
        let (c1, c2) = children.pop().unwrap();
        assert(before[before.len() - 1] == (c1, c2));
        assert(children@ == before.drop_last());
        assert(pairs_wf(children@, *img)) by {
            assert forall|k: int| 0 <= k < children@.len() implies (#[trigger] children@[k]).0.wf(*img)
                && children@[k].1.wf(*img) by {
                assert(children@[k] == before[k]);
            }
        }
        assert(before[before.len() - 1].0.wf(*img));
        add_one(&mut offspring, c1, img);
        add_one(&mut offspring, c2, img);
    }
    let ghost merged = pop@ + offspring@;
    let ghost off = offspring@;
    let next = next_generation(pop, offspring);
    assert forall|k: int| 0 <= k < next.len() implies #[trigger] next[k].wf(*img) by {
        assert(merged.contains(next[k]));
        let j = choose|j: int| 0 <= j < merged.len() && merged[j] == next[k];
        if j < POP_SIZE {
            assert(merged[j] == (merged.subrange(0, POP_SIZE as int))[j]);
        } else {
            assert(merged[j] == off[j - POP_SIZE]);
        }
    }
    assert(survivors(merged, next@));
    next
}

/// Both children of every pair are well formed on `img`.
pub open spec fn pairs_wf(children: Seq<(Genome, Genome)>, img: Img) -> bool {
    forall|k: int| 0 <= k < children.len() ==> (#[trigger] children[k]).0.wf(img) && children[k].1.wf(img)
}

fn add_one(set: &mut Vec<Genome>, g: Genome, img: &Img)
    requires
        all_wf(old(set)@, *img),
        g.wf(*img),
    ensures
        all_wf(final(set)@, *img),
{
    let ghost g0 = g;
    add_unique(set, g);
    proof {
        if !(exists|k: int| 0 <= k < old(set).len() && #[trigger] old(set)[k].same(&g0)) {
            assert(final(set)@ == old(set)@.push(g0));
        }
        assert forall|k: int| 0 <= k < final(set).len() implies #[trigger] final(set)[k].wf(*img) by {
            if k < old(set).len() {
                assert(final(set)[k] == old(set)[k]);
            }
        }
    }
}

/// `next` is the survivor selection of `merged`: its last `POP_SIZE`
/// genomes in rank and crowding order.
pub open spec fn survivors(merged: Seq<Genome>, next: Seq<Genome>) -> bool {
    exists|sorted: Seq<Genome>, order: Seq<usize>, crowd: Seq<u64>|
        #[trigger] rank_crowding_order(merged, sorted, order, crowd) && sorted.len() >= POP_SIZE && next
            == sorted.subrange(sorted.len() - POP_SIZE, sorted.len() as int)
}

} // verus!
