//! Survivor ordering: domination counts, crowding distance and the
//! Pareto front.

use vstd::prelude::*;
use crate::genome::{Genome, Fitness, dominated};
use crate::graph::filled;

verus! {

/// Interior crowding contributions are at most this much.
pub const CROWD_SCALE: u64 = 1_000_000;
/// The contribution of the two extreme genomes of an objective.
pub const BOUNDARY_BONUS: u64 = 1_000_000_000;

/// `o` lists each of `0..n` exactly once.
pub open spec fn is_permutation(o: Seq<usize>, n: nat) -> bool {
    &&& o.len() == n
    &&& forall|k: int| 0 <= k < o.len() ==> #[trigger] o[k] < n
    &&& o.no_duplicates()
}

pub open spec fn lex_le(a1: u64, b1: u64, a2: u64, b2: u64) -> bool {
    a1 < a2 || (a1 == a2 && b1 <= b2)
}

/// `o` orders positions by `major`, then by `minor`.
pub open spec fn sorted_by(major: Seq<u64>, minor: Seq<u64>, o: Seq<usize>) -> bool {
    forall|i: int, j: int|
        0 <= i < j < o.len() ==> lex_le(
            major[o[i] as int],
            minor[o[i] as int],
            major[o[j] as int],
            minor[o[j] as int],
        ) && #[trigger] major[o[i] as int] <= #[trigger] major[o[j] as int]
}

/// An ordering of the positions of `major` and `minor` by `major`, ties
/// broken by `minor`.
pub fn sort_order(major: &Vec<u64>, minor: &Vec<u64>) -> (o: Vec<usize>)
    requires
        major.len() == minor.len(),
    ensures
        is_permutation(o@, major.len() as nat),
        sorted_by(major@, minor@, o@),
{
    let n = major.len();
    let mut o: Vec<usize> = Vec::new();
    let mut i: usize = 0;
    while i < n
        invariant
            n == major.len(),
            n == minor.len(),
            i <= n,
            o.len() == i,
            forall|k: int| 0 <= k < o.len() ==> #[trigger] o[k] < i,
            o@.no_duplicates(),
            sorted_by(major@, minor@, o@),
        decreases n - i,
    {
        let mut pos: usize = 0;
        while pos < o.len() && (major[o[pos]] < major[i] || (major[o[pos]] == major[i] && minor[o[pos]]
            <= minor[i]))
            invariant
                n == major.len(),
                n == minor.len(),
                i < n,
                o.len() == i,
                pos <= o.len(),
                forall|k: int| 0 <= k < o.len() ==> #[trigger] o[k] < i,
                forall|q: int|
                    0 <= q < pos ==> lex_le(
                        major[#[trigger] o[q] as int],
                        minor[o[q] as int],
                        major[i as int],
                        minor[i as int],
                    ),
            decreases o.len() - pos,
        {
            pos = pos + 1;
        }
        let ghost o0 = o@;
        o.insert(pos, i);
        assert(o@ == o0.insert(pos as int, i));
        assert forall|a: int, b: int| 0 <= a < b < o.len() implies lex_le(
            major[o[a] as int],
            minor[o[a] as int],
            major[o[b] as int],
            minor[o[b] as int],
        ) && #[trigger] major[o[a] as int] <= #[trigger] major[o[b] as int] by {
            if b < pos {
                assert(o[a] == o0[a] && o[b] == o0[b]);
            } else if b == pos {
                assert(o[a] == o0[a]);
            } else if a == pos {
                assert(o[b] == o0[b - 1]);
                assert(lex_le(major[o0[pos as int] as int], minor[o0[pos as int] as int], major[o0[b - 1] as int], minor[o0[b - 1] as int])) by {
                    if pos < b - 1 {
                        assert(major[o0[pos as int] as int] <= major[o0[b - 1] as int]);
                    }
                }
            } else if a < pos {
                assert(o[a] == o0[a] && o[b] == o0[b - 1]);
            } else {
                assert(o[a] == o0[a - 1] && o[b] == o0[b - 1]);
                assert(major[o0[a - 1] as int] <= major[o0[b - 1] as int]);
            }
        }
        assert forall|a: int, b: int| 0 <= a < o.len() && 0 <= b < o.len() && a != b implies o[a] != o[b] by {
            if a != pos && b != pos {
                let a0 = if a < pos { a } else { a - 1 };
                let b0 = if b < pos { b } else { b - 1 };
                assert(o[a] == o0[a0] && o[b] == o0[b0]);
            } else if a == pos {
                let b0 = if b < pos { b } else { b - 1 };
                assert(o[b] == o0[b0]);
            } else {
                let a0 = if a < pos { a } else { a - 1 };
                assert(o[a] == o0[a0]);
            }
        }
        assert forall|k: int| 0 <= k < o.len() implies #[trigger] o[k] < i + 1 by {
            if k < pos {
                assert(o[k] == o0[k]);
            } else if k > pos {
                assert(o[k] == o0[k - 1]);
            }
        }
        i = i + 1;
    }
    o
}

/// The crowding contribution, for one objective with values `keys`, of
/// the genome at position `p` of the ascending order `o`: the two ends get
/// `BOUNDARY_BONUS`; an interior genome gets the gap between its two
/// neighbours' values over the span of the values, scaled to
/// `CROWD_SCALE` and rounded down (0 when all values are equal).
pub open spec fn contrib_at(keys: Seq<u64>, o: Seq<usize>, p: int) -> nat {
    let n = o.len() as int;
    if p == 0 || p == n - 1 {
        BOUNDARY_BONUS as nat
    } else {
        let span = keys[o[n - 1] as int] - keys[o[0] as int];
        if span <= 0 {
            0
        } else {
            ((keys[o[p + 1] as int] - keys[o[p - 1] as int]) * CROWD_SCALE / span) as nat
        }
    }
}

/// `o` orders the positions of `keys` ascending.
pub open spec fn ascending(keys: Seq<u64>, o: Seq<usize>) -> bool {
    &&& is_permutation(o, keys.len() as nat)
    &&& forall|i: int, j: int|
        0 <= i < j < o.len() ==> #[trigger] keys[o[i] as int] <= #[trigger] keys[o[j] as int]
}

/// In a non-empty group ordered by one objective, the smallest and the
/// largest genome get a contribution strictly greater than any interior
/// genome's.
pub proof fn lemma_crowding_boundary_bonus(keys: Seq<u64>, o: Seq<usize>, p: int)
    requires
        ascending(keys, o),
        0 < p < o.len() - 1,
    ensures
        contrib_at(keys, o, p) < contrib_at(keys, o, 0),
        contrib_at(keys, o, p) < contrib_at(keys, o, o.len() - 1),
{
    let n = o.len() as int;
    let span = keys[o[n - 1] as int] - keys[o[0] as int];
    if span > 0 {
        let gap = keys[o[p + 1] as int] - keys[o[p - 1] as int];
        assert(keys[o[p + 1] as int] <= keys[o[n - 1] as int]) by {
            if p + 1 < n - 1 {
                assert(keys[o[p + 1] as int] <= keys[o[n - 1] as int]);
            }
        }
        assert(keys[o[0] as int] <= keys[o[p - 1] as int]) by {
            if 0 < p - 1 {
                assert(keys[o[0] as int] <= keys[o[p - 1] as int]);
            }
        }
        assert(gap * CROWD_SCALE / span <= CROWD_SCALE) by (nonlinear_arith)
            requires
                0 <= gap <= span,
                span > 0;
    }
}

/// `gap` over `span`, scaled to `CROWD_SCALE` and rounded down.
fn scaled_gap(gap: u64, span: u64) -> (r: u64)
    requires
        gap <= span,
        span > 0,
    ensures
        r == gap * CROWD_SCALE / (span as int),
        r <= CROWD_SCALE,
{
    let g = gap as u128;
    assert(g * CROWD_SCALE <= u64::MAX * CROWD_SCALE) by (nonlinear_arith)
        requires g <= u64::MAX;
    assert(g * CROWD_SCALE / (span as int) <= CROWD_SCALE) by (nonlinear_arith)
        requires
            0 <= g <= span,
            span > 0;
    (g * (CROWD_SCALE as u128) / (span as u128)) as u64
}

/// Per-genome contributions of one objective: the genome at position `p`
/// of the ascending order `o` gets `contrib_at(keys, o, p)`.
pub fn crowding_contribution(keys: &Vec<u64>, o: &Vec<usize>) -> (c: Vec<u64>)
    requires
        ascending(keys@, o@),
        keys.len() >= 1,
    ensures
        c.len() == keys.len(),
        forall|p: int| 0 <= p < o.len() ==> c[#[trigger] o[p] as int] == contrib_at(keys@, o@, p),
        forall|j: int| 0 <= j < c.len() ==> #[trigger] c[j] <= BOUNDARY_BONUS,
{
    let n = keys.len();
    let mut c = filled(0u64, n);
    let lo = keys[o[0]];
    let hi = keys[o[n - 1]];
    proof {
        if n > 1 {
            assert(keys[o[0] as int] <= keys[o[n - 1] as int]);
        }
    }
    let span = hi - lo;
    let mut p: usize = 0;
    while p < n
        invariant
            ascending(keys@, o@),
            n == keys.len(),
            n >= 1,
            c.len() == n,
            p <= n,
            lo == keys[o[0] as int],
            hi == keys[o[n - 1] as int],
            span == hi - lo,
            forall|q: int| 0 <= q < p ==> c[#[trigger] o[q] as int] == contrib_at(keys@, o@, q),
            forall|j: int| 0 <= j < n ==> #[trigger] c[j] <= BOUNDARY_BONUS,
        decreases n - p,
    {
        let v: u64;
        if p == 0 || p == n - 1 {
            v = BOUNDARY_BONUS;
        } else if span == 0 {
            v = 0;
        } else {
            let a = keys[o[p - 1]];
            let b = keys[o[p + 1]];
            assert(a <= b);
            assert(lo <= a && b <= hi) by {
                if 0 < p - 1 {
                    assert(keys[o[0] as int] <= keys[o[p - 1] as int]);
                }
                if p + 1 < n - 1 {
                    assert(keys[o[p + 1] as int] <= keys[o[n - 1] as int]);
                }
            }
            v = scaled_gap(b - a, span);
        }
        let ghost c0 = c@;
        c.set(o[p], v);
        assert forall|q: int| 0 <= q < p + 1 implies c[#[trigger] o[q] as int] == contrib_at(keys@, o@, q) by {
            if q < p {
                assert(o[q] != o[p as int]);
                assert(c[o[q] as int] == c0[o[q] as int]);
            }
        }
        p = p + 1;
    }
    c
}

/// `c` holds each genome's contribution for the ascending order `o` of
/// `keys`.
pub open spec fn contributions(keys: Seq<u64>, o: Seq<usize>, c: Seq<u64>) -> bool {
    &&& ascending(keys, o)
    &&& c.len() == keys.len()
    &&& forall|p: int| 0 <= p < o.len() ==> c[#[trigger] o[p] as int] == contrib_at(keys, o, p)
}

pub open spec fn edge_keys(pop: Seq<Genome>) -> Seq<u64> {
    pop.map_values(|g: Genome| g.avg_edge_value)
}

pub open spec fn dev_keys(pop: Seq<Genome>) -> Seq<u64> {
    pop.map_values(|g: Genome| g.avg_overall_dev)
}

pub open spec fn size_keys(pop: Seq<Genome>) -> Seq<u64> {
    pop.map_values(|g: Genome| g.avg_seg_size)
}

/// `crowd` holds crowding scores for the objective values `ke`, `ko`, `kc`:
/// for some ascending order of each objective, the sum of each genome's
/// three contributions.
pub open spec fn crowding_witness(
    ke: Seq<u64>,
    ko: Seq<u64>,
    kc: Seq<u64>,
    crowd: Seq<u64>,
    oe: Seq<usize>,
    oo: Seq<usize>,
    oc: Seq<usize>,
    ce: Seq<u64>,
    co: Seq<u64>,
    cc: Seq<u64>,
) -> bool {
    &&& contributions(ke, oe, ce)
    &&& contributions(ko, oo, co)
    &&& contributions(kc, oc, cc)
    &&& crowd.len() == ke.len()
    &&& forall|i: int| 0 <= i < ke.len() ==> #[trigger] crowd[i] == ce[i] + co[i] + cc[i]
}

pub open spec fn crowding_of_keys(ke: Seq<u64>, ko: Seq<u64>, kc: Seq<u64>, crowd: Seq<u64>) -> bool {
    exists|oe: Seq<usize>, oo: Seq<usize>, oc: Seq<usize>, ce: Seq<u64>, co: Seq<u64>, cc: Seq<u64>|
        #[trigger] crowding_witness(ke, ko, kc, crowd, oe, oo, oc, ce, co, cc)
}

/// `crowd` holds crowding scores of the genomes of `pop`.
pub open spec fn crowding_scores_of(pop: Seq<Genome>, crowd: Seq<u64>) -> bool {
    crowding_of_keys(edge_keys(pop), dev_keys(pop), size_keys(pop), crowd)
}

/// Crowding scores for the objective values of a non-empty group.
pub fn crowding_from_keys(ke: &Vec<u64>, ko: &Vec<u64>, kc: &Vec<u64>) -> (crowd: Vec<u64>)
    requires
        ke.len() >= 1,
        ko.len() == ke.len(),
        kc.len() == ke.len(),
    ensures
        crowding_of_keys(ke@, ko@, kc@, crowd@),
{
    let n = ke.len();
    let zeros = filled(0u64, n);
    let oe = sort_order(ke, &zeros);
    let oo = sort_order(ko, &zeros);
    let oc = sort_order(kc, &zeros);
    let ce = crowding_contribution(ke, &oe);
    let co = crowding_contribution(ko, &oo);
    let cc = crowding_contribution(kc, &oc);
    let mut crowd: Vec<u64> = Vec::new();
    let mut k: usize = 0;
    while k < n
        invariant
            n == ke.len(),
            ce.len() == n,
            co.len() == n,
            cc.len() == n,
            forall|j: int| 0 <= j < n ==> #[trigger] ce[j] <= BOUNDARY_BONUS,
            forall|j: int| 0 <= j < n ==> #[trigger] co[j] <= BOUNDARY_BONUS,
            forall|j: int| 0 <= j < n ==> #[trigger] cc[j] <= BOUNDARY_BONUS,
            k <= n,
            crowd.len() == k,
            forall|j: int| 0 <= j < k ==> #[trigger] crowd[j] == ce[j] + co[j] + cc[j],
        decreases n - k,
    {
        crowd.push(ce[k] + co[k] + cc[k]);
        k = k + 1;
    }
    assert(crowding_witness(ke@, ko@, kc@, crowd@, oe@, oo@, oc@, ce@, co@, cc@));
    crowd
}

/// The three objective values of each genome.
fn objective_keys(pop: &Vec<Genome>) -> (r: (Vec<u64>, Vec<u64>, Vec<u64>))
    ensures
        r.0@ == edge_keys(pop@),
        r.1@ == dev_keys(pop@),
        r.2@ == size_keys(pop@),
{
    let n = pop.len();
    let mut ke: Vec<u64> = Vec::new();
    let mut ko: Vec<u64> = Vec::new();
    let mut kc: Vec<u64> = Vec::new();
    let mut i: usize = 0;
    while i < n
        invariant
            n == pop.len(),
            i <= n,
            ke@ == edge_keys(pop@).subrange(0, i as int),
            ko@ == dev_keys(pop@).subrange(0, i as int),
            kc@ == size_keys(pop@).subrange(0, i as int),
        decreases n - i,
    {
        ke.push(pop[i].avg_edge_value);
        ko.push(pop[i].avg_overall_dev);
        kc.push(pop[i].avg_seg_size);
        assert(ke@ =~= edge_keys(pop@).subrange(0, i + 1));
        assert(ko@ =~= dev_keys(pop@).subrange(0, i + 1));
        assert(kc@ =~= size_keys(pop@).subrange(0, i + 1));
        i = i + 1;
    }
    assert(ke@ =~= edge_keys(pop@));
    assert(ko@ =~= dev_keys(pop@));
    assert(kc@ =~= size_keys(pop@));
    (ke, ko, kc)
}

/// Crowding scores of a non-empty group of genomes.
pub fn crowding_scores(pop: &Vec<Genome>) -> (crowd: Vec<u64>)
    requires
        pop.len() >= 1,
    ensures
        crowding_scores_of(pop@, crowd@),
{
    let (ke, ko, kc) = objective_keys(pop);
    crowding_from_keys(&ke, &ko, &kc)
}

/// The genomes of `pop` rearranged: position `k` gets `pop[order[k]]`.
pub fn permute(pop: Vec<Genome>, order: &Vec<usize>) -> (r: Vec<Genome>)
    requires
        is_permutation(order@, pop.len() as nat),
    ensures
        r.len() == pop.len(),
        forall|k: int| 0 <= k < r.len() ==> #[trigger] r[k] == pop[order[k] as int],
{
    let n = pop.len();
    let ghost pop0 = pop@;
    let mut pop = pop;
    let mut rev: Vec<Option<Genome>> = Vec::new();
    while pop.len() > 0
        invariant
            pop0.len() == n,
            pop@ == pop0.subrange(0, pop.len() as int),
            rev.len() + pop.len() == n,
            forall|k: int| 0 <= k < rev.len() ==> #[trigger] rev[k] == Some(pop0[n - 1 - k]),
        decreases pop.len(),
    {
        let g = pop.pop().unwrap();
        rev.push(Some(g));
    }
    let mut slots: Vec<Option<Genome>> = Vec::new();
    while rev.len() > 0
        invariant
            pop0.len() == n,
            rev.len() + slots.len() == n,
            forall|k: int| 0 <= k < rev.len() ==> #[trigger] rev[k] == Some(pop0[n - 1 - k]),
            forall|k: int| 0 <= k < slots.len() ==> #[trigger] slots[k] == Some(pop0[k]),
        decreases rev.len(),
    {
        let g = rev.pop().unwrap();
        slots.push(g);
    }
    let mut r: Vec<Genome> = Vec::new();
    let mut k: usize = 0;
    while k < n
        invariant
            pop0.len() == n,
            is_permutation(order@, n as nat),
            slots.len() == n,
            k <= n,
            r.len() == k,
            forall|j: int| 0 <= j < k ==> #[trigger] r[j] == pop0[order[j] as int],
            forall|i: int|
                0 <= i < n ==> (#[trigger] slots[i] is None <==> exists|j: int|
                    0 <= j < k && order[j] == i),
            forall|i: int| 0 <= i < n && #[trigger] slots[i] is Some ==> slots[i] == Some(pop0[i]),
        decreases n - k,
    {
        let i = order[k];
        assert(slots[i as int] is Some) by {
            if slots[i as int] is None {
                let j = choose|j: int| 0 <= j < k && order[j] == i;
                assert(order[j] == order[k as int]);
            }
        }
        let ghost slots0 = slots@;
        let g = slots[i].take();
        assert forall|m: int| 0 <= m < n implies (#[trigger] slots[m] is None <==> exists|j: int|
            0 <= j < k + 1 && order[j] == m) by {
            if m != i {
                assert(slots[m] == slots0[m]);
                if exists|j: int| 0 <= j < k + 1 && order[j] == m {
                    let j = choose|j: int| 0 <= j < k + 1 && order[j] == m;
                    assert(j < k);
                }
            } else {
                assert(order[k as int] == m);
            }
        }
        r.push(g.unwrap());
        k = k + 1;
    }
    r
}

/// `r` is `pop` in the order of its crowding scores, smallest first, for
/// some crowding scores of `pop`.
pub open spec fn crowding_sorted(pop: Seq<Genome>, r: Seq<Genome>) -> bool {
    exists|crowd: Seq<u64>, order: Seq<usize>|
        #[trigger] crowding_order(pop, r, crowd, order)
}

pub open spec fn crowding_order(pop: Seq<Genome>, r: Seq<Genome>, crowd: Seq<u64>, order: Seq<usize>) -> bool {
    &&& crowding_scores_of(pop, crowd)
    &&& ascending(crowd, order)
    &&& r.len() == pop.len()
    &&& forall|k: int| 0 <= k < r.len() ==> #[trigger] r[k] == pop[order[k] as int]
}

/// Orders a group of genomes of equal rank by crowding score, ascending,
/// so that the most diverse genomes come last.
pub fn sort_by_crowding(subpop: Vec<Genome>) -> (r: Vec<Genome>)
    ensures
        subpop.len() == 0 ==> r@ == subpop@,
        subpop.len() > 0 ==> crowding_sorted(subpop@, r@),
{
    if subpop.len() == 0 {
        return subpop;
    }
    let crowd = crowding_scores(&subpop);
    let zeros = filled(0u64, subpop.len());
    let order = sort_order(&crowd, &zeros);
    let ghost pop0 = subpop@;
    let r = permute(subpop, &order);
    assert(crowding_order(pop0, r@, crowd@, order@));
    r
}

/// The fitness vectors of a population.
pub open spec fn fits(pop: Seq<Genome>) -> Seq<Fitness> {
    pop.map_values(|g: Genome| g.fit())
}

/// How many of the first `k` vectors of `fs` dominate `a`.
pub open spec fn dom_count(fs: Seq<Fitness>, a: Fitness, k: int) -> nat
    decreases k,
{
    if k <= 0 {
        0
    } else {
        dom_count(fs, a, k - 1) + if dominated(a, fs[k - 1]) {
            1nat
        } else {
            0nat
        }
    }
}

/// The rank of `a` in a population: how many of its members dominate it.
pub open spec fn rank_in(pop: Seq<Genome>, a: Genome) -> nat {
    dom_count(fits(pop), a.fit(), pop.len() as int)
}

proof fn lemma_dom_count_bound(fs: Seq<Fitness>, a: Fitness, k: int)
    requires
        0 <= k,
    ensures
        dom_count(fs, a, k) <= k,
    decreases k,
{
    if k > 0 {
        lemma_dom_count_bound(fs, a, k - 1);
    }
}

/// The rank of each member of `pop`.
pub fn domination_counts(pop: &Vec<Genome>) -> (ranks: Vec<usize>)
    ensures
        ranks.len() == pop.len(),
        forall|i: int| 0 <= i < pop.len() ==> #[trigger] ranks[i] == rank_in(pop@, pop[i]),
{
    let n = pop.len();
    let mut ranks: Vec<usize> = Vec::new();
    let mut i: usize = 0;
    while i < n
        invariant
            n == pop.len(),
            i <= n,
            ranks.len() == i,
            forall|j: int| 0 <= j < i ==> #[trigger] ranks[j] == rank_in(pop@, pop[j]),
        decreases n - i,
    {
        let mut rank: usize = 0;
        let mut j: usize = 0;
        while j < n
            invariant
                n == pop.len(),
                i < n,
                j <= n,
                rank == dom_count(fits(pop@), pop[i as int].fit(), j as int),
            decreases n - j,
        {
            proof {
                lemma_dom_count_bound(fits(pop@), pop[i as int].fit(), j as int);
            }
            assert(fits(pop@)[j as int] == pop[j as int].fit());
            if pop[i].dominated_by(&pop[j]) {
                rank = rank + 1;
            }
            j = j + 1;
        }
        ranks.push(rank);
        i = i + 1;
    }
    ranks
}

/// The genomes that no member of `pop` dominates, in their order in `pop`.
pub fn get_pareto_front(pop: Vec<Genome>) -> (front: Vec<Genome>)
    ensures
        front@ == pop@.filter(|g: Genome| rank_in(pop@, g) == 0),
{
    let ranks = domination_counts(&pop);
    let ghost pop0 = pop@;
    let ghost pred = |g: Genome| rank_in(pop0, g) == 0;
    let n = pop.len();
    let mut items = pop;
    let mut rev: Vec<Genome> = Vec::new();
    while items.len() > 0
        invariant
            items.len() + rev.len() == n,
            pop0.len() == n,
            ranks.len() == n,
            items@ == pop0.subrange(0, items.len() as int),
            forall|k: int| 0 <= k < rev.len() ==> #[trigger] rev[k] == pop0[n - 1 - k],
        decreases items.len(),
    {
        let g = items.pop().unwrap();
        rev.push(g);
    }
    let mut front: Vec<Genome> = Vec::new();
    let mut k: usize = 0;
    proof {
        reveal(Seq::filter);
        assert(pop0.subrange(0, 0).filter(pred) =~= Seq::<Genome>::empty());
    }
    while rev.len() > 0
        invariant
            rev.len() + k == n,
            pop0.len() == n,
            ranks.len() == n,
            forall|j: int| 0 <= j < n ==> #[trigger] ranks[j] == rank_in(pop0, pop0[j]),
            forall|j: int| 0 <= j < rev.len() ==> #[trigger] rev[j] == pop0[n - 1 - j],
            front@ == pop0.subrange(0, k as int).filter(pred),
            pred == (|g: Genome| rank_in(pop0, g) == 0),
        decreases rev.len(),
    {
        let g = rev.pop().unwrap();
        assert(g == pop0[k as int]);
        proof {
            reveal(Seq::filter);
            assert(pop0.subrange(0, k + 1).drop_last() =~= pop0.subrange(0, k as int));
            assert(pop0.subrange(0, k + 1).last() == pop0[k as int]);
            let sub = pop0.subrange(0, k + 1);
            assert(sub.filter(pred) == if pred(sub.last()) {
                sub.drop_last().filter(pred).push(sub.last())
            } else {
                sub.drop_last().filter(pred)
            });
            assert(pred(pop0[k as int]) == (rank_in(pop0, pop0[k as int]) == 0));
        }
        if ranks[k] == 0 {
            front.push(g);
        }
        k = k + 1;
    }
    assert(pop0.subrange(0, n as int) =~= pop0);
    front
}

/// The positions before `k` whose rank is `r`, in increasing order.
pub open spec fn bucket(ranks: Seq<usize>, r: int, k: int) -> Seq<usize>
    decreases k,
{
    if k <= 0 {
        seq![]
    } else {
        let b = bucket(ranks, r, k - 1);
        if ranks[k - 1] == r {
            b.push((k - 1) as usize)
        } else {
            b
        }
    }
}

/// The entries of `v` at the positions `b`.
pub open spec fn pick(v: Seq<u64>, b: Seq<usize>) -> Seq<u64> {
    b.map_values(|i: usize| v[i as int])
}

proof fn lemma_bucket_facts(ranks: Seq<usize>, r: int, k: int)
    requires
        0 <= k <= ranks.len(),
        ranks.len() <= usize::MAX,
    ensures
        bucket(ranks, r, k).no_duplicates(),
        forall|a: int, b: int|
            0 <= a < b < bucket(ranks, r, k).len() ==> #[trigger] bucket(ranks, r, k)[a] < #[trigger] bucket(ranks, r, k)[b],
        forall|j: int|
            0 <= j < bucket(ranks, r, k).len() ==> #[trigger] bucket(ranks, r, k)[j] < k && ranks[bucket(
                ranks,
                r,
                k,
            )[j] as int] == r,
    decreases k,
{
    if k > 0 {
        lemma_bucket_facts(ranks, r, k - 1);
        let b = bucket(ranks, r, k - 1);
        if ranks[k - 1] == r {
            let b2 = b.push((k - 1) as usize);
            assert(b2.last() == (k - 1) as usize);
            assert forall|a: int, c: int| 0 <= a < c < b2.len() implies #[trigger] b2[a] < #[trigger] b2[c] by {
                if c < b.len() {
                    assert(b2[a] == b[a] && b2[c] == b[c]);
                } else {
                    assert(b2[a] == b[a]);
                }
            }
        }
    }
}

/// `r` is `pop` ordered by `order`, ranks from highest to lowest, equal
/// ranks by ascending `crowd`, where the entries of `crowd` in each rank's
/// group are crowding scores of that group.
pub open spec fn rank_crowding_order(pop: Seq<Genome>, r: Seq<Genome>, order: Seq<usize>, crowd: Seq<u64>) -> bool {
    let ranks = Seq::new(pop.len(), |i: int| rank_in(pop, pop[i]) as usize);
    &&& is_permutation(order, pop.len() as nat)
    &&& r.len() == pop.len()
    &&& forall|k: int| 0 <= k < r.len() ==> #[trigger] r[k] == pop[order[k] as int]
    &&& forall|i: int, j: int|
        0 <= i < j < r.len() ==> rank_in(pop, #[trigger] r[i]) >= rank_in(pop, #[trigger] r[j]) && (
        rank_in(pop, r[i]) == rank_in(pop, r[j]) ==> crowd[order[i] as int] <= crowd[order[j] as int])
    &&& forall|rk: int|
        #![trigger bucket(ranks, rk, pop.len() as int)]
        bucket(ranks, rk, pop.len() as int).len() > 0 ==> crowding_of_keys(
            pick(edge_keys(pop), bucket(ranks, rk, pop.len() as int)),
            pick(dev_keys(pop), bucket(ranks, rk, pop.len() as int)),
            pick(size_keys(pop), bucket(ranks, rk, pop.len() as int)),
            pick(crowd, bucket(ranks, rk, pop.len() as int)),
        )
}

/// Orders a population for survivor selection: groups by rank (the count
/// of members that dominate a genome) from the highest rank to rank 0, each
/// group in ascending crowding order, so the best genomes come last.
pub fn rank_crowding_sort(pop: Vec<Genome>) -> (r: Vec<Genome>)
    ensures
        exists|order: Seq<usize>, crowd: Seq<u64>| #[trigger] rank_crowding_order(pop@, r@, order, crowd),
{
    let n = pop.len();
    let ranks = domination_counts(&pop);
    let ghost sranks = Seq::new(pop.len() as nat, |i: int| rank_in(pop@, pop@[i]) as usize);
    assert(ranks@ =~= sranks);
    let mut max_rank: usize = 0;
    let mut i: usize = 0;
    while i < n
        invariant
            n == ranks.len(),
            i <= n,
            forall|j: int| 0 <= j < i ==> #[trigger] ranks[j] <= max_rank,
        decreases n - i,
    {
        if ranks[i] > max_rank {
            max_rank = ranks[i];
        }
        i = i + 1;
    }
    let (ke, ko, kc) = objective_keys(&pop);
    let mut crowd = filled(0u64, n);
    let mut rk: usize = 0;
    let mut done = false;
    while !done
        invariant
            n == ranks.len(),
            n == pop.len(),
            ranks@ == sranks,
            ke@ == edge_keys(pop@),
            ko@ == dev_keys(pop@),
            kc@ == size_keys(pop@),
            crowd.len() == n,
            forall|j: int| 0 <= j < n ==> #[trigger] ranks[j] <= max_rank,
            rk <= max_rank,
            done ==> rk == max_rank,
            forall|q: int|
                #![trigger bucket(sranks, q, n as int)]
                0 <= q < rk + if done { 1int } else { 0int } && bucket(sranks, q, n as int).len() > 0 ==> crowding_of_keys(
                    pick(ke@, bucket(sranks, q, n as int)),
                    pick(ko@, bucket(sranks, q, n as int)),
                    pick(kc@, bucket(sranks, q, n as int)),
                    pick(crowd@, bucket(sranks, q, n as int)),
                ),
        decreases max_rank - rk + if done { 0int } else { 1int },
    {
        let mut b: Vec<usize> = Vec::new();
        let mut be: Vec<u64> = Vec::new();
        let mut bo: Vec<u64> = Vec::new();
        let mut bc: Vec<u64> = Vec::new();
        let mut i: usize = 0;
        while i < n
            invariant
                n == ranks.len(),
                ranks@ == sranks,
                ke.len() == n,
                ko.len() == n,
                kc.len() == n,
                i <= n,
                b@ == bucket(sranks, rk as int, i as int),
                be@ == pick(ke@, b@),
                bo@ == pick(ko@, b@),
                bc@ == pick(kc@, b@),
            decreases n - i,
        {
            if ranks[i] == rk {
                b.push(i);
                be.push(ke[i]);
                bo.push(ko[i]);
                bc.push(kc[i]);
            }
            assert(be@ =~= pick(ke@, b@));
            assert(bo@ =~= pick(ko@, b@));
            assert(bc@ =~= pick(kc@, b@));
            i = i + 1;
        }
        proof {
            lemma_bucket_facts(sranks, rk as int, n as int);
        }
        if b.len() > 0 {
            let sc = crowding_from_keys(&be, &bo, &bc);
            let mut j: usize = 0;
            let ghost crowd0 = crowd@;
            while j < b.len()
                invariant
                    n == ranks.len(),
                    ranks@ == sranks,
                    crowd.len() == n,
                    sc.len() == b.len(),
                    b@ == bucket(sranks, rk as int, n as int),
                    forall|t: int| 0 <= t < b.len() ==> #[trigger] b[t] < n && sranks[b[t] as int] == rk,
                    b@.no_duplicates(),
                    j <= b.len(),
                    forall|t: int| 0 <= t < j ==> #[trigger] crowd[b[t] as int] == sc[t],
                    forall|m: int| 0 <= m < n && sranks[m] != rk ==> #[trigger] crowd[m] == crowd0[m],
                decreases b.len() - j,
            {
                let ghost c1 = crowd@;
                crowd.set(b[j], sc[j]);
                assert forall|t: int| 0 <= t < j + 1 implies #[trigger] crowd[b[t] as int] == sc[t] by {
                    if t < j {
                        assert(b[t] != b[j as int]);
                        assert(crowd[b[t] as int] == c1[b[t] as int]);
                    }
                }
                j = j + 1;
            }
            assert(pick(crowd@, b@) =~= sc@);
            assert forall|q: int|
                #![trigger bucket(sranks, q, n as int)]
                0 <= q < rk && bucket(sranks, q, n as int).len() > 0 implies pick(crowd@, bucket(sranks, q, n as int))
                == pick(crowd0, bucket(sranks, q, n as int)) by {
                lemma_bucket_facts(sranks, q, n as int);
                assert(pick(crowd@, bucket(sranks, q, n as int)) =~= pick(crowd0, bucket(sranks, q, n as int)));
            }
        }
        if rk == max_rank {
            done = true;
        } else {
            rk = rk + 1;
        }
    }
    let mut major: Vec<u64> = Vec::new();
    let mut i: usize = 0;
    while i < n
        invariant
            n == ranks.len(),
            i <= n,
            forall|j: int| 0 <= j < n ==> #[trigger] ranks[j] <= max_rank,
            major.len() == i,
            forall|j: int| 0 <= j < i ==> #[trigger] major[j] == max_rank - ranks[j],
        decreases n - i,
    {
        major.push((max_rank - ranks[i]) as u64);
        i = i + 1;
    }
    let order = sort_order(&major, &crowd);
    let ghost pop0 = pop@;
    let r = permute(pop, &order);
    proof {
        assert forall|q: int|
            #![trigger bucket(sranks, q, n as int)]
            bucket(sranks, q, n as int).len() > 0 implies crowding_of_keys(
                pick(edge_keys(pop0), bucket(sranks, q, n as int)),
                pick(dev_keys(pop0), bucket(sranks, q, n as int)),
                pick(size_keys(pop0), bucket(sranks, q, n as int)),
                pick(crowd@, bucket(sranks, q, n as int)),
            ) by {
            lemma_bucket_facts(sranks, q, n as int);
            let e = bucket(sranks, q, n as int)[0];
            assert(sranks[e as int] == q);
            assert(ranks[e as int] <= max_rank);
        }
        assert forall|a: int, b: int| 0 <= a < b < r.len() implies rank_in(pop0, #[trigger] r[a]) >= rank_in(
            pop0,
            #[trigger] r[b],
        ) && (rank_in(pop0, r[a]) == rank_in(pop0, r[b]) ==> crowd[order[a] as int] <= crowd[order[b] as int]) by {
            assert(major[order[a] as int] <= major[order[b] as int]);
            assert(sranks[order[a] as int] == rank_in(pop0, pop0[order[a] as int]));
            assert(sranks[order[b] as int] == rank_in(pop0, pop0[order[b] as int]));
        }
        assert(rank_crowding_order(pop0, r@, order@, crowd@));
    }
    r
}

} // verus!
