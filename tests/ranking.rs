use moea::engine::{add_unique, largest, next_generation, tournament_select, POP_SIZE};
use moea::genome::{Genome, MAX_SEG_NUM};
use moea::ranking::{
    crowding_contribution, crowding_scores, domination_counts, get_pareto_front, rank_crowding_sort,
    sort_by_crowding, sort_order, BOUNDARY_BONUS, CROWD_SCALE,
};

fn genome(edge: u64, dev: u64, size: u64, segs: usize) -> Genome {
    Genome::new((edge, dev, size, segs), vec![segs], vec![vec![]])
}

#[test]
fn dominance_is_asymmetric() {
    let a = genome(10, 5, 3, 4);
    let b = genome(12, 5, 3, 4);
    assert!(a.dominated_by(&b));
    assert!(!b.dominated_by(&a));
    assert!(!a.dominated_by(&a));
    // Trade-off: neither dominates.
    let c = genome(20, 9, 3, 4);
    assert!(!a.dominated_by(&c));
    assert!(!c.dominated_by(&a));
}

#[test]
fn feasible_dominates_infeasible() {
    let infeasible = genome(1000, 0, 1000, MAX_SEG_NUM);
    let feasible = genome(0, 1000, 0, MAX_SEG_NUM - 1);
    assert!(feasible.satisfies_constraints());
    assert!(!infeasible.satisfies_constraints());
    assert!(infeasible.dominated_by(&feasible));
    assert!(!feasible.dominated_by(&infeasible));
    // Between infeasible genomes, more segments is worse.
    let worse = genome(1000, 0, 1000, MAX_SEG_NUM + 3);
    assert!(worse.dominated_by(&infeasible));
    assert!(!infeasible.dominated_by(&worse));
}

#[test]
fn sort_order_is_lexicographic() {
    let major = vec![3, 1, 3, 0];
    let minor = vec![5, 9, 2, 7];
    assert_eq!(sort_order(&major, &minor), vec![3, 1, 2, 0]);
}

#[test]
fn crowding_boundary_bonus() {
    let keys = vec![40, 0, 10, 100];
    let order = sort_order(&keys, &vec![0; 4]);
    assert_eq!(order, vec![1, 2, 0, 3]);
    let c = crowding_contribution(&keys, &order);
    assert_eq!(c[1], BOUNDARY_BONUS);
    assert_eq!(c[3], BOUNDARY_BONUS);
    // Interior: gaps 40 - 0 and 100 - 10 over the span 100.
    assert_eq!(c[2], 40 * CROWD_SCALE / 100);
    assert_eq!(c[0], 90 * CROWD_SCALE / 100);
    assert!(c[0] < c[1] && c[2] < c[3]);
}

#[test]
fn crowding_equal_values_give_zero_interior() {
    let keys = vec![7, 7, 7];
    let order = sort_order(&keys, &vec![0; 3]);
    let c = crowding_contribution(&keys, &order);
    assert_eq!(c[order[1]], 0);
    assert_eq!(c[order[0]], BOUNDARY_BONUS);
    assert_eq!(c[order[2]], BOUNDARY_BONUS);
}

#[test]
fn crowding_scores_sum_objectives() {
    let pop = vec![genome(1, 1, 1, 2), genome(2, 2, 2, 2), genome(3, 3, 3, 2)];
    let s = crowding_scores(&pop);
    assert_eq!(s, vec![3 * BOUNDARY_BONUS, 3 * CROWD_SCALE, 3 * BOUNDARY_BONUS]);
    let sorted = sort_by_crowding(pop);
    assert_eq!(sorted[0].avg_edge_value, 2);
    assert!(sort_by_crowding(Vec::new()).is_empty());
}

#[test]
fn ranks_count_dominators() {
    let pop = vec![genome(1, 9, 1, 2), genome(5, 5, 5, 2), genome(9, 1, 9, 2), genome(9, 1, 9, 60)];
    assert_eq!(domination_counts(&pop), vec![2, 1, 0, 3]);
    let front = get_pareto_front(pop);
    assert_eq!(front.len(), 1);
    assert_eq!(front[0].avg_edge_value, 9);
    assert_eq!(front[0].num_segs, 2);
}

#[test]
fn rank_sort_puts_best_last() {
    let pop = vec![genome(9, 1, 9, 2), genome(1, 9, 1, 2), genome(5, 5, 5, 2), genome(9, 1, 9, 60)];
    let sorted = rank_crowding_sort(pop);
    let edges: Vec<u64> = sorted.iter().map(|g| g.avg_edge_value).collect();
    let segs: Vec<usize> = sorted.iter().map(|g| g.num_segs).collect();
    assert_eq!(edges, vec![9, 1, 5, 9]);
    assert_eq!(segs, vec![60, 2, 2, 2]);
}

#[test]
fn truncation_keeps_population_size() {
    let pop: Vec<Genome> = (0..POP_SIZE as u64).map(|i| genome(i, 100 - i, i, 3)).collect();
    let offspring: Vec<Genome> = (0..7u64).map(|i| genome(1000 + i, 0, 1000, 3)).collect();
    let next = next_generation(pop, offspring);
    assert_eq!(next.len(), POP_SIZE);
    // The seven children dominate everyone else and survive.
    assert_eq!(next.iter().filter(|g| g.avg_edge_value >= 1000).count(), 7);
}

#[test]
fn duplicates_are_dropped() {
    let mut set = Vec::new();
    add_unique(&mut set, genome(1, 2, 3, 4));
    add_unique(&mut set, genome(1, 2, 3, 4));
    add_unique(&mut set, genome(1, 2, 3, 5));
    assert_eq!(set.len(), 2);
    assert!(set[0].is_same(&genome(1, 2, 3, 4)));
}

#[test]
fn tournament_picks_valid_index() {
    let pop = vec![genome(1, 1, 1, 1), genome(2, 2, 2, 1), genome(3, 3, 3, 1)];
    for _ in 0..50 {
        assert!(tournament_select(&pop) < 3);
    }
    assert_eq!(largest(&vec![4, 9, 2]), 9);
    // The draws vary: some tournament over ten genomes picks a later one.
    let pop: Vec<Genome> = (0..10u64).map(|i| genome(i, i, i, 1)).collect();
    let picks: Vec<usize> = (0..200).map(|_| tournament_select(&pop)).collect();
    assert!(picks.iter().any(|&p| p > 0));
    assert!(picks.iter().all(|&p| p < 10));
}
