use moea::decode::{decode, make_adj_list};
use moea::fitness::{get_centroids, get_fitness, get_measures};
use moea::genome::{
    block_labels, crossover_labels, grow_regions, mutate, region_labels, Genome, MutationDraw,
};
use moea::graph::renumber;
use moea::image_proc::{Img, Pix};

fn image(width: usize, height: usize, colors: &[(u8, u8, u8)]) -> Img {
    let mut raw = Vec::new();
    for &(r, g, b) in colors {
        raw.push(r);
        raw.push(g);
        raw.push(b);
    }
    Img::new(width, height, raw).unwrap()
}

#[test]
fn uniform_image_single_segment() {
    let img = image(4, 4, &[(90, 20, 200); 16]);
    let g = Genome::from_labels(&img, &vec![7; 16]);
    assert_eq!(g.num_segs, 1);
    assert_eq!(g.segmentation, vec![0; 16]);
    let centroids = get_centroids(&img, &g.segmentation, 1);
    assert_eq!(centroids, vec![Pix::new(90, 20, 200)]);
    let (edge, dev) = get_measures(&img, &g.segmentation, &centroids);
    assert_eq!(edge, 0);
    assert_eq!(dev, 0);
    assert_eq!(g.avg_edge_value, 0);
    assert_eq!(g.avg_overall_dev, 0);
    assert_eq!(g.avg_seg_size, 16);
}

#[test]
fn two_colour_halves() {
    // Left column black, right column (3, 4, 0): colour distance 5.
    let img = image(2, 2, &[(0, 0, 0), (3, 4, 0), (0, 0, 0), (3, 4, 0)]);
    let g = Genome::from_labels(&img, &vec![4, 9, 4, 9]);
    assert_eq!(g.num_segs, 2);
    assert_eq!(g.segmentation, vec![0, 1, 0, 1]);
    let centroids = get_centroids(&img, &g.segmentation, 2);
    assert_eq!(centroids, vec![Pix::new(0, 0, 0), Pix::new(3, 4, 0)]);
    let (edge, dev) = get_measures(&img, &g.segmentation, &centroids);
    // Two shared edges, each seen from both of its pixels.
    assert_eq!(edge, 20);
    assert_eq!(dev, 0);
    assert_eq!(g.avg_edge_value, 10);
    assert_eq!(g.avg_seg_size, 2);
}

#[test]
fn region_growing_small_image_covers_all() {
    let img = image(3, 3, &[(1, 2, 3); 9]);
    let raw = region_labels(&img);
    assert_eq!(raw.len(), 9);
    assert!(raw.iter().all(|&l| l >= 1));
    let g = Genome::random2(&img);
    assert_eq!(g.segmentation.len(), 9);
    assert_eq!(g.num_segs, 1);
    assert_eq!(g.segmentation, vec![0; 9]);
}

#[test]
fn decode_splits_disconnected_label() {
    // Label 5 appears in two separate places.
    let img = image(3, 1, &[(0, 0, 0); 3]);
    let (labels, adj, n) = decode(&img, &vec![5, 2, 5]);
    assert_eq!(labels, vec![0, 1, 2]);
    assert_eq!(n, 3);
    assert_eq!(adj, vec![Vec::<usize>::new(), vec![], vec![]]);
}

#[test]
fn decode_is_idempotent_on_canonical() {
    let img = image(3, 2, &[(0, 0, 0); 6]);
    let seg = vec![0, 0, 1, 2, 0, 1];
    let (labels, _, n) = decode(&img, &seg);
    assert_eq!(labels, seg);
    assert_eq!(n, 3);
    let (again, _, m) = decode(&img, &labels);
    assert_eq!(again, labels);
    assert_eq!(m, n);
}

#[test]
fn decode_covers_every_pixel_densely() {
    let img = image(4, 3, &[(0, 0, 0); 12]);
    let raw = vec![9, 9, 3, 3, 1, 9, 3, 7, 1, 1, 7, 7];
    let (labels, _, n) = decode(&img, &raw);
    assert_eq!(labels.len(), 12);
    for k in 0..n {
        assert!(labels.contains(&k));
    }
    assert!(labels.iter().all(|&l| l < n));
    assert_eq!(labels, vec![0, 0, 1, 1, 2, 0, 1, 3, 2, 2, 3, 3]);
    assert_eq!(n, 4);
}

#[test]
fn adjacency_lists_same_label_neighbours() {
    let img = image(2, 2, &[(0, 0, 0); 4]);
    let adj = make_adj_list(&vec![1, 1, 2, 1], &img);
    // North, east, south, west order.
    assert_eq!(adj, vec![vec![1], vec![3, 0], vec![], vec![1]]);
}

#[test]
fn renumber_components_in_first_seen_order() {
    let adj = vec![vec![3], vec![], vec![], vec![0]];
    let (labels, n) = renumber(&adj);
    assert_eq!(labels, vec![0, 1, 2, 0]);
    assert_eq!(n, 3);
}

#[test]
fn fitness_is_deterministic() {
    let img = image(2, 2, &[(10, 0, 0), (20, 0, 0), (30, 0, 0), (250, 0, 0)]);
    let seg = vec![0, 0, 0, 1];
    let a = get_fitness(&img, &seg, 2);
    let b = get_fitness(&img, &seg, 2);
    assert_eq!(a, b);
    // Segment 0 centroid is 20: deviations 10 + 0 + 10; pixel 3 alone.
    // Edges: 1-3 (230) and 2-3 (220), each counted from both sides.
    assert_eq!(a, ((2 * 230 + 2 * 220) / 2, 20 / 2, 4 / 2, 2));
}

#[test]
fn block_seeding_labels() {
    let img = image(7, 3, &[(0, 0, 0); 21]);
    let labels = block_labels(&img, 3);
    // Blocks of 2 by 1 pixels; column 6 is left over and gets label 9.
    assert_eq!(
        labels,
        vec![0, 0, 1, 1, 2, 2, 9, 3, 3, 4, 4, 5, 5, 9, 6, 6, 7, 7, 8, 8, 9]
    );
    let g = Genome::random(&img);
    assert_eq!(g.segmentation.len(), 21);
    assert!(g.num_segs >= 1);
}

#[test]
fn crossover_copies_segments_alternately() {
    let img = image(4, 1, &[(0, 0, 0); 4]);
    let a = Genome::from_labels(&img, &vec![0, 0, 1, 1]);
    let b = Genome::from_labels(&img, &vec![0, 1, 1, 2]);
    // Segment 0 from a: pixels 0 and 1. Segment 1 from b: pixel 2 (its
    // partner 1 is taken). Segment 2 from a: pixel 3 (partner 2 taken).
    assert_eq!(crossover_labels(&img, &a, &b), vec![0, 0, 1, 2]);
    // Starting from b, every copied segment loses its partner pixel.
    assert_eq!(crossover_labels(&img, &b, &a), vec![0, 1, 2, 3]);
}

#[test]
fn spread_flip_is_depth_bounded() {
    let img = image(4, 1, &[(0, 0, 0); 4]);
    let mut seg = vec![0, 0, 0, 1];
    Genome::spread_flip(0, 0, 5, &mut seg, 2, &img);
    assert_eq!(seg, vec![5, 5, 0, 1]);
    let mut seg = vec![0, 0, 0, 1];
    Genome::spread_flip(0, 0, 5, &mut seg, 10, &img);
    assert_eq!(seg, vec![5, 5, 5, 1]);
}

#[test]
fn region_growth_stops_at_taken_pixels() {
    let img = image(4, 1, &[(0, 0, 0); 4]);
    let mut seg = vec![0, 0, 9, 0];
    let mut free = vec![true, true, false, true];
    Genome::make_rd_seg(0, 3, &mut seg, 10, &img, &mut free);
    assert_eq!(seg, vec![3, 3, 9, 0]);
    assert_eq!(free, vec![false, false, false, true]);
}

#[test]
fn mutation_draws_apply_in_pixel_order() {
    let img = image(4, 1, &[(0, 0, 0); 4]);
    let still = MutationDraw { mutate: false, dir: 0, spread_size: 0 };
    // Pixel 2 looks east at label 1 and spreads it two steps deep over 0s.
    let draws = vec![still, still, MutationDraw { mutate: true, dir: 2, spread_size: 2 }, still];
    let mut seg = vec![0, 0, 0, 1];
    mutate(&img, &mut seg, &draws);
    assert_eq!(seg, vec![0, 1, 1, 1]);
    // A neighbour with the same label changes nothing.
    let draws = vec![MutationDraw { mutate: true, dir: 2, spread_size: 5 }, still, still, still];
    let mut seg = vec![0, 0, 0, 1];
    mutate(&img, &mut seg, &draws);
    assert_eq!(seg, vec![0, 0, 0, 1]);
}

#[test]
fn regions_follow_budgets() {
    // A 300-pixel row: the first seed's budget of 200 reaches pixels
    // 0..200, and pixel 200 seeds the second region.
    let img = image(300, 1, &[(0, 0, 0); 300]);
    let mut expected = vec![1; 200];
    expected.extend(vec![2; 100]);
    assert_eq!(grow_regions(&img, &vec![200; 300]), expected);
    let mut expected = vec![1; 250];
    expected.extend(vec![2; 50]);
    assert_eq!(grow_regions(&img, &vec![250; 300]), expected);
}
