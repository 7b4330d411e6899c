use moea::b_heap::BinaryHeap;
use moea::image_proc::{Img, Pix, MAX_PIXELS};
use moea::tree_seed::{find_segments, spanning_tree_directions};

fn image(width: usize, height: usize, colors: &[(u8, u8, u8)]) -> Img {
    let mut raw = Vec::new();
    for &(r, g, b) in colors {
        raw.extend_from_slice(&[r, g, b]);
    }
    Img::new(width, height, raw).unwrap()
}

#[test]
fn heap_extracts_in_key_order() {
    let mut h = BinaryHeap::new();
    assert!(h.is_empty());
    for (v, k) in [(0usize, 50u64), (1, 20), (2, 70), (3, 10), (4, 40)] {
        h.insert(v, k, 0);
    }
    assert!(h.contains(3));
    let mut out = Vec::new();
    while !h.is_empty() {
        out.push(h.extract_max());
    }
    let keys: Vec<u64> = out.iter().map(|e| e.0).collect();
    let verts: Vec<usize> = out.iter().map(|e| e.1).collect();
    assert_eq!(keys, vec![10, 20, 40, 50, 70]);
    assert_eq!(verts, vec![3, 1, 4, 0, 2]);
}

#[test]
fn heap_relaxation_only_lowers() {
    let mut h = BinaryHeap::new();
    h.insert(5, 100, 0);
    h.insert(6, 30, 0);
    h.try_update_smallest_edge(5, 200, 2);
    assert_eq!(h.extract_max(), (30, 6, 0));
    h.insert(6, 30, 0);
    h.try_update_smallest_edge(5, 10, 3);
    assert_eq!(h.extract_max(), (10, 5, 3));
    h.set_dir(6, 4);
    assert_eq!(h.extract_max(), (30, 6, 4));
    assert!(!h.contains(6));
}

#[test]
fn spanning_walk_points_at_neighbours() {
    // Left column dark, right column bright. Every right pixel costs the
    // same from the west as down its column, and only a cheaper path
    // replaces a parent, so each keeps the west link it was found with.
    let img = image(2, 3, &[(0, 0, 0), (200, 200, 200), (0, 0, 0), (200, 200, 200), (0, 0, 0), (200, 200, 200)]);
    let dirs = spanning_tree_directions(&img, 0);
    assert_eq!(dirs[0], 0);
    assert_eq!(dirs, vec![0, 4, 1, 4, 1, 4]);
}

#[test]
fn direction_encoding_decodes_to_segments() {
    let img = image(2, 2, &[(10, 0, 0), (20, 0, 0), (90, 0, 0), (100, 0, 0)]);
    // Pixel 1 points west to 0, pixel 3 points west to 2.
    let (labels, cents) = find_segments(&img, &vec![0, 4, 0, 4]);
    assert_eq!(labels, vec![0, 0, 1, 1]);
    assert_eq!(cents, vec![Pix::new(15, 0, 0), Pix::new(95, 0, 0)]);
}

#[test]
fn image_construction_rejects_bad_sizes() {
    assert!(Img::new(0, 3, vec![]).is_none());
    assert!(Img::new(2, 2, vec![0; 11]).is_none());
    assert!(Img::new(MAX_PIXELS + 1, 1, vec![]).is_none());
    let img = Img::new(2, 1, vec![1, 2, 3, 4, 5, 6]).unwrap();
    assert_eq!(img.length(), 2);
    assert_eq!(*img.get(1), Pix::new(4, 5, 6));
}
