use moea::engine::{seed_population, train, FINAL_SAMPLE, POP_SIZE};
use moea::genome::Genome;
use moea::image_proc::Img;

fn checker(width: usize, height: usize) -> Img {
    let mut raw = Vec::new();
    for p in 0..width * height {
        let v = if (p % width) < width / 2 { 20 } else { 220 };
        raw.extend_from_slice(&[v, v / 2, 255 - v]);
    }
    Img::new(width, height, raw).unwrap()
}

fn is_canonical(labels: &[usize], n: usize) -> bool {
    let mut next = 0;
    for &l in labels {
        if l > next {
            return false;
        }
        if l == next {
            next += 1;
        }
    }
    next == n
}

#[test]
fn seeding_fills_the_population() {
    let img = checker(6, 4);
    let pop = seed_population(&img);
    assert_eq!(pop.len(), POP_SIZE);
    for g in &pop {
        assert_eq!(g.segmentation.len(), 24);
        assert!(is_canonical(&g.segmentation, g.num_segs));
    }
}

#[test]
fn crossover_and_mutation_give_decoded_child() {
    let img = checker(6, 4);
    let a = Genome::random(&img);
    let b = Genome::random2(&img);
    for _ in 0..20 {
        let child = a.cross_mut(&img, &b);
        assert_eq!(child.segmentation.len(), 24);
        assert!(is_canonical(&child.segmentation, child.num_segs));
        assert_eq!(child.avg_seg_size, 24 / child.num_segs as u64);
    }
}

#[test]
fn train_returns_front_segmentations() {
    let img = checker(4, 4);
    let segs = train(&img);
    assert!(!segs.is_empty());
    assert!(segs.len() <= FINAL_SAMPLE);
    for s in &segs {
        assert_eq!(s.len(), 16);
        let n = s.iter().max().unwrap() + 1;
        assert!(is_canonical(s, n));
    }
}
