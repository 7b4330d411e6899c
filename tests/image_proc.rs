use moea::image_proc::{border_mask, border_overlay, Img, Pix};

fn grey(width: usize, height: usize) -> Img {
    Img::new(width, height, vec![7; 3 * width * height]).unwrap()
}

#[test]
fn neighbours_in_all_directions() {
    let img = grey(3, 3);
    // Centre pixel 4.
    let expected = [None, Some(1), Some(5), Some(7), Some(3), Some(2), Some(8), Some(6), Some(0)];
    for d in 0..9 {
        assert_eq!(img.neighbor(4, d), expected[d as usize]);
    }
    // Corner pixel 0 has only east, south and south-east.
    let corner: Vec<Option<usize>> = (1..9).map(|d| img.neighbor(0, d)).collect();
    assert_eq!(corner, vec![None, Some(1), Some(3), None, None, Some(4), None, None]);
    // Right edge does not wrap to the next row.
    assert_eq!(img.neighbor(2, 2), None);
    assert_eq!(img.neighbor(3, 4), None);
    assert_eq!(img.neighbor(4, 9), None);
}

#[test]
fn opposite_directions() {
    let pairs: Vec<i32> = (0..6).map(Img::get_opp_dir).collect();
    assert_eq!(pairs, vec![0, 3, 4, 1, 2, 0]);
}

#[test]
fn colour_distance_rounds_down() {
    assert_eq!(Pix::new(0, 0, 0).dist(&Pix::new(3, 4, 0)), 5);
    assert_eq!(Pix::new(0, 0, 0).dist(&Pix::new(1, 1, 1)), 1);
    assert_eq!(Pix::new(0, 0, 0).dist(&Pix::new(255, 255, 255)), 441);
    assert_eq!(Pix::new(9, 9, 9).dist(&Pix::new(9, 9, 9)), 0);
}

#[test]
fn distance_to_adjacent_pixel() {
    let img = Img::new(2, 1, vec![0, 0, 0, 6, 8, 0]).unwrap();
    assert_eq!(img.dist_to_adj(0, 2), Some((1, 10)));
    assert_eq!(img.dist_to_adj(0, 4), None);
}

#[test]
fn centroid_sums_accumulate() {
    assert_eq!(Pix::new(1, 2, 3).add_to_centroid_sum((10, 20, 30)), (11, 22, 33));
}

#[test]
fn borders_are_marked() {
    let img = Img::new(3, 1, vec![1, 1, 1, 2, 2, 2, 3, 3, 3]).unwrap();
    let segs = vec![0, 0, 1];
    // Every pixel of a one-row image touches the edge.
    assert!(img.is_on_border(1, &segs));
    let img = grey(3, 3);
    let segs = vec![0, 0, 0, 0, 0, 0, 0, 0, 0];
    assert!(!img.is_on_border(4, &segs));
    let segs = vec![0, 0, 0, 0, 0, 1, 0, 0, 0];
    assert!(img.is_on_border(4, &segs));
    let overlay = border_overlay(&img, &segs);
    assert_eq!(&overlay[12..15], &[0, 255, 0]);
    let uniform = vec![0; 9];
    let overlay = border_overlay(&img, &uniform);
    assert_eq!(&overlay[12..15], &[7, 7, 7]);
    let mask = border_mask(&img, &uniform);
    assert_eq!(&mask[12..15], &[255, 255, 255]);
    assert_eq!(&mask[0..3], &[0, 0, 0]);
}
