use plotredox::contours::{
    extract_component_contours, extract_contour_loops, pixel_bounds, pop_boundary_edge,
    add_boundary_edge, simplify_closed_loop,
};

#[test]
fn single_pixel_outline() {
    let loops = extract_component_contours(&[(5, 5)]);
    assert_eq!(loops, vec![vec![(5, 5), (6, 5), (6, 6), (5, 6)]]);
}

#[test]
fn two_pixel_outline_keeps_corners_only() {
    let loops = extract_component_contours(&[(0, 0), (1, 0)]);
    assert_eq!(loops, vec![vec![(0, 0), (2, 0), (2, 1), (0, 1)]]);
}

#[test]
fn ring_has_outer_and_inner_loop() {
    let mut ring = Vec::new();
    for y in 0..3u32 {
        for x in 0..3u32 {
            if !(x == 1 && y == 1) {
                ring.push((x, y));
            }
        }
    }
    let loops = extract_component_contours(&ring);
    assert_eq!(loops.len(), 2);
    let total: usize = loops.iter().map(|l| l.len()).sum();
    assert_eq!(total, 8);
}

#[test]
fn separate_pixels_give_separate_loops() {
    let loops = extract_contour_loops(&[(0, 0), (5, 5)]);
    assert_eq!(loops.len(), 2);
    assert!(loops.iter().all(|l| l.len() == 4));
}

#[test]
fn diagonal_pixels_are_not_four_connected() {
    let loops = extract_contour_loops(&[(0, 0), (1, 1)]);
    assert_eq!(loops.len(), 2);
}

#[test]
fn bounds_of_pixels() {
    assert!(pixel_bounds(&[]).is_none());
    let b = pixel_bounds(&[(3, 9), (7, 2), (5, 5)]).unwrap();
    assert_eq!((b.min_x, b.min_y, b.max_x, b.max_y), (3, 2, 7, 9));
    assert_eq!(b.width(), 5);
    assert_eq!(b.height(), 8);
}

#[test]
fn boundary_edges_pop_last_first() {
    let mut edges = Vec::new();
    add_boundary_edge(&mut edges, (0, 0), (1, 0));
    add_boundary_edge(&mut edges, (2, 2), (3, 2));
    add_boundary_edge(&mut edges, (0, 0), (0, 1));
    assert_eq!(pop_boundary_edge(&mut edges, (0, 0)), Some((0, 1)));
    assert_eq!(pop_boundary_edge(&mut edges, (0, 0)), Some((1, 0)));
    assert_eq!(pop_boundary_edge(&mut edges, (0, 0)), None);
    assert_eq!(edges, vec![((2, 2), (3, 2))]);
}

#[test]
fn simplify_drops_straight_points_and_repeats() {
    let pts = [(0, 0), (1, 0), (2, 0), (2, 0), (2, 1), (0, 1)];
    assert_eq!(simplify_closed_loop(&pts), Some(vec![(0, 0), (2, 1), (0, 1)]));
    assert_eq!(simplify_closed_loop(&[(0, 0), (1, 0)]), None);
    assert_eq!(simplify_closed_loop(&[(0, 0), (1, 0), (2, 0)]), None);
}
