use plotredox::clusters::cluster_values;
use plotredox::gaps::interpolate_gap;
use plotredox::geometry::{compare_points_along_axis, DominantAxis};
use std::cmp::Ordering;
use plotredox::sampling::{
    build_pixel_chains, choose_curve_axis, order_component_points, order_component_with_axis, stitch_chains,
    thin_component_with_axis,
};

#[test]
fn build_pixel_chains_preserves_vertical_components() {
    let pixels: Vec<(u32, u32)> = (0..8).map(|y| (10, y)).collect();
    let chains = build_pixel_chains(&pixels);

    assert_eq!(chains.len(), 1);
    assert_eq!(chains[0].len(), pixels.len());
    assert_eq!(chains[0].first(), Some(&(10, 0)));
    assert_eq!(chains[0].last(), Some(&(10, 7)));
}

#[test]
fn build_pixel_chains_stitches_disconnected_components() {
    let mut pixels = vec![(0, 0), (1, 0), (2, 0), (0, 1), (1, 1), (2, 1)];
    pixels.extend([(20, 10), (21, 10), (22, 10), (20, 11), (21, 11), (22, 11)]);

    let chains = build_pixel_chains(&pixels);
    assert_eq!(chains.len(), 1);

    let min_x = chains[0].iter().map(|&(x, _)| x).min().unwrap();
    let max_x = chains[0].iter().map(|&(x, _)| x).max().unwrap();
    assert_eq!(min_x, 0);
    assert!(max_x >= 20);
}

#[test]
fn interpolate_gap_produces_intermediate_points() {
    let pts = interpolate_gap((0, 0), (10, 0));
    assert_eq!(pts.len(), 9);
    assert_eq!(pts[0], (1, 0));
    assert_eq!(pts[8], (9, 0));
}

#[test]
fn cluster_values_single_group() {
    let vals = vec![10, 11, 12, 13];
    let clusters = cluster_values(&vals, 3);
    assert_eq!(clusters.len(), 1);
    assert_eq!(clusters[0], vec![10, 11, 12, 13]);
}

#[test]
fn cluster_values_two_groups() {
    let vals = vec![10, 11, 12, 50, 51, 52];
    let clusters = cluster_values(&vals, 3);
    assert_eq!(clusters.len(), 2);
    assert_eq!(clusters[0], vec![10, 11, 12]);
    assert_eq!(clusters[1], vec![50, 51, 52]);
}

#[test]
fn thin_preserves_ellipse_shape() {
    let mut pixels = Vec::new();
    for x in 0..60 {
        for dy in 0..3 {
            pixels.push((x, 5 + dy));
        }
        for dy in 0..3 {
            pixels.push((x, 25 + dy));
        }
    }
    let thinned = thin_component_with_axis(&pixels, DominantAxis::Horizontal);
    assert!(
        thinned.len() >= 110,
        "expected ~120 thinned points, got {}",
        thinned.len()
    );
    let ys: Vec<u32> = thinned.iter().map(|&(_, y)| y).collect();
    let has_top = ys.iter().any(|&y| y < 10);
    let has_bottom = ys.iter().any(|&y| y > 20);
    assert!(has_top, "top arc lost");
    assert!(has_bottom, "bottom arc lost");
}

#[test]
fn parabola_uses_horizontal_axis() {
    let mut pixels = Vec::new();
    let scale_x = 80.0_f32;
    let scale_y = 50.0_f32;
    let y_offset = 400.0_f32;
    let thickness = 3i32;
    for data_x_10 in 0..=80 {
        let dx = data_x_10 as f32 / 10.0;
        let dy = 6.0 - 4.0 * dx + 0.5 * dx * dx;
        let px = (dx * scale_x).round() as i32;
        let py = (y_offset - dy * scale_y).round() as i32;
        for t in -thickness..=thickness {
            let x = (px + t).max(0) as u32;
            let y = (py + t).max(0) as u32;
            pixels.push((x, y));
        }
    }
    pixels.sort();
    pixels.dedup();
    let axis = choose_curve_axis(&pixels);
    assert!(matches!(axis, DominantAxis::Horizontal), "parabola should use horizontal axis");
}

#[test]
fn cluster_values_empty_and_gap_exactly_max() {
    assert!(cluster_values(&[], 3).is_empty());
    // A gap of exactly max_gap joins; one more splits.
    assert_eq!(cluster_values(&[1, 4], 3), vec![vec![1, 4]]);
    assert_eq!(cluster_values(&[1, 5], 3), vec![vec![1], vec![5]]);
}

#[test]
fn interpolate_gap_adjacent_and_diagonal() {
    assert!(interpolate_gap((5, 5), (6, 6)).is_empty());
    assert!(interpolate_gap((5, 5), (5, 5)).is_empty());
    // steps = 4 along y; x advances by 2 with halves rounded up
    assert_eq!(
        interpolate_gap((0, 0), (2, 4)),
        vec![(1, 1), (1, 2), (2, 3)]
    );
    // walking backwards
    assert_eq!(interpolate_gap((10, 3), (7, 3)), vec![(9, 3), (8, 3)]);
}

#[test]
fn order_component_walks_nearest_neighbour() {
    let pts = vec![(5, 0), (0, 0), (1, 0), (3, 0)];
    let chain = order_component_with_axis(&pts, DominantAxis::Horizontal);
    assert_eq!(chain, vec![(0, 0), (1, 0), (3, 0), (5, 0)]);
}

#[test]
fn stitch_chains_starts_at_farthest_end() {
    let a = vec![(10, 0), (12, 0)];
    let b = vec![(0, 0), (2, 0)];
    let out = stitch_chains(vec![a.clone(), b.clone()]);
    // farthest ends: (12,0)-(0,0); the first chain is reversed to start at (12,0)
    assert_eq!(out[0], (12, 0));
    for p in a.iter().chain(b.iter()) {
        assert!(out.contains(p));
    }
    // gap between (10,0) and (2,0) is bridged
    assert!(out.contains(&(6, 0)));
    assert_eq!(stitch_chains(vec![a.clone()]), a);
    assert!(stitch_chains(Vec::new()).is_empty());
}

#[test]
fn points_compare_along_the_axis_then_across() {
    assert_eq!(compare_points_along_axis((1, 9), (2, 0), DominantAxis::Horizontal), Ordering::Less);
    assert_eq!(compare_points_along_axis((1, 9), (1, 3), DominantAxis::Horizontal), Ordering::Greater);
    assert_eq!(compare_points_along_axis((1, 9), (2, 0), DominantAxis::Vertical), Ordering::Greater);
    assert_eq!(compare_points_along_axis((4, 4), (4, 4), DominantAxis::Vertical), Ordering::Equal);
}

#[test]
fn ordering_a_horizontal_run_walks_it_end_to_end() {
    let pts = vec![(3, 5), (1, 5), (4, 5), (2, 5), (0, 5)];
    let chain = order_component_points(&pts);
    assert_eq!(chain, vec![(0, 5), (1, 5), (2, 5), (3, 5), (4, 5)]);
}

#[test]
fn nearest_neighbour_ties_go_to_the_first_in_the_working_list() {
    let pts = vec![(1, 0), (0, 1), (0, 0)];
    let chain = order_component_with_axis(&pts, DominantAxis::Horizontal);
    assert_eq!(chain, vec![(0, 0), (0, 1), (1, 0)]);
}

#[test]
fn stitching_starts_at_first_farthest_pair_and_breaks_ties_by_list_order() {
    let chains = vec![vec![(0, 5)], vec![(10, 5)], vec![(5, 10)], vec![(5, 0)]];
    let r = stitch_chains(chains);
    assert_eq!(r[0], (0, 5));
    let at = |p: (u32, u32)| r.iter().position(|&q| q == p).unwrap();
    assert!(at((5, 0)) < at((5, 10)));
    assert!(at((5, 0)) < at((10, 5)));
}
