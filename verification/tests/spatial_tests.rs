use plotredox::spatial::{keep_large_fragments, split_four_connected_components, split_into_connected_components};

#[test]
fn equal_components_keep_the_order_of_their_first_pixels() {
    let pixels = vec![(10, 10), (0, 0), (20, 20), (1, 1), (30, 30), (31, 30), (32, 30)];
    let comps = split_into_connected_components(&pixels, 1);
    assert_eq!(comps.len(), 4);
    assert_eq!(comps[0].len(), 3);
    assert_eq!(comps[0][0], (30, 30));
    assert_eq!(comps[1], vec![(0, 0), (1, 1)]);
    assert_eq!(comps[2], vec![(10, 10)]);
    assert_eq!(comps[3], vec![(20, 20)]);
}

#[test]
fn diagonal_pixels_are_separate_four_connected_components() {
    let pixels = vec![(5, 5), (0, 0), (1, 1), (1, 0)];
    let comps = split_four_connected_components(&pixels);
    assert_eq!(comps, vec![vec![(0, 0), (1, 0), (1, 1)], vec![(5, 5)]]);
}

#[test]
fn small_fragments_and_small_clusters_are_dropped() {
    assert_eq!(keep_large_fragments(&[(0, 0), (1, 0), (2, 0), (3, 0)]), None);
    let cluster = vec![(0, 0), (1, 0), (2, 0), (10, 10), (11, 10), (20, 20), (21, 20), (22, 20)];
    let kept = keep_large_fragments(&cluster).unwrap();
    let mut sorted = kept.clone();
    sorted.sort();
    assert_eq!(sorted, vec![(0, 0), (1, 0), (2, 0), (20, 20), (21, 20), (22, 20)]);
    assert_eq!(keep_large_fragments(&[(0, 0), (1, 0), (2, 0), (9, 9), (20, 20)]), None);
}
