use plotredox::axes::AxisSideSelection;
use plotredox::contours::{brighten_rgb, highlight_rgba, pixel_bounds};
use plotredox::morphology::{
    build_foreground_image, collect_active_pixels, dilate_cols, dilate_rows, directional_open,
    downscale_2x, erode_cols, erode_rows,
};

#[test]
fn foreground_marks_painted_dark_pixels() {
    // 2x2 image: black, white, black, black; only the first three are painted.
    let rgba = vec![0, 0, 0, 255, 255, 255, 255, 255, 0, 0, 0, 255, 0, 0, 0, 255];
    let mask = vec![true, true, true, false];
    let img = build_foreground_image(&rgba, &mask, 2, 2, [255, 255, 255]);
    assert_eq!(img, vec![255, 0, 255, 0]);
    assert_eq!(collect_active_pixels(&img, 2, 2), vec![(0, 0), (0, 1)]);
}

#[test]
fn row_erosion_and_dilation() {
    let img = vec![0, 255, 255, 255, 0, 255];
    assert_eq!(erode_rows(&img, 6, 1, 3), vec![0, 0, 255, 0, 0, 0]);
    assert_eq!(dilate_rows(&img, 6, 1, 3), vec![255, 255, 255, 255, 255, 255]);
    assert_eq!(dilate_rows(&vec![0, 0, 0, 0, 255, 0], 6, 1, 3), vec![0, 0, 0, 255, 255, 255]);
}

#[test]
fn column_erosion_and_dilation() {
    // A 2-wide, 4-tall image: the left column fully set, the right one once.
    let img = vec![255, 0, 255, 0, 255, 255, 255, 0];
    assert_eq!(erode_cols(&img, 2, 4, 3), vec![255, 0, 255, 0, 255, 0, 255, 0]);
    assert_eq!(dilate_cols(&img, 2, 4, 3), vec![255, 0, 255, 255, 255, 255, 255, 255]);
}

#[test]
fn opening_keeps_long_runs_only() {
    // Row 0: a run of 5; row 1: a run of 2.
    let img = vec![255, 255, 255, 255, 255, 0, 255, 255, 0, 0, 0, 0];
    let opened = directional_open(&img, 6, 2, 5, 1);
    assert_eq!(opened, vec![255, 255, 255, 255, 255, 0, 0, 0, 0, 0, 0, 0]);
    assert_eq!(directional_open(&img, 6, 2, 1, 1), img);
}

#[test]
fn halving_keeps_even_pixels() {
    let img: Vec<u8> = (0..12).collect();
    let (d, w, h, s) = downscale_2x(&img, 4, 3);
    assert_eq!((w, h, s), (2, 1, 2));
    assert_eq!(d, vec![0, 2]);
    let (d, w, h, s) = downscale_2x(&vec![7, 8, 9], 3, 1);
    assert_eq!((d, w, h, s), (vec![7, 8, 9], 3, 1, 1));
}

#[test]
fn highlight_image_of_pixels() {
    let px = [(2, 3), (3, 4)];
    let b = pixel_bounds(&px).unwrap();
    let rgba = highlight_rgba(b, &px, [1, 2, 3, 4]);
    assert_eq!(rgba, vec![1, 2, 3, 4, 0, 0, 0, 0, 0, 0, 0, 0, 1, 2, 3, 4]);
}

#[test]
fn outline_colours_are_brighter() {
    assert_eq!(brighten_rgb([0, 255, 100]), [102, 255, 162]);
}

#[test]
fn single_sided_selections() {
    assert!(AxisSideSelection::NegativeOnly.is_single_sided());
    assert!(AxisSideSelection::PositiveOnly.is_single_sided());
    assert!(!AxisSideSelection::BothSides.is_single_sided());
    assert!(!AxisSideSelection::Unknown.is_single_sided());
    assert!(!AxisSideSelection::CoreOnly.is_single_sided());
}
