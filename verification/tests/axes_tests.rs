use plotredox::axes::{
    analyze_mask_for_axes, axis_ticks, classify_stroke, extract_axis_and_ticks, StrokeKind,
};
use plotredox::tally::peak_line;

/// A white `w` x `h` RGBA image with the given pixels painted black.
fn image_with(w: u32, h: u32, black: &[(u32, u32)]) -> Vec<u8> {
    let mut rgba = vec![255u8; (w * h * 4) as usize];
    for &(x, y) in black {
        let off = ((y * w + x) * 4) as usize;
        rgba[off] = 0;
        rgba[off + 1] = 0;
        rgba[off + 2] = 0;
    }
    rgba
}

fn horizontal_axis_with_ticks() -> Vec<(u32, u32)> {
    let mut px: Vec<(u32, u32)> = (10..90).map(|x| (x, 50)).collect();
    for &tx in &[20u32, 40, 60] {
        for y in 51..54 {
            px.push((tx, y));
        }
    }
    px
}

#[test]
fn horizontal_axis_ticks_and_end_points() {
    let px = horizontal_axis_with_ticks();
    let rgba = image_with(100, 100, &px);
    let mask = vec![true; 100 * 100];
    let r = analyze_mask_for_axes(&rgba, &mask, 100, 100, [255, 255, 255]);
    assert_eq!(r.x_ticks, vec![(20, 50), (40, 50), (60, 50)]);
    assert_eq!(r.x_axis, Some(((20, 50), (60, 50))));
    assert_eq!(r.x_axis_pixels.len(), px.len());
    assert!(r.y_axis.is_none());
    assert!(r.y_axis_pixels.is_empty());
    assert!(r.y_ticks.is_empty());
}

#[test]
fn wide_protrusion_is_not_a_tick() {
    let mut px: Vec<(u32, u32)> = (10..90).map(|x| (x, 50)).collect();
    for x in 30..43 {
        for y in 51..54 {
            px.push((x, y));
        }
    }
    let rgba = image_with(100, 100, &px);
    let mask = vec![true; 100 * 100];
    let r = analyze_mask_for_axes(&rgba, &mask, 100, 100, [255, 255, 255]);
    assert!(r.x_ticks.is_empty());
    assert_eq!(r.x_axis, Some(((10, 50), (89, 50))));
}

#[test]
fn vertical_axis_is_found_in_its_column() {
    let mut px: Vec<(u32, u32)> = (5..85).map(|y| (12, y)).collect();
    for &ty in &[30u32, 60] {
        for x in 10..12 {
            px.push((x, ty));
        }
    }
    let rgba = image_with(100, 100, &px);
    let mask = vec![true; 100 * 100];
    let r = analyze_mask_for_axes(&rgba, &mask, 100, 100, [255, 255, 255]);
    assert!(r.x_axis.is_none());
    assert_eq!(r.y_ticks, vec![(12, 30), (12, 60)]);
    assert_eq!(r.y_axis, Some(((12, 30), (12, 60))));
}

#[test]
fn small_marks_are_noise() {
    let px = vec![(40, 40), (41, 40), (40, 41), (41, 41), (42, 42)];
    let rgba = image_with(100, 100, &px);
    let mask = vec![true; 100 * 100];
    let r = analyze_mask_for_axes(&rgba, &mask, 100, 100, [255, 255, 255]);
    assert!(r.x_axis.is_none() && r.y_axis.is_none());
    assert!(r.x_axis_pixels.is_empty() && r.y_axis_pixels.is_empty());
}

#[test]
fn unpainted_pixels_are_ignored() {
    let px = horizontal_axis_with_ticks();
    let rgba = image_with(100, 100, &px);
    let mask = vec![false; 100 * 100];
    let r = analyze_mask_for_axes(&rgba, &mask, 100, 100, [255, 255, 255]);
    assert!(r.x_axis.is_none() && r.y_axis.is_none());
}

#[test]
fn crossing_stroke_gives_both_axes() {
    let mut px: Vec<(u32, u32)> = (10..90).map(|x| (x, 80)).collect();
    px.extend((10..80).map(|y| (10, y)));
    let rgba = image_with(100, 100, &px);
    let mask = vec![true; 100 * 100];
    let r = analyze_mask_for_axes(&rgba, &mask, 100, 100, [255, 255, 255]);
    // Near the corner each axis's pool holds a stub of the other axis, which
    // sticks out of its line like a tick.
    assert_eq!(r.x_ticks, vec![(10, 80)]);
    assert_eq!(r.y_ticks, vec![(10, 80)]);
    assert_eq!(r.x_axis, Some(((10, 80), (10, 80))));
    assert_eq!(r.y_axis, Some(((10, 80), (10, 80))));
    assert_eq!(r.x_axis_pixels.len(), 80 + 12);
    assert_eq!(r.y_axis_pixels.len(), 70 + 13);
}

#[test]
fn stroke_classification() {
    let line: Vec<(u32, u32)> = (0..30).map(|x| (x, 5)).collect();
    let c = classify_stroke(&line, 20);
    assert_eq!(c.kind, StrokeKind::Horizontal);
    assert_eq!(c.row, 5);
    let dot = vec![(3, 3), (4, 3)];
    assert_eq!(classify_stroke(&dot, 20).kind, StrokeKind::Noise);
    let mut ell: Vec<(u32, u32)> = (0..30).map(|x| (x, 40)).collect();
    ell.extend((0..40).map(|y| (0, y)));
    assert_eq!(classify_stroke(&ell, 20).kind, StrokeKind::Crossing);
}

#[test]
fn peak_line_takes_lowest_on_ties() {
    assert_eq!(peak_line(&vec![], false), None);
    assert_eq!(peak_line(&vec![7, 3, 7, 3, 9], false), Some((2, 3)));
    // Three-line window: 4 has 3 + 1 (line 5) neighbours around it.
    assert_eq!(peak_line(&vec![4, 4, 4, 5, 9], true), Some((4, 4)));
    // Line 0 counts itself twice in its window.
    assert_eq!(peak_line(&vec![0, 1], true), Some((3, 0)));
}

#[test]
fn ticks_of_a_body() {
    let mut body: Vec<(u32, u32)> = (0..20).map(|x| (x, 10)).collect();
    body.extend([(5, 12), (6, 12), (15, 13), (15, 11)]);
    let ticks = axis_ticks(&body, 10, true);
    assert_eq!(ticks, vec![(5, 10), (15, 10)]);
}

#[test]
fn longest_stroke_touching_the_line_is_the_body() {
    let mut pool: Vec<(u32, u32)> = (0..10).map(|x| (x, 20)).collect();
    pool.extend((30..60).map(|x| (x, 21)));
    pool.extend((0..50).map(|x| (x, 40)));
    let (body, _) = extract_axis_and_ticks(20, true, &pool);
    let mut xs: Vec<u32> = body.iter().map(|p| p.0).collect();
    xs.sort();
    assert_eq!(body.len(), 30);
    assert_eq!(xs[0], 30);
}
