use plotredox::closing::close_mask;

fn grid(rows: &[&str]) -> (Vec<bool>, u32, u32) {
    let h = rows.len() as u32;
    let w = rows[0].len() as u32;
    let mut v = Vec::new();
    for r in rows {
        for c in r.chars() {
            v.push(c == '#');
        }
    }
    (v, w, h)
}

#[test]
fn close_fills_small_hole() {
    let (m, w, h) = grid(&["####", "#..#", "#..#", "####"]);
    let r = close_mask(&m, w, h, 1);
    assert_eq!(r, vec![true; 16]);
}

#[test]
fn close_keeps_large_hole() {
    let (m, w, h) = grid(&["#####", "#...#", "#...#", "#...#", "#####"]);
    let r = close_mask(&m, w, h, 1);
    assert_eq!(r, m);
}

#[test]
fn close_keeps_isolated_dot() {
    let (m, w, h) = grid(&[".....", ".....", "..#..", ".....", "....."]);
    let r = close_mask(&m, w, h, 1);
    assert_eq!(r, m);
}

#[test]
fn close_grows_dot_near_border() {
    let (m, w, h) = grid(&[".....", ".#...", ".....", ".....", "....."]);
    let (expected, _, _) = grid(&["##...", "##...", ".....", ".....", "....."]);
    let r = close_mask(&m, w, h, 1);
    assert_eq!(r, expected);
}

#[test]
fn close_bridges_gap_of_two() {
    let (m, w, h) = grid(&["......", "##..##", "......"]);
    let r = close_mask(&m, w, h, 1);
    assert_eq!(r, vec![true; 18]);
}

#[test]
fn close_short_buffer_pads_with_background() {
    let r = close_mask(&[true], 3, 1, 1);
    assert_eq!(r, vec![true, false, false]);
}

#[test]
fn close_keeps_gap_of_three_open() {
    let (m, w, h) = grid(&["........", "........", "##...###", "........", "........"]);
    let r = close_mask(&m, w, h, 1);
    assert!(!r[2 * 8 + 3]);
    assert!(r[2 * 8 + 1]);
}

#[test]
fn close_empty_image() {
    let r = close_mask(&[], 0, 4, 2);
    assert!(r.is_empty());
}

#[test]
fn close_radius_past_cap_clears_image() {
    let r = close_mask(&[true, true], 2, 1, 3);
    assert_eq!(r, vec![false, false]);
}
