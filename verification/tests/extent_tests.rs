use plotredox::extent::{connected_extent, connected_extent_with_gap};

#[test]
fn empty_column_has_no_extent() {
    assert_eq!(connected_extent(0), -1);
}

#[test]
fn extent_follows_short_gaps() {
    assert_eq!(connected_extent(0b1), 0);
    assert_eq!(connected_extent(0b1011), 3);
    assert_eq!(connected_extent(0b1001), 3);
    assert_eq!(connected_extent(0b100), 2);
}

#[test]
fn extent_stops_at_three_empty_bins() {
    assert_eq!(connected_extent(0b1_0001), 0);
    assert_eq!(connected_extent(0b1000), -1);
    assert_eq!(connected_extent(0b1_0000_0110), 2);
}

#[test]
fn extent_with_other_gaps() {
    assert_eq!(connected_extent_with_gap(u64::MAX, 0), 63);
    assert_eq!(connected_extent_with_gap(0b110, 0), -1);
    assert_eq!(connected_extent_with_gap(0b111, 0), 2);
    assert_eq!(connected_extent_with_gap(1 << 63, 100), 63);
    assert_eq!(connected_extent_with_gap(0b1_0000_0001, 8), 8);
    assert_eq!(connected_extent_with_gap(0b10_0000_0001, 8), 0);
}
