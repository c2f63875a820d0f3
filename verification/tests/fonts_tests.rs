use plotredox::fonts::{
    build_cmap_table, inject_tables, is_cjk_codepoint, select_cjk_codepoints, table_checksum,
};

fn be32(b: &[u8], at: usize) -> u32 {
    u32::from_be_bytes([b[at], b[at + 1], b[at + 2], b[at + 3]])
}

fn be16(b: &[u8], at: usize) -> u16 {
    u16::from_be_bytes([b[at], b[at + 1]])
}

#[test]
fn checksum_sums_big_endian_words() {
    assert_eq!(table_checksum(&[]), 0);
    assert_eq!(table_checksum(&[0, 0, 0, 1, 0, 0, 0, 2]), 3);
    assert_eq!(table_checksum(&[1]), 0x0100_0000);
    assert_eq!(table_checksum(&[0xff, 0xff, 0xff, 0xff, 0, 0, 0, 2]), 1);
}

#[test]
fn cmap_groups_consecutive_runs() {
    let t = build_cmap_table(&[(0x44, 8), (0x41, 5), (0x42, 6)]);
    assert_eq!(t.len(), 12 + 16 + 24);
    assert_eq!(be16(&t, 0), 0);
    assert_eq!(be16(&t, 2), 1);
    assert_eq!(be16(&t, 4), 3);
    assert_eq!(be16(&t, 6), 10);
    assert_eq!(be32(&t, 8), 12);
    assert_eq!(be16(&t, 12), 12);
    assert_eq!(be32(&t, 16), 16 + 24);
    assert_eq!(be32(&t, 24), 2);
    assert_eq!((be32(&t, 28), be32(&t, 32), be32(&t, 36)), (0x41, 0x42, 5));
    assert_eq!((be32(&t, 40), be32(&t, 44), be32(&t, 48)), (0x44, 0x44, 8));
}

#[test]
fn cmap_keeps_first_mapping_of_a_code_point() {
    let t = build_cmap_table(&[(0x41, 5), (0x41, 9)]);
    assert_eq!(be32(&t, 24), 1);
    assert_eq!((be32(&t, 28), be32(&t, 32), be32(&t, 36)), (0x41, 0x41, 5));
}

#[test]
fn cmap_breaks_groups_when_glyphs_jump() {
    let t = build_cmap_table(&[(0x30, 1), (0x31, 3)]);
    assert_eq!(be32(&t, 24), 2);
}

#[test]
fn empty_cmap_has_no_groups() {
    let t = build_cmap_table(&[]);
    assert_eq!(t.len(), 28);
    assert_eq!(be32(&t, 24), 0);
}

/// A font with one table `abcd` of five bytes.
fn tiny_font() -> Vec<u8> {
    let mut f = Vec::new();
    f.extend_from_slice(&0x0001_0000u32.to_be_bytes());
    f.extend_from_slice(&1u16.to_be_bytes());
    f.extend_from_slice(&[0, 16, 0, 0, 0, 0]);
    f.extend_from_slice(b"abcd");
    f.extend_from_slice(&0u32.to_be_bytes());
    f.extend_from_slice(&28u32.to_be_bytes());
    f.extend_from_slice(&5u32.to_be_bytes());
    f.extend_from_slice(&[1, 2, 3, 4, 5]);
    f
}

#[test]
fn inject_adds_sorted_tables() {
    let font = tiny_font();
    let out = inject_tables(&font, &[(*b"cmap", vec![9, 9, 9, 9]), (*b"abcd", vec![7])]);
    assert_eq!(be32(&out, 0), 0x0001_0000);
    assert_eq!(be16(&out, 4), 2);
    assert_eq!(be16(&out, 6), 32);
    assert_eq!(be16(&out, 8), 1);
    assert_eq!(be16(&out, 10), 0);
    assert_eq!(&out[12..16], b"abcd");
    assert_eq!(be32(&out, 20), 44);
    assert_eq!(be32(&out, 24), 5);
    assert_eq!(&out[28..32], b"cmap");
    assert_eq!(be32(&out, 32), 0x0909_0909);
    assert_eq!(be32(&out, 36), 52);
    assert_eq!(be32(&out, 40), 4);
    assert_eq!(&out[44..52], &[1, 2, 3, 4, 5, 0, 0, 0]);
    assert_eq!(&out[52..56], &[9, 9, 9, 9]);
    assert_eq!(out.len(), 56);
}

#[test]
fn inject_fixes_head_checksum_adjustment() {
    let font = tiny_font();
    let head = vec![0u8; 16];
    let out = inject_tables(&font, &[(*b"head", head)]);
    assert_eq!(be16(&out, 4), 2);
    assert_eq!(table_checksum(&out), 0xB1B0_AFBA);
}

#[test]
fn cjk_selection() {
    assert!(is_cjk_codepoint(0x4E2D));
    assert!(is_cjk_codepoint(0x3001));
    assert!(!is_cjk_codepoint(0x41));
    let r = select_cjk_codepoints(&vec![0x2014, 0xFF0C], &vec![0x4E2D, 0x41, 0x4E2D, 0x3002]);
    assert_eq!(r, vec![0x2014, 0x3002, 0x4E2D, 0xFF0C]);
}

#[test]
fn cmap_groups_read_back_as_first_mappings() {
    let mappings = [(0x41u32, 5u16), (0x43, 7), (0x42, 6), (0x41, 9), (0x61, 20), (0x63, 22)];
    let t = build_cmap_table(&mappings);
    let n = be32(&t, 24) as usize;
    let groups: Vec<(u32, u32, u32)> = (0..n)
        .map(|k| (be32(&t, 28 + 12 * k), be32(&t, 32 + 12 * k), be32(&t, 36 + 12 * k)))
        .collect();
    let lookup = |cp: u32| -> Option<u32> {
        groups.iter().find(|g| g.0 <= cp && cp <= g.1).map(|g| g.2 + (cp - g.0))
    };
    assert_eq!(lookup(0x41), Some(5));
    assert_eq!(lookup(0x42), Some(6));
    assert_eq!(lookup(0x43), Some(7));
    assert_eq!(lookup(0x61), Some(20));
    assert_eq!(lookup(0x63), Some(22));
    assert_eq!(lookup(0x62), None);
    assert_eq!(lookup(0x44), None);
    for w in groups.windows(2) {
        assert!(w[0].1 < w[1].0);
    }
}
