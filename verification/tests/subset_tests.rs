use plotredox::fonts::{build_cmap_table, table_checksum};
use plotredox::subset::{
    build_subset_font, check_font_bounds, glyph_set, kept_codepoints, merged_table_count,
    pair_found, SubsetError,
};

fn push16(v: &mut Vec<u8>, x: u16) {
    v.extend_from_slice(&x.to_be_bytes());
}

fn push32(v: &mut Vec<u8>, x: u32) {
    v.extend_from_slice(&x.to_be_bytes());
}

/// A font file holding the given tables, which must be sorted by tag.
fn font_with(tables: &[(&[u8; 4], Vec<u8>)]) -> Vec<u8> {
    let mut font = Vec::new();
    push32(&mut font, 0x0001_0000);
    push16(&mut font, tables.len() as u16);
    push16(&mut font, 0);
    push16(&mut font, 0);
    push16(&mut font, 0);
    let header = 12 + 16 * tables.len();
    let mut data = Vec::new();
    for (tag, t) in tables {
        font.extend_from_slice(*tag);
        push32(&mut font, 0);
        push32(&mut font, (header + data.len()) as u32);
        push32(&mut font, t.len() as u32);
        data.extend_from_slice(t);
        while data.len() % 4 != 0 {
            data.push(0);
        }
    }
    font.extend_from_slice(&data);
    font
}

/// A TrueType font with two empty glyphs, `.notdef` and one for 'A'.
fn two_glyph_font() -> Vec<u8> {
    let mut head = vec![0u8; 54];
    head[0..4].copy_from_slice(&0x0001_0000u32.to_be_bytes());
    head[12..16].copy_from_slice(&0x5F0F_3CF5u32.to_be_bytes());
    head[18..20].copy_from_slice(&1000u16.to_be_bytes());
    let mut hhea = vec![0u8; 36];
    hhea[0..4].copy_from_slice(&0x0001_0000u32.to_be_bytes());
    hhea[34..36].copy_from_slice(&2u16.to_be_bytes());
    let mut hmtx = Vec::new();
    push16(&mut hmtx, 500);
    push16(&mut hmtx, 0);
    push16(&mut hmtx, 600);
    push16(&mut hmtx, 0);
    let mut maxp = Vec::new();
    push32(&mut maxp, 0x0000_5000);
    push16(&mut maxp, 2);
    let loca = vec![0u8; 6];
    let cmap = build_cmap_table(&[(0x41, 1)]);
    font_with(&[
        (b"cmap", cmap),
        (b"glyf", Vec::new()),
        (b"head", head),
        (b"hhea", hhea),
        (b"hmtx", hmtx),
        (b"loca", loca),
        (b"maxp", maxp),
    ])
}

/// The tag and data of each table of a font.
fn tables_of(font: &[u8]) -> Vec<([u8; 4], Vec<u8>)> {
    let n = u16::from_be_bytes([font[4], font[5]]) as usize;
    (0..n)
        .map(|i| {
            let r = 12 + 16 * i;
            let tag = [font[r], font[r + 1], font[r + 2], font[r + 3]];
            let off = u32::from_be_bytes([font[r + 8], font[r + 9], font[r + 10], font[r + 11]]) as usize;
            let len = u32::from_be_bytes([font[r + 12], font[r + 13], font[r + 14], font[r + 15]]) as usize;
            (tag, font[off..off + len].to_vec())
        })
        .collect()
}

/// A font with the three tables a face needs (`head`, `hhea`, `maxp`) and
/// no outlines.
fn outline_free_font() -> Vec<u8> {
    let mut head = vec![0u8; 54];
    head[0..4].copy_from_slice(&0x0001_0000u32.to_be_bytes());
    head[12..16].copy_from_slice(&0x5F0F_3CF5u32.to_be_bytes());
    head[18..20].copy_from_slice(&1000u16.to_be_bytes());
    let mut hhea = vec![0u8; 36];
    hhea[0..4].copy_from_slice(&0x0001_0000u32.to_be_bytes());
    hhea[34..36].copy_from_slice(&1u16.to_be_bytes());
    let mut maxp = Vec::new();
    push32(&mut maxp, 0x0000_5000);
    push16(&mut maxp, 1);
    let tables: Vec<(&[u8; 4], Vec<u8>)> = vec![(b"head", head), (b"hhea", hhea), (b"maxp", maxp)];

    let mut font = Vec::new();
    push32(&mut font, 0x0001_0000);
    push16(&mut font, 3);
    push16(&mut font, 32);
    push16(&mut font, 1);
    push16(&mut font, 16);
    let mut offset = 12 + 16 * tables.len();
    let mut data = Vec::new();
    for (tag, t) in &tables {
        font.extend_from_slice(*tag);
        push32(&mut font, 0);
        push32(&mut font, offset as u32);
        push32(&mut font, t.len() as u32);
        data.extend_from_slice(t);
        while data.len() % 4 != 0 {
            data.push(0);
        }
        offset = 12 + 16 * tables.len() + data.len();
    }
    font.extend_from_slice(&data);
    font
}

#[test]
fn subset_rejects_bytes_that_are_no_font() {
    let r = build_subset_font(&[1, 2, 3, 4, 5], &vec![0x4E00]);
    assert_eq!(r.err(), Some(SubsetError::UnreadableFont));
}

#[test]
fn subset_of_outline_free_font_fails_in_subsetter() {
    let font = outline_free_font();
    assert!(check_font_bounds(&font));
    let r = build_subset_font(&font, &vec![0x4E00, 0x4E01]);
    assert_eq!(r.err(), Some(SubsetError::SubsetFailed));
}

#[test]
fn kept_codepoints_lists_latin_punctuation_then_cjk() {
    let cps = kept_codepoints(&vec![0x4E2D, 0x6587]);
    assert_eq!(cps.len(), 0x100 + 0x70 + 2);
    assert_eq!(cps[0], 0);
    assert_eq!(cps[0xFF], 0xFF);
    assert_eq!(cps[0x100], 0x2000);
    assert_eq!(cps[0x16F], 0x206F);
    assert_eq!(&cps[0x170..], &[0x4E2D, 0x6587]);
}

#[test]
fn pair_found_drops_missing_glyphs() {
    let r = pair_found(&vec![0x41, 0x42, 0x43], &vec![Some(7), None, Some(3)]);
    assert_eq!(r, vec![(0x41, 7), (0x43, 3)]);
}

#[test]
fn glyph_set_sorts_dedups_and_keeps_notdef() {
    assert_eq!(glyph_set(&vec![]), vec![0]);
    assert_eq!(glyph_set(&vec![(0x41, 9), (0x42, 4), (0x43, 9), (0x44, 0)]), vec![0, 4, 9]);
}

#[test]
fn font_bounds_check_catches_tables_past_the_end() {
    let mut font = outline_free_font();
    assert!(check_font_bounds(&font));
    assert!(!check_font_bounds(&font[..20]));
    let last = font.len() - 1;
    font.truncate(last - 8);
    assert!(!check_font_bounds(&font));
}

#[test]
fn merged_count_adds_only_new_tags() {
    let font = outline_free_font();
    let extras = vec![(*b"cmap", vec![0u8; 4]), (*b"maxp", vec![0u8; 6])];
    assert_eq!(merged_table_count(&font, &extras), 4);
}

#[test]
fn subset_of_a_two_glyph_font_keeps_both_glyphs_and_adds_a_cmap() {
    let font = two_glyph_font();
    let (out, glyphs) = build_subset_font(&font, &vec![0x4E00]).ok().expect("subset");
    assert_eq!(glyphs, 2);
    assert!(check_font_bounds(&out));
    let tables = tables_of(&out);
    let tags: Vec<[u8; 4]> = tables.iter().map(|t| t.0).collect();
    assert!(tags.windows(2).all(|w| w[0] < w[1]));
    assert!(tags.contains(b"glyf") && tags.contains(b"loca") && tags.contains(b"hmtx"));
    assert!(!tags.contains(b"OS/2"));
    let cmap = tables.iter().find(|t| &t.0 == b"cmap").map(|t| t.1.clone()).expect("cmap");
    assert_eq!(cmap, build_cmap_table(&[(0x41, 1)]));
    let maxp = tables.iter().find(|t| &t.0 == b"maxp").map(|t| t.1.clone()).expect("maxp");
    assert_eq!(u16::from_be_bytes([maxp[4], maxp[5]]), 2);
    assert_eq!(table_checksum(&out), 0xB1B0_AFBA);
}

#[test]
fn subset_copies_the_os2_table_of_the_source() {
    let base = two_glyph_font();
    let mut tables = tables_of(&base);
    tables.insert(0, (*b"OS/2", vec![7u8; 10]));
    tables.sort_by_key(|t| t.0);
    let refs: Vec<(&[u8; 4], Vec<u8>)> = tables.iter().map(|t| (&t.0, t.1.clone())).collect();
    let font = font_with(&refs);
    let (out, _) = build_subset_font(&font, &vec![]).ok().expect("subset");
    let os2 = tables_of(&out).into_iter().find(|t| &t.0 == b"OS/2").map(|t| t.1).expect("OS/2");
    assert_eq!(os2, vec![7u8; 10]);
}

#[test]
fn subset_refuses_cff_outlines() {
    let mut head = vec![0u8; 54];
    head[0..4].copy_from_slice(&0x0001_0000u32.to_be_bytes());
    head[12..16].copy_from_slice(&0x5F0F_3CF5u32.to_be_bytes());
    head[18..20].copy_from_slice(&1000u16.to_be_bytes());
    let mut hhea = vec![0u8; 36];
    hhea[0..4].copy_from_slice(&0x0001_0000u32.to_be_bytes());
    hhea[34..36].copy_from_slice(&1u16.to_be_bytes());
    let mut maxp = Vec::new();
    push32(&mut maxp, 0x0000_5000);
    push16(&mut maxp, 1);
    let font = font_with(&[(b"CFF ", vec![1, 0, 4, 1]), (b"head", head), (b"hhea", hhea), (b"maxp", maxp)]);
    let r = build_subset_font(&font, &vec![]);
    assert_eq!(r.err(), Some(SubsetError::CffOutlines));
}

/// A TrueType font whose glyph for 'A' is a composite naming every other
/// glyph id as a component.
fn composite_everything_font() -> Vec<u8> {
    let mut head = vec![0u8; 54];
    head[0..4].copy_from_slice(&0x0001_0000u32.to_be_bytes());
    head[12..16].copy_from_slice(&0x5F0F_3CF5u32.to_be_bytes());
    head[18..20].copy_from_slice(&1000u16.to_be_bytes());
    head[50..52].copy_from_slice(&1u16.to_be_bytes());
    let mut hhea = vec![0u8; 36];
    hhea[0..4].copy_from_slice(&0x0001_0000u32.to_be_bytes());
    hhea[34..36].copy_from_slice(&2u16.to_be_bytes());
    let mut hmtx = Vec::new();
    push16(&mut hmtx, 500);
    push16(&mut hmtx, 0);
    push16(&mut hmtx, 600);
    push16(&mut hmtx, 0);
    let mut maxp = Vec::new();
    push32(&mut maxp, 0x0000_5000);
    push16(&mut maxp, 2);
    let mut glyph = Vec::new();
    push16(&mut glyph, 0xFFFF);
    for _ in 0..4 {
        push16(&mut glyph, 0);
    }
    for id in 1..=0xFFFFu32 {
        push16(&mut glyph, if id == 0xFFFF { 0 } else { 0x0020 });
        push16(&mut glyph, id as u16);
        push16(&mut glyph, 0);
    }
    let mut loca = Vec::new();
    push32(&mut loca, 0);
    push32(&mut loca, 0);
    push32(&mut loca, glyph.len() as u32);
    let cmap = build_cmap_table(&[(0x41, 1)]);
    font_with(&[
        (b"cmap", cmap),
        (b"glyf", glyph),
        (b"head", head),
        (b"hhea", hhea),
        (b"hmtx", hmtx),
        (b"loca", loca),
        (b"maxp", maxp),
    ])
}

#[test]
fn subset_refuses_composites_that_reach_every_glyph_id() {
    let font = composite_everything_font();
    let r = build_subset_font(&font, &vec![]);
    assert_eq!(r.err(), Some(SubsetError::ClosureTooLarge));
}

#[test]
fn subset_refuses_an_unsorted_table_directory() {
    let mut font = two_glyph_font();
    // Exchange the first two table records (cmap, glyf).
    let a: Vec<u8> = font[12..28].to_vec();
    let b: Vec<u8> = font[28..44].to_vec();
    font[12..28].copy_from_slice(&b);
    font[28..44].copy_from_slice(&a);
    let r = build_subset_font(&font, &vec![]);
    assert_eq!(r.err(), Some(SubsetError::UnsortedDirectory));
}

#[test]
fn subset_refuses_name_records_past_sixteen_bit_offsets() {
    let mut font_tables = tables_of(&two_glyph_font());
    let mut name = Vec::new();
    push16(&mut name, 0);
    push16(&mut name, 1);
    push16(&mut name, 18);
    push16(&mut name, 3);
    push16(&mut name, 1);
    push16(&mut name, 0x0409);
    push16(&mut name, 1);
    push16(&mut name, 0x10);
    push16(&mut name, 0xFFF8);
    name.extend_from_slice(&[0u8; 16]);
    font_tables.push((*b"name", name));
    let refs: Vec<(&[u8; 4], Vec<u8>)> = font_tables.iter().map(|(t, d)| (t, d.clone())).collect();
    let font = font_with(&refs);
    let r = build_subset_font(&font, &vec![]);
    assert_eq!(r.err(), Some(SubsetError::NameTableTooLarge));
}
