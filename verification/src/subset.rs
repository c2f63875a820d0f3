//! The subsetted UI font: the glyphs of the characters the interface uses
//! are kept, the font is cut down to them, and a `cmap` table (plus the
//! source font's `OS/2` table) is added back.
use vstd::prelude::*;
use crate::fonts::{
    build_cmap_table, canonical_mappings, cmap_table_bytes, cmap_groups, inject_tables, font_in_bounds, font_table_count, record_in_bounds, u32_at,
    record_at, with_extras, font_tables, extras_view, injected_font, tables_view, read_font_tables,
    add_extra_tables, read_u16, read_u32, u16_at,
};

verus! {

#[verifier::external_type_specification]
#[verifier::external_body]
pub struct ExFace<'a>(ttf_parser::Face<'a>);

#[verifier::external_type_specification]
#[verifier::external_body]
pub struct ExGlyphRemapper(subsetter::GlyphRemapper);

/// A parsed font face together with the bytes it was parsed from.  Only
/// `parse_face` makes one, so `face` is always what ttf-parser reads from
/// `data`.
struct FontFace<'a> {
    data: &'a [u8],
    face: ttf_parser::Face<'a>,
}

/// Whether ttf-parser accepts the bytes as a font (face 0).
pub uninterp spec fn font_parses(data: Seq<u8>) -> bool;

/// The glyph ttf-parser finds for the character `cp` in the font `data`.
pub uninterp spec fn glyph_of(data: Seq<u8>, cp: u32) -> Option<u16>;

/// The raw bytes ttf-parser gives for the table `tag` of the font `data`.
pub uninterp spec fn table_of(data: Seq<u8>, tag: Seq<u8>) -> Option<Seq<u8>>;

/// The old glyph ids held by a remapper, in the order of their new ids.
pub uninterp spec fn remapped_glyphs(r: subsetter::GlyphRemapper) -> Seq<u16>;

/// The font subsetter makes of `data` (face 0) keeping `glyphs`, if any.
pub uninterp spec fn subset_of(data: Seq<u8>, glyphs: Seq<u16>) -> Option<Seq<u8>>;

/// The tag `glyf`.
pub open spec fn glyf_tag() -> Seq<u8> {
    seq![0x67u8, 0x6cu8, 0x79u8, 0x66u8]
}

/// The tag `loca`.
pub open spec fn loca_tag() -> Seq<u8> {
    seq![0x6cu8, 0x6fu8, 0x63u8, 0x61u8]
}

/// The tag `head`.
pub open spec fn head_tag() -> Seq<u8> {
    seq![0x68u8, 0x65u8, 0x61u8, 0x64u8]
}

/// The tag `CFF `.
pub open spec fn cff_tag() -> Seq<u8> {
    seq![0x43u8, 0x46u8, 0x46u8, 0x20u8]
}

/// The font is a single font (not a collection) whose table records lie in
/// it and are sorted by tag without repeats, so that every lookup of a tag
/// in its table directory finds the same record.
pub open spec fn directory_sorted(font: Seq<u8>) -> bool {
    &&& font.len() >= 12
    &&& u32_at(font, 0) != 0x7474_6366
    &&& forall|i: int| 0 <= i < font_table_count(font) ==> #[trigger] record_at(i) + 16 <= font.len()
    &&& forall|i: int, j: int|
        0 <= i < j < font_table_count(font) ==> #[trigger] u32_at(font, record_at(i)) < #[trigger] u32_at(
            font,
            record_at(j),
        )
}

/// The tag `name`.
pub open spec fn name_tag() -> Seq<u8> {
    seq![0x6eu8, 0x61u8, 0x6du8, 0x65u8]
}

/// Name record `i` of a `name` table is kept by the subsetter: a Unicode
/// record (platform 0, or platform 3 with encoding 0, 1 or 10) whose name
/// id is 0 to 9 or 11 to 14.
pub open spec fn name_record_kept(t: Seq<u8>, i: int) -> bool {
    let r = 6 + 12 * i;
    let platform = u16_at(t, r);
    let encoding = u16_at(t, r + 2);
    let id = u16_at(t, r + 6);
    &&& (platform == 0 || (platform == 3 && (encoding == 0 || encoding == 1 || encoding == 10)))
    &&& (0 <= id <= 9 || 11 <= id <= 14)
}

/// The number of kept records among the first `n` records, and the total
/// of their string lengths.
pub open spec fn kept_names(t: Seq<u8>, n: nat) -> (int, int)
    decreases n,
{
    if n == 0 {
        (0, 0)
    } else {
        let prev = kept_names(t, (n - 1) as nat);
        if name_record_kept(t, n - 1) {
            (prev.0 + 1, prev.1 + u16_at(t, 6 + 12 * (n - 1) + 8))
        } else {
            prev
        }
    }
}

/// A `name` table the subsetter rebuilds with its 16-bit offsets in range:
/// when it is a version 0 table whose records and storage parse, every kept
/// record's string offset plus length, the kept lengths together and the
/// kept records' header (6 bytes and 12 per record) all stay within 0xFFFF.
pub open spec fn name_table_fits(t: Seq<u8>) -> bool {
    if t.len() < 6 || u16_at(t, 0) != 0 {
        true
    } else {
        let count = u16_at(t, 2);
        if 6 + 12 * count > t.len() || u16_at(t, 4) > t.len() {
            true
        } else {
            &&& 6 + 12 * kept_names(t, count as nat).0 <= 0xFFFF
            &&& kept_names(t, count as nat).1 <= 0xFFFF
            &&& forall|i: int|
                0 <= i < count && #[trigger] name_record_kept(t, i) ==> u16_at(t, 6 + 12 * i + 10) + u16_at(
                    t,
                    6 + 12 * i + 8,
                ) <= 0xFFFF
        }
    }
}

/// The font's `name` table, if it has one, fits the subsetter's offsets.
pub open spec fn name_fits(font: Seq<u8>) -> bool {
    match table_of(font, name_tag()) {
        Some(t) => name_table_fits(t),
        None => true,
    }
}

/// The font has `glyf` outlines, or no CFF outlines.
pub open spec fn outlines_supported(font: Seq<u8>) -> bool {
    table_of(font, glyf_tag()) is Some || table_of(font, cff_tag()) is None
}

/// The `glyf` and `loca` tables and whether `loca` holds 32-bit offsets
/// (a non-zero `indexToLocFormat` at byte 50 of `head`), when all three
/// tables are there and `head` is long enough.
pub open spec fn glyph_tables(font: Seq<u8>) -> Option<(Seq<u8>, Seq<u8>, bool)> {
    match (table_of(font, glyf_tag()), table_of(font, loca_tag()), table_of(font, head_tag())) {
        (Some(glyf), Some(loca), Some(head)) => if head.len() >= 52 {
            Some((glyf, loca, u16_at(head, 50) != 0))
        } else {
            None
        },
        _ => None,
    }
}

/// Entry `n` of `loca`: a 32-bit offset, or twice a 16-bit one.
pub open spec fn loca_offset(loca: Seq<u8>, long: bool, n: int) -> Option<int> {
    if long {
        if 0 <= n && 4 * n + 4 <= loca.len() {
            Some(u32_at(loca, 4 * n))
        } else {
            None
        }
    } else {
        if 0 <= n && 2 * n + 2 <= loca.len() {
            Some(2 * u16_at(loca, 2 * n))
        } else {
            None
        }
    }
}

/// The bytes of glyph `id`: from its `loca` entry to the next one, when
/// both are there and the range lies in `glyf`.
pub open spec fn glyph_bytes(glyf: Seq<u8>, loca: Seq<u8>, long: bool, id: int) -> Option<Seq<u8>> {
    match (loca_offset(loca, long, id), loca_offset(loca, long, id + 1)) {
        (Some(from), Some(to)) => if from <= to <= glyf.len() {
            Some(glyf.subrange(from, to))
        } else {
            None
        },
        _ => None,
    }
}

/// Bytes after the flags and glyph id of a component record: two argument
/// words with flag 0x0001, else one; then one scale word (0x0008), two
/// (0x0040) or four (0x0080).
pub open spec fn component_tail(flags: u16) -> nat {
    (if flags & 0x0001u16 != 0 {
        4nat
    } else {
        2nat
    }) + (if flags & 0x0008u16 != 0 {
        2nat
    } else if flags & 0x0040u16 != 0 {
        4nat
    } else if flags & 0x0080u16 != 0 {
        8nat
    } else {
        0nat
    })
}

/// The glyph ids named by the component records from byte `pos` on: a
/// record without the more-components flag (0x0020) is the last, and
/// reading stops at a record whose flags and id do not fit.
pub open spec fn components_from(d: Seq<u8>, pos: nat) -> Seq<u16>
    decreases d.len() - pos,
{
    if pos + 4 > d.len() {
        Seq::empty()
    } else {
        let flags = u16_at(d, pos as int) as u16;
        let id = u16_at(d, pos + 2int) as u16;
        let next = pos + 4 + component_tail(flags);
        if flags & 0x0020u16 == 0 || next > d.len() {
            seq![id]
        } else {
            seq![id] + components_from(d, next)
        }
    }
}

/// The components a glyph names: none unless it is composite (a negative
/// contour count) with a full ten-byte header.
pub open spec fn glyph_components(d: Seq<u8>) -> Seq<u16> {
    if d.len() >= 10 && d[0] >= 0x80 {
        components_from(d, 10)
    } else {
        Seq::empty()
    }
}

/// Glyph `g` of the font names `c` as a component.
pub open spec fn names_component(font: Seq<u8>, g: u16, c: u16) -> bool {
    match glyph_tables(font) {
        Some((glyf, loca, long)) => match glyph_bytes(glyf, loca, long, g as int) {
            Some(d) => glyph_components(d).contains(c),
            None => false,
        },
        None => false,
    }
}

/// Glyph `c` is kept or named as a component by some glyph: every glyph the
/// closure of the kept glyphs numbers is one of these.
pub open spec fn may_reach(font: Seq<u8>, kept: Seq<u16>, c: u16) -> bool {
    kept.contains(c) || exists|g: u16| #[trigger] names_component(font, g, c)
}

/// Some glyph id is out of reach, so the closure numbers at most 65535
/// glyphs.
pub open spec fn closure_fits(font: Seq<u8>, kept: Seq<u16>) -> bool {
    exists|x: u16| !#[trigger] may_reach(font, kept, x)
}

/// `ttf_parser::Face::parse(data, 0)`: the face, when the bytes parse as a
/// font.  Which bytes parse is named, not stated.
#[verifier::external_body]
fn parse_face<'a>(data: &'a [u8]) -> (r: Option<FontFace<'a>>)
    ensures
        r is Some <==> font_parses(data@),
        r matches Some(f) ==> f.data@ == data@,
{
    match ttf_parser::Face::parse(data, 0) {
        Ok(face) => Some(FontFace { data, face }),
        Err(_) => None,
    }
}

/// `ttf_parser::Face::glyph_index` for the character with scalar value `cp`:
/// the glyph is named, as a function of the font's bytes and `cp`.
#[verifier::external_body]
fn face_glyph(f: &FontFace, cp: u32) -> (r: Option<u16>)
    requires
        is_char(cp),
    ensures
        r == glyph_of(f.data@, cp),
{
    f.face.glyph_index(char::from_u32(cp).unwrap()).map(|g| g.0)
}

/// `ttf_parser::RawFace::table` on the face's table directory: the bytes of
/// the table `tag`, named as a function of the font's bytes and the tag.
#[verifier::external_body]
fn face_table(f: &FontFace, tag: [u8; 4]) -> (r: Option<Vec<u8>>)
    ensures
        match r {
            Some(t) => table_of(f.data@, tag@) == Some(t@),
            None => table_of(f.data@, tag@) is None,
        },
{
    f.face.raw_face().table(ttf_parser::Tag::from_bytes(&tag)).map(|t| t.to_vec())
}

/// `subsetter::GlyphRemapper::new_from_glyphs_sorted`: for glyph ids that
/// are increasing and start with `.notdef` (0), new id `k` is given to
/// `glyphs[k]`.  More than 65535 glyphs overflow the remapper.
#[verifier::external_body]
fn new_remapper(glyphs: &[u16]) -> (r: subsetter::GlyphRemapper)
    requires
        1 <= glyphs@.len() <= 65535,
        glyphs@[0] == 0,
        forall|a: int, b: int| 0 <= a < b < glyphs@.len() ==> glyphs@[a] < glyphs@[b],
    ensures
        remapped_glyphs(r) == glyphs@,
{
    subsetter::GlyphRemapper::new_from_glyphs_sorted(glyphs)
}

/// `subsetter::GlyphRemapper::get`: the new id of an old glyph id, if the
/// remapper holds it.
#[verifier::external_body]
fn remapped_id(r: &subsetter::GlyphRemapper, old: u16) -> (id: Option<u16>)
    ensures
        match id {
            Some(k) => k < remapped_glyphs(*r).len() && remapped_glyphs(*r)[k as int] == old,
            None => !remapped_glyphs(*r).contains(old),
        },
{
    r.get(old)
}

/// `subsetter::subset(data, 0, r)`: the font cut down to the remapper's
/// glyphs; the result is named, not stated.  The subsetter numbers every
/// glyph the kept ones reach through composite glyphs with a 16-bit counter
/// and panics once all 65536 glyph ids are numbered, and it numbers the
/// font dictionaries of CFF outlines with an 8-bit one, which some CFF
/// fonts overflow (telling which would mean reading their CFF data); and
/// it rebuilds the `name` table with 16-bit string offsets.  So the call is
/// made only on fonts with `glyf` outlines or without CFF ones, whose
/// `name` table keeps its offsets within 16 bits, and only
/// when some glyph id is out of the reach of the kept glyphs, read from the
/// `glyf`, `loca` and `head` tables as the subsetter reads them; the font's
/// table directory is sorted, so that the subsetter's lookup of a table and
/// ttf-parser's find the same record.
#[verifier::external_body]
fn subset_font(data: &[u8], r: &subsetter::GlyphRemapper) -> (out: Option<Vec<u8>>)
    requires
        directory_sorted(data@),
        outlines_supported(data@),
        name_fits(data@),
        closure_fits(data@, remapped_glyphs(*r)),
    ensures
        match out {
            Some(v) => subset_of(data@, remapped_glyphs(*r)) == Some(v@),
            None => subset_of(data@, remapped_glyphs(*r)) is None,
        },
{
    subsetter::subset(data, 0, r).ok()
}

/// Whether the font is a single font whose table records lie in it, sorted
/// by tag without repeats.
fn check_directory_sorted(font: &[u8]) -> (r: bool)
    ensures
        r == directory_sorted(font@),
{
    if font.len() < 12 {
        return false;
    }
    if read_u32(font, 0) == 0x7474_6366 {
        return false;
    }
    let n = read_u16(font, 4) as usize;
    let len = font.len();
    let mut i: usize = 0;
    while i < n
        invariant
            len == font@.len(),
            len >= 12,
            n == font_table_count(font@),
            i <= n,
            forall|k: int| 0 <= k < i ==> #[trigger] record_at(k) + 16 <= font@.len(),
            forall|a: int, b: int| 0 <= a < b < i ==> #[trigger] u32_at(font@, record_at(a)) < #[trigger] u32_at(font@, record_at(b)),
        decreases n - i,
    {
        if 12 + 16 * i + 16 > len {
            assert(!(record_at(i as int) + 16 <= font@.len()));
            return false;
        }
        if i > 0 {
            let prev = read_u32(font, 12 + 16 * (i - 1));
            let cur = read_u32(font, 12 + 16 * i);
            if prev >= cur {
                assert(!(u32_at(font@, record_at(i - 1)) < u32_at(font@, record_at(i as int))));
                return false;
            }
            proof {
                assert forall|a: int, b: int| 0 <= a < b < i + 1 implies #[trigger] u32_at(font@, record_at(a)) < #[trigger] u32_at(
                    font@,
                    record_at(b),
                ) by {
                    if b == i && a < i - 1 {
                        assert(u32_at(font@, record_at(a)) < u32_at(font@, record_at(i - 1)));
                    }
                }
            }
        }
        i = i + 1;
    }
    true
}

/// Whether the font's `name` table fits the subsetter's 16-bit offsets.
fn check_name_table(face: &FontFace) -> (r: bool)
    ensures
        r == name_fits(face.data@),
{
    let name_t: [u8; 4] = [0x6e, 0x61, 0x6d, 0x65];
    assert(name_t@ =~= name_tag());
    let t = match face_table(face, name_t) {
        Some(t) => t,
        None => {
            return true;
        },
    };
    let n = t.len();
    if n < 6 || read_u16(t.as_slice(), 0) != 0 {
        return true;
    }
    let count = read_u16(t.as_slice(), 2) as usize;
    if 6 + 12 * count > n || read_u16(t.as_slice(), 4) as usize > n {
        return true;
    }
    let mut kept: u64 = 0;
    let mut total: u64 = 0;
    let mut i: usize = 0;
    while i < count
        invariant
            n == t@.len(),
            n >= 6,
            u16_at(t@, 0) == 0,
            u16_at(t@, 4) <= n,
            table_of(face.data@, name_tag()) == Some(t@),
            6 + 12 * count <= n,
            count == u16_at(t@, 2),
            i <= count,
            kept_names(t@, i as nat) == (kept as int, total as int),
            kept <= i,
            total <= 0xFFFF * i,
            forall|k: int|
                0 <= k < i && #[trigger] name_record_kept(t@, k) ==> u16_at(t@, 6 + 12 * k + 10) + u16_at(
                    t@,
                    6 + 12 * k + 8,
                ) <= 0xFFFF,
        decreases count - i,
    {
        let r = 6 + 12 * i;
        let platform = read_u16(t.as_slice(), r);
        let encoding = read_u16(t.as_slice(), r + 2);
        let id = read_u16(t.as_slice(), r + 6);
        let len = read_u16(t.as_slice(), r + 8);
        let off = read_u16(t.as_slice(), r + 10);
        let unicode = platform == 0 || (platform == 3 && (encoding == 0 || encoding == 1 || encoding == 10));
        let listed = id <= 9 || (11 <= id && id <= 14);
        if unicode && listed {
            if off as u64 + len as u64 > 0xFFFF {
                proof {
                    assert(name_record_kept(t@, i as int));
                    assert(off == u16_at(t@, 6 + 12 * i + 10));
                    assert(len == u16_at(t@, 6 + 12 * i + 8));
                    assert(!name_table_fits(t@));
                }
                return false;
            }
            kept = kept + 1;
            total = total + len as u64;
        }
        proof {
            assert(name_record_kept(t@, i as int) == (unicode && listed));
        }
        i = i + 1;
    }
    6 + 12 * kept <= 0xFFFF && total <= 0xFFFF
}

/// Entry `n` of `loca`.
fn read_loca(loca: &Vec<u8>, long: bool, n: usize) -> (r: Option<u64>)
    requires
        n <= 0x10000,
    ensures
        match r {
            Some(v) => loca_offset(loca@, long, n as int) == Some(v as int),
            None => loca_offset(loca@, long, n as int) is None,
        },
{
    if long {
        if 4 * n + 4 <= loca.len() {
            Some(read_u32(loca.as_slice(), 4 * n) as u64)
        } else {
            None
        }
    } else {
        if 2 * n + 2 <= loca.len() {
            Some(2 * (read_u16(loca.as_slice(), 2 * n) as u64))
        } else {
            None
        }
    }
}

/// The bytes `from .. to` of `v`.
fn copy_range(v: &Vec<u8>, from: usize, to: usize) -> (r: Vec<u8>)
    requires
        from <= to <= v@.len(),
    ensures
        r@ == v@.subrange(from as int, to as int),
{
    let mut r: Vec<u8> = Vec::new();
    let mut i: usize = from;
    while i < to
        invariant
            from <= i <= to,
            to <= v@.len(),
            r@ == v@.subrange(from as int, i as int),
        decreases to - i,
    {
        r.push(v[i]);
        proof {
            assert(r@ =~= v@.subrange(from as int, i + 1));
        }
        i = i + 1;
    }
    r
}

/// Marks the glyphs that the glyph data `d` names as components.
fn mark_components(d: &Vec<u8>, reach: &mut Vec<bool>)
    requires
        old(reach)@.len() == 0x10000,
    ensures
        final(reach)@.len() == 0x10000,
        forall|c: u16| #[trigger] final(reach)@[c as int] <==> old(reach)@[c as int] || glyph_components(d@).contains(c),
{
    if d.len() < 10 || d[0] < 0x80 {
        proof {
            assert(glyph_components(d@) =~= Seq::<u16>::empty());
        }
        return;
    }
    let n = d.len();
    let mut pos: usize = 10;
    let mut more = true;
    let ghost mut emitted: Seq<u16> = Seq::empty();
    while more && pos <= n - 4
        invariant
            n == d@.len(),
            reach@.len() == 0x10000,
            10 <= pos <= d@.len(),
            d@.len() >= 10 && d@[0] >= 0x80,
            more ==> glyph_components(d@) == emitted + components_from(d@, pos as nat),
            !more ==> glyph_components(d@) == emitted,
            forall|c: u16| #[trigger] reach@[c as int] <==> old(reach)@[c as int] || emitted.contains(c),
        decreases d@.len() - pos + (if more { 1int } else { 0int }),
    {
        let flags = read_u16(d.as_slice(), pos);
        let id = read_u16(d.as_slice(), pos + 2);
        let ghost before = reach@;
        reach.set(id as usize, true);
        let a: usize = if flags & 0x0001 != 0 {
            4
        } else {
            2
        };
        let b: usize = if flags & 0x0008 != 0 {
            2
        } else if flags & 0x0040 != 0 {
            4
        } else if flags & 0x0080 != 0 {
            8
        } else {
            0
        };
        let room = n - pos - 4;
        let stop = flags & 0x0020 == 0 || a + b > room;
        let ghost next: int = pos + 4 + a + b;
        proof {
            assert(u16_at(d@, pos as int) as u16 == flags);
            assert(u16_at(d@, pos + 2int) as u16 == id);
            assert(component_tail(flags) == a + b);
            let prev = emitted;
            emitted = emitted.push(id);
            assert forall|c: u16| #[trigger] reach@[c as int] <==> old(reach)@[c as int] || emitted.contains(c) by {
                if c == id {
                    assert(emitted[emitted.len() - 1] == id);
                } else {
                    assert(reach@[c as int] == before[c as int]);
                    if emitted.contains(c) {
                        let k = choose|k: int| 0 <= k < emitted.len() && emitted[k] == c;
                        assert(prev[k] == c);
                    }
                    if prev.contains(c) {
                        let k = choose|k: int| 0 <= k < prev.len() && prev[k] == c;
                        assert(emitted[k] == c);
                    }
                }
            }
            if stop {
                assert(components_from(d@, pos as nat) == seq![id]);
                assert(prev + seq![id] =~= emitted);
            } else {
                assert(components_from(d@, pos as nat) == seq![id] + components_from(d@, next as nat));
                assert(prev + (seq![id] + components_from(d@, next as nat)) =~= emitted + components_from(
                    d@,
                    next as nat,
                ));
            }
        }
        if stop {
            more = false;
        } else {
            pos = pos + 4 + a + b;
        }
    }
    proof {
        if more {
            assert(components_from(d@, pos as nat) =~= Seq::<u16>::empty());
            assert(emitted + Seq::<u16>::empty() =~= emitted);
        }
    }
}

/// Whether some glyph id is out of reach of the kept glyphs, through the
/// components named by the font's composite glyphs.
fn closure_check(face: &FontFace, kept: &Vec<u16>) -> (r: bool)
    ensures
        r == closure_fits(face.data@, kept@),
{
    let ghost font = face.data@;
    let mut reach: Vec<bool> = Vec::new();
    let mut k: usize = 0;
    while k < 0x10000
        invariant
            k <= 0x10000,
            reach@.len() == k,
            forall|j: int| 0 <= j < k ==> !reach@[j],
        decreases 0x10000 - k,
    {
        reach.push(false);
        k = k + 1;
    }
    let mut i: usize = 0;
    while i < kept.len()
        invariant
            reach@.len() == 0x10000,
            i <= kept@.len(),
            forall|c: u16| #[trigger] reach@[c as int] <==> exists|j: int| 0 <= j < i && kept@[j] == c,
        decreases kept@.len() - i,
    {
        let ghost before = reach@;
        let g = kept[i];
        reach.set(g as usize, true);
        proof {
            assert forall|c: u16| #[trigger] reach@[c as int] <==> exists|j: int| 0 <= j < i + 1 && kept@[j] == c by {
                if c == g {
                    assert(kept@[i as int] == c);
                } else {
                    assert(reach@[c as int] == before[c as int]);
                    if exists|j: int| 0 <= j < i + 1 && kept@[j] == c {
                        let j = choose|j: int| 0 <= j < i + 1 && kept@[j] == c;
                        assert(j < i);
                    }
                }
            }
        }
        i = i + 1;
    }
    proof {
        assert forall|c: u16| #[trigger] reach@[c as int] <==> kept@.contains(c) by {
            if kept@.contains(c) {
                let j = choose|j: int| 0 <= j < kept@.len() && kept@[j] == c;
            }
        }
    }
    let glyf_t: [u8; 4] = [0x67, 0x6c, 0x79, 0x66];
    let loca_t: [u8; 4] = [0x6c, 0x6f, 0x63, 0x61];
    let head_t: [u8; 4] = [0x68, 0x65, 0x61, 0x64];
    assert(glyf_t@ =~= glyf_tag());
    assert(loca_t@ =~= loca_tag());
    assert(head_t@ =~= head_tag());
    let tables = (face_table(face, glyf_t), face_table(face, loca_t), face_table(face, head_t));
    match tables {
        (Some(glyf), Some(loca), Some(head)) if head.len() >= 52 => {
            let long = read_u16(head.as_slice(), 50) != 0;
            assert(glyph_tables(font) == Some((glyf@, loca@, long)));
            let mut g: usize = 0;
            while g < 0x10000
                invariant
                    g <= 0x10000,
                    reach@.len() == 0x10000,
                    glyph_tables(font) == Some((glyf@, loca@, long)),
                    forall|c: u16| #[trigger] reach@[c as int] <==> kept@.contains(c) || exists|h: u16| h < g && #[trigger] names_component(font, h, c),
                decreases 0x10000 - g,
            {
                let ghost before = reach@;
                let from = read_loca(&loca, long, g);
                let to = read_loca(&loca, long, g + 1);
                let ghost bytes = glyph_bytes(glyf@, loca@, long, g as int);
                match (from, to) {
                    (Some(f), Some(t)) if f <= t && t <= glyf.len() as u64 => {
                        let d = copy_range(&glyf, f as usize, t as usize);
                        assert(bytes == Some(d@));
                        mark_components(&d, &mut reach);
                    },
                    _ => {
                        assert(bytes is None);
                    },
                }
                proof {
                    assert forall|c: u16| #[trigger] reach@[c as int] <==> kept@.contains(c) || exists|h: u16| h < g + 1 && #[trigger] names_component(font, h, c) by {
                        if exists|h: u16| h < g + 1 && #[trigger] names_component(font, h, c) {
                            let h = choose|h: u16| h < g + 1 && #[trigger] names_component(font, h, c);
                            if h < g {
                                assert(exists|h2: u16| h2 < g && #[trigger] names_component(font, h2, c));
                            }
                        }
                        if names_component(font, g as u16, c) {
                            assert(exists|h2: u16| h2 < g + 1 && #[trigger] names_component(font, h2, c));
                        }
                    }
                }
                g = g + 1;
            }
        },
        _ => {
            proof {
                assert(glyph_tables(font) is None);
                assert forall|c: u16| #[trigger] reach@[c as int] <==> kept@.contains(c) || exists|h: u16| h < 0x10000 && #[trigger] names_component(font, h, c) by {
                }
            }
        },
    }
    proof {
        assert forall|c: u16| #[trigger] reach@[c as int] <==> may_reach(font, kept@, c) by {
            if exists|h: u16| #[trigger] names_component(font, h, c) {
                let h = choose|h: u16| #[trigger] names_component(font, h, c);
                assert(h < 0x10000);
            }
        }
    }
    let mut x: usize = 0;
    while x < 0x10000
        invariant
            x <= 0x10000,
            font == face.data@,
            reach@.len() == 0x10000,
            forall|c: u16| #[trigger] reach@[c as int] <==> may_reach(font, kept@, c),
            forall|y: u16| y < x ==> #[trigger] may_reach(font, kept@, y),
        decreases 0x10000 - x,
    {
        if !reach[x] {
            proof {
                assert(!reach@[(x as u16) as int]);
                assert(!may_reach(font, kept@, x as u16));
                assert(closure_fits(font, kept@));
            }
            return true;
        }
        proof {
            assert(reach@[(x as u16) as int]);
        }
        x = x + 1;
    }
    proof {
        assert forall|y: u16| #[trigger] may_reach(font, kept@, y) by {
            assert(y < x);
        }
    }
    false
}

/// Code points whose glyphs the subset keeps: Basic Latin and Latin-1
/// (U+0000 to U+00FF), General Punctuation (U+2000 to U+206F), then the
/// given CJK characters.
pub open spec fn subset_codepoints(cjk: Seq<u32>) -> Seq<u32> {
    Seq::new(0x100, |i: int| i as u32) + Seq::new(0x70, |i: int| (0x2000 + i) as u32) + cjk
}

/// Lists the code points to keep.
pub fn kept_codepoints(cjk: &Vec<u32>) -> (r: Vec<u32>)
    ensures
        r@ == subset_codepoints(cjk@),
{
    let mut r: Vec<u32> = Vec::new();
    let mut cp: u32 = 0;
    while cp <= 0xFF
        invariant
            cp <= 0x100,
            r@ == Seq::new(cp as nat, |i: int| i as u32),
        decreases 0x100 - cp,
    {
        r.push(cp);
        proof {
            assert(r@ =~= Seq::new((cp + 1) as nat, |i: int| i as u32));
        }
        cp = cp + 1;
    }
    let ghost latin = r@;
    let mut cp: u32 = 0x2000;
    while cp <= 0x206F
        invariant
            0x2000 <= cp <= 0x2070,
            r@ == latin + Seq::new((cp - 0x2000) as nat, |i: int| (0x2000 + i) as u32),
        decreases 0x2070 - cp,
    {
        r.push(cp);
        proof {
            assert(r@ =~= latin + Seq::new((cp + 1 - 0x2000) as nat, |i: int| (0x2000 + i) as u32));
        }
        cp = cp + 1;
    }
    let ghost both = r@;
    let mut i: usize = 0;
    while i < cjk.len()
        invariant
            i <= cjk@.len(),
            r@ == both + cjk@.take(i as int),
        decreases cjk@.len() - i,
    {
        r.push(cjk[i]);
        proof {
            assert(r@ =~= both + cjk@.take(i + 1));
        }
        i = i + 1;
    }
    proof {
        assert(cjk@.take(cjk@.len() as int) =~= cjk@);
    }
    r
}

/// The pairs `(keys[i], v)` for the entries `found[i] == Some(v)` among the
/// first `n`, in order.
pub open spec fn found_pairs(keys: Seq<u32>, found: Seq<Option<u16>>, n: nat) -> Seq<(u32, u16)>
    decreases n,
{
    if n == 0 {
        Seq::empty()
    } else {
        let prev = found_pairs(keys, found, (n - 1) as nat);
        match found[n - 1] {
            Some(v) => prev.push((keys[n - 1], v)),
            None => prev,
        }
    }
}

/// Pairs each key with what was found for it, dropping the keys for which
/// nothing was found.
pub fn pair_found(keys: &Vec<u32>, found: &Vec<Option<u16>>) -> (r: Vec<(u32, u16)>)
    requires
        keys@.len() == found@.len(),
    ensures
        r@ == found_pairs(keys@, found@, keys@.len()),
        r@.len() <= keys@.len(),
{
    let mut r: Vec<(u32, u16)> = Vec::new();
    let mut i: usize = 0;
    while i < keys.len()
        invariant
            keys@.len() == found@.len(),
            i <= keys@.len(),
            r@ == found_pairs(keys@, found@, i as nat),
            r@.len() <= i,
        decreases keys@.len() - i,
    {
        match found[i] {
            Some(v) => {
                r.push((keys[i], v));
            },
            None => {},
        }
        i = i + 1;
    }
    r
}

/// `g` is a glyph of one of the mappings.
pub open spec fn mapped_glyph(pairs: Seq<(u32, u16)>, g: u16) -> bool {
    exists|i: int| 0 <= i < pairs.len() && (#[trigger] pairs[i]).1 == g
}

/// The glyphs to keep: `.notdef` (0) and every mapped glyph, increasing,
/// without repeats.
pub fn glyph_set(pairs: &Vec<(u32, u16)>) -> (r: Vec<u16>)
    ensures
        r@.len() >= 1,
        r@[0] == 0,
        forall|a: int, b: int| 0 <= a < b < r@.len() ==> r@[a] < r@[b],
        forall|g: u16| #[trigger] r@.contains(g) <==> g == 0 || mapped_glyph(pairs@, g),
{
    let mut present: Vec<bool> = Vec::new();
    let mut k: usize = 0;
    while k < 0x10000
        invariant
            k <= 0x10000,
            present@.len() == k,
            forall|j: int| 0 <= j < k ==> !present@[j],
        decreases 0x10000 - k,
    {
        present.push(false);
        k = k + 1;
    }
    present.set(0, true);
    let mut i: usize = 0;
    while i < pairs.len()
        invariant
            present@.len() == 0x10000,
            i <= pairs@.len(),
            forall|g: u16| #[trigger] present@[g as int] <==> g == 0 || exists|j: int| 0 <= j < i && pairs@[j].1 == g,
        decreases pairs@.len() - i,
    {
        let g = pairs[i].1;
        present.set(g as usize, true);
        proof {
            assert forall|h: u16| #[trigger] present@[h as int] <==> h == 0 || exists|j: int| 0 <= j < i + 1 && pairs@[j].1 == h by {
                if h == g {
                    assert(pairs@[i as int].1 == h);
                }
                if h != g && (exists|j: int| 0 <= j < i + 1 && pairs@[j].1 == h) {
                    let j = choose|j: int| 0 <= j < i + 1 && pairs@[j].1 == h;
                    assert(j < i);
                }
            }
        }
        i = i + 1;
    }
    let mut r: Vec<u16> = Vec::new();
    let mut g: usize = 0;
    while g < 0x10000
        invariant
            present@.len() == 0x10000,
            g <= 0x10000,
            forall|h: u16| #[trigger] present@[h as int] <==> h == 0 || mapped_glyph(pairs@, h),
            forall|a: int, b: int| 0 <= a < b < r@.len() ==> r@[a] < r@[b],
            forall|a: int| 0 <= a < r@.len() ==> #[trigger] r@[a] < g,
            forall|h: u16| h < g ==> (#[trigger] r@.contains(h) <==> present@[h as int]),
            g > 0 ==> r@.len() >= 1 && r@[0] == 0,
        decreases 0x10000 - g,
    {
        if present[g] {
            let ghost r0 = r@;
            r.push(g as u16);
            proof {
                assert forall|h: u16| h < g + 1 implies (#[trigger] r@.contains(h) <==> present@[h as int]) by {
                    if h < g {
                        if r@.contains(h) {
                            let a = choose|a: int| 0 <= a < r@.len() && r@[a] == h;
                            if a < r0.len() {
                                assert(r0[a] == h);
                            }
                        }
                        if r0.contains(h) {
                            let a = choose|a: int| 0 <= a < r0.len() && r0[a] == h;
                            assert(r@[a] == h);
                        }
                    } else {
                        assert(r@[r0.len() as int] == h);
                    }
                }
                if g == 0 {
                    assert(r@[0] == 0);
                }
            }
        } else {
            proof {
                assert forall|h: u16| h < g + 1 implies (#[trigger] r@.contains(h) <==> present@[h as int]) by {
                    if h == g && r@.contains(h) {
                        let a = choose|a: int| 0 <= a < r@.len() && r@[a] == h;
                    }
                }
                if g == 0 {
                    assert(present@[0]);
                }
            }
        }
        g = g + 1;
    }
    proof {
        assert forall|h: u16| #[trigger] r@.contains(h) <==> h == 0 || mapped_glyph(pairs@, h) by {
            assert(r@.contains(h) <==> present@[h as int]);
        }
    }
    r
}

/// Whether the offset table, the table records and the tables they point to
/// all lie inside the font.
pub fn check_font_bounds(font: &[u8]) -> (r: bool)
    ensures
        r == font_in_bounds(font@),
{
    let len = font.len();
    if len < 6 {
        return false;
    }
    let n = read_u16(font, 4) as usize;
    let mut i: usize = 0;
    while i < n
        invariant
            len == font@.len(),
            len >= 6,
            n == font_table_count(font@),
            i <= n,
            forall|j: int| 0 <= j < i ==> #[trigger] record_in_bounds(font@, j),
        decreases n - i,
    {
        let r = 12 + 16 * i;
        if r + 16 > len {
            assert(!record_in_bounds(font@, i as int));
            return false;
        }
        let off = read_u32(font, r + 8) as u64;
        let ln = read_u32(font, r + 12) as u64;
        if off + ln > len as u64 {
            assert(!record_in_bounds(font@, i as int));
            return false;
        }
        i = i + 1;
    }
    true
}

/// Number of tables after adding the extra tables whose tags are new.
pub fn merged_table_count(font: &[u8], extra_tables: &[([u8; 4], Vec<u8>)]) -> (n: usize)
    requires
        font_in_bounds(font@),
    ensures
        n == with_extras(font_tables(font@), extras_view(extra_tables@), extra_tables@.len()).len(),
{
    let mut tables = read_font_tables(font);
    add_extra_tables(&mut tables, extra_tables);
    tables.len()
}

/// Why a subset font could not be made.
#[derive(PartialEq, Eq, Structural, Clone, Copy, Debug)]
pub enum SubsetError {
    /// The source font does not parse.
    UnreadableFont,
    /// More glyphs than a remapper can number.
    TooManyGlyphs,
    /// The font is a collection, or its table records run past it or are
    /// not sorted by tag.
    UnsortedDirectory,
    /// The font has CFF outlines and no `glyf` ones.
    CffOutlines,
    /// The `name` table's kept records would overflow the subsetter's
    /// 16-bit string offsets or record header.
    NameTableTooLarge,
    /// The composite glyphs could bring every glyph id into the subset,
    /// more than the subsetter can number.
    ClosureTooLarge,
    /// The subsetter refused the font.
    SubsetFailed,
    /// The subset's table directory points outside it, or holds no table or
    /// too many tables.
    MalformedSubset,
}

/// `cp` is a Unicode scalar value.
pub open spec fn is_char(cp: u32) -> bool {
    cp <= 0x10FFFF && !(0xD800 <= cp <= 0xDFFF)
}

/// The glyph the font gives code point `cp`; values that are not characters
/// have none.
pub open spec fn glyph_at(font: Seq<u8>, cp: u32) -> Option<u16> {
    if is_char(cp) {
        glyph_of(font, cp)
    } else {
        None
    }
}

/// The (code point, glyph) pairs of the kept code points that have a glyph,
/// in the order of `subset_codepoints`.
pub open spec fn kept_pairs(font: Seq<u8>, cjk: Seq<u32>) -> Seq<(u32, u16)> {
    let cps = subset_codepoints(cjk);
    found_pairs(cps, Seq::new(cps.len(), |i: int| glyph_at(font, cps[i])), cps.len())
}

/// `glyphs` lists `.notdef` (0) and every glyph of `pairs`, increasing, each
/// once.
pub open spec fn glyph_list(pairs: Seq<(u32, u16)>, glyphs: Seq<u16>) -> bool {
    &&& glyphs.len() >= 1 && glyphs[0] == 0
    &&& forall|a: int, b: int| 0 <= a < b < glyphs.len() ==> glyphs[a] < glyphs[b]
    &&& forall|g: u16| #[trigger] glyphs.contains(g) <==> g == 0 || mapped_glyph(pairs, g)
}

/// `m` is `pairs` with each glyph replaced by its position in `glyphs`.
pub open spec fn renumbered(pairs: Seq<(u32, u16)>, glyphs: Seq<u16>, m: Seq<(u32, u16)>) -> bool {
    &&& m.len() == pairs.len()
    &&& forall|i: int|
        0 <= i < m.len() ==> (#[trigger] m[i]).0 == pairs[i].0 && (m[i].1 as int) < glyphs.len()
            && glyphs[m[i].1 as int] == pairs[i].1
}

/// `bytes` is the format-12 `cmap` table of the mappings `m`.
pub open spec fn is_cmap_of(m: Seq<(u32, u16)>, bytes: Seq<u8>) -> bool {
    exists|c: Seq<(u32, u32)>| #[trigger] canonical_mappings(m, c) && bytes == cmap_table_bytes(cmap_groups(c))
}

/// The tables injected into the subset: the `cmap` of `pairs` renumbered
/// after `glyphs`, then the source's `OS/2` table when it has one.
pub open spec fn subset_extras(
    font: Seq<u8>,
    pairs: Seq<(u32, u16)>,
    glyphs: Seq<u16>,
    extras: Seq<([u8; 4], Vec<u8>)>,
) -> bool {
    &&& extras.len() >= 1
    &&& extras[0].0@ == seq![0x63u8, 0x6du8, 0x61u8, 0x70u8]
    &&& exists|m: Seq<(u32, u16)>| #[trigger] renumbered(pairs, glyphs, m) && is_cmap_of(m, extras[0].1@)
    &&& match table_of(font, seq![0x4fu8, 0x53u8, 0x2fu8, 0x32u8]) {
        Some(t) => extras.len() == 2 && extras[1].0@ == seq![0x4fu8, 0x53u8, 0x2fu8, 0x32u8]
            && extras[1].1@ == t,
        None => extras.len() == 1,
    }
}

/// The extra tables can be injected into `subset`: its table directory is
/// sound and the merged table count stays between 1 and 4095.
pub open spec fn injectable(subset: Seq<u8>, extras: Seq<([u8; 4], Vec<u8>)>) -> bool {
    &&& font_in_bounds(subset)
    &&& 1 <= with_extras(font_tables(subset), extras_view(extras), extras.len()).len() <= 4095
}

/// The subset font was made from `font` and the CJK code points `cjk`: the
/// kept glyphs are `glyphs`, the subsetter gave `subset`, and `out` is it
/// with the tables `extras` injected.
#[verifier::opaque]
pub open spec fn subset_built(
    font: Seq<u8>,
    cjk: Seq<u32>,
    glyphs: Seq<u16>,
    subset: Seq<u8>,
    extras: Seq<([u8; 4], Vec<u8>)>,
    out: Seq<u8>,
) -> bool {
    &&& glyph_list(kept_pairs(font, cjk), glyphs)
    &&& glyphs.len() <= 65535
    &&& subset_of(font, glyphs) == Some(subset)
    &&& subset_extras(font, kept_pairs(font, cjk), glyphs, extras)
    &&& injectable(subset, extras)
    &&& out == injected_font(subset, extras)
}

/// `out` is the subset font of `font` for the CJK code points `cjk`, and it
/// keeps `n` glyphs.
pub open spec fn is_subset_font(font: Seq<u8>, cjk: Seq<u32>, out: Seq<u8>, n: nat) -> bool {
    exists|glyphs: Seq<u16>, subset: Seq<u8>, extras: Seq<([u8; 4], Vec<u8>)>|
        #[trigger] subset_built(font, cjk, glyphs, subset, extras, out) && n == glyphs.len()
}

/// The glyphs to keep number more than a remapper can hold.
pub open spec fn too_many_glyphs(font: Seq<u8>, cjk: Seq<u32>) -> bool {
    exists|glyphs: Seq<u16>| #[trigger] glyph_list(kept_pairs(font, cjk), glyphs) && glyphs.len() > 65535
}

/// The glyphs to keep could reach, through composite glyphs, every glyph
/// id.
pub open spec fn closure_exceeds(font: Seq<u8>, cjk: Seq<u32>) -> bool {
    exists|glyphs: Seq<u16>|
        #[trigger] glyph_list(kept_pairs(font, cjk), glyphs) && glyphs.len() <= 65535 && !closure_fits(font, glyphs)
}

/// The subsetter refuses the font with the glyphs to keep.
pub open spec fn subsetter_refuses(font: Seq<u8>, cjk: Seq<u32>) -> bool {
    exists|glyphs: Seq<u16>|
        #[trigger] glyph_list(kept_pairs(font, cjk), glyphs) && glyphs.len() <= 65535 && closure_fits(font, glyphs)
            && subset_of(font, glyphs) is None
}

/// The subsetter's output cannot take the extra tables.
pub open spec fn subset_malformed(font: Seq<u8>, cjk: Seq<u32>) -> bool {
    exists|glyphs: Seq<u16>, subset: Seq<u8>, extras: Seq<([u8; 4], Vec<u8>)>|
        #[trigger] glyph_list(kept_pairs(font, cjk), glyphs) && glyphs.len() <= 65535
            && subset_of(font, glyphs) == Some(subset) && #[trigger] subset_extras(font, kept_pairs(font, cjk), glyphs, extras)
            && !#[trigger] injectable(subset, extras)
}

/// Two increasing glyph lists with the same glyphs are the same list.
proof fn lemma_increasing_unique(a: Seq<u16>, b: Seq<u16>)
    requires
        forall|i: int, j: int| 0 <= i < j < a.len() ==> a[i] < a[j],
        forall|i: int, j: int| 0 <= i < j < b.len() ==> b[i] < b[j],
        forall|g: u16| a.contains(g) <==> b.contains(g),
    ensures
        a == b,
    decreases a.len(),
{
    if a.len() == 0 {
        if b.len() > 0 {
            assert(b.contains(b[0]));
        }
        assert(a =~= b);
    } else if b.len() == 0 {
        assert(a.contains(a[0]));
    } else {
        let x = a.last();
        let y = b.last();
        assert(a.contains(x));
        assert(b.contains(y));
        let jb = choose|j: int| 0 <= j < b.len() && b[j] == x;
        let ja = choose|j: int| 0 <= j < a.len() && a[j] == y;
        assert(x <= y) by {
            if jb < b.len() - 1 {
                assert(b[jb] < b[b.len() - 1]);
            }
        }
        assert(y <= x) by {
            if ja < a.len() - 1 {
                assert(a[ja] < a[a.len() - 1]);
            }
        }
        let a2 = a.drop_last();
        let b2 = b.drop_last();
        assert forall|g: u16| a2.contains(g) <==> b2.contains(g) by {
            if a2.contains(g) {
                let i = choose|i: int| 0 <= i < a2.len() && a2[i] == g;
                assert(a[i] == g && a[i] < x);
                assert(a.contains(g));
                let j = choose|j: int| 0 <= j < b.len() && b[j] == g;
                assert(j != b.len() - 1);
                assert(b2[j] == g);
            }
            if b2.contains(g) {
                let i = choose|i: int| 0 <= i < b2.len() && b2[i] == g;
                assert(b[i] == g && b[i] < y);
                assert(b.contains(g));
                let j = choose|j: int| 0 <= j < a.len() && a[j] == g;
                assert(j != a.len() - 1);
                assert(a2[j] == g);
            }
        }
        lemma_increasing_unique(a2, b2);
        assert(a =~= a2.push(x));
        assert(b =~= b2.push(y));
    }
}

/// The glyph list of a set of pairs is unique.
proof fn lemma_glyph_list_unique(pairs: Seq<(u32, u16)>, a: Seq<u16>, b: Seq<u16>)
    requires
        glyph_list(pairs, a),
        glyph_list(pairs, b),
    ensures
        a == b,
{
    assert forall|g: u16| a.contains(g) <==> b.contains(g) by {
        assert(a.contains(g) <==> g == 0 || mapped_glyph(pairs, g));
        assert(b.contains(g) <==> g == 0 || mapped_glyph(pairs, g));
    }
    lemma_increasing_unique(a, b);
}

/// The glyph found for each code point (none for values that are not
/// characters).
fn lookup_glyphs(face: &FontFace, cps: &Vec<u32>) -> (found: Vec<Option<u16>>)
    ensures
        found@ == Seq::new(cps@.len(), |i: int| glyph_at(face.data@, cps@[i])),
{
    let mut found: Vec<Option<u16>> = Vec::new();
    let mut i: usize = 0;
    while i < cps.len()
        invariant
            i <= cps@.len(),
            found@ == Seq::new(i as nat, |k: int| glyph_at(face.data@, cps@[k])),
        decreases cps@.len() - i,
    {
        let cp = cps[i];
        let g = if cp <= 0x10FFFF && !(0xD800 <= cp && cp <= 0xDFFF) {
            face_glyph(face, cp)
        } else {
            None
        };
        found.push(g);
        proof {
            assert(found@ =~= Seq::new((i + 1) as nat, |k: int| glyph_at(face.data@, cps@[k])));
        }
        i = i + 1;
    }
    found
}

/// The (code point, new glyph id) mappings: each pair's glyph replaced by
/// its id in the remapper, which holds every glyph of the pairs.
fn remap_mappings(remapper: &subsetter::GlyphRemapper, pairs: &Vec<(u32, u16)>) -> (m: Vec<(u32, u16)>)
    requires
        forall|i: int| 0 <= i < pairs@.len() ==> remapped_glyphs(*remapper).contains(#[trigger] pairs@[i].1),
    ensures
        renumbered(pairs@, remapped_glyphs(*remapper), m@),
{
    let mut m: Vec<(u32, u16)> = Vec::new();
    let mut k: usize = 0;
    while k < pairs.len()
        invariant
            k <= pairs@.len(),
            forall|i: int| 0 <= i < pairs@.len() ==> remapped_glyphs(*remapper).contains(#[trigger] pairs@[i].1),
            renumbered(pairs@.take(k as int), remapped_glyphs(*remapper), m@),
        decreases pairs@.len() - k,
    {
        let (cp, old) = pairs[k];
        assert(remapped_glyphs(*remapper).contains(pairs@[k as int].1));
        match remapped_id(remapper, old) {
            Some(new) => {
                m.push((cp, new));
            },
            None => {},
        }
        proof {
            assert(pairs@.take(k + 1).len() == m@.len());
            assert forall|i: int| 0 <= i < m@.len() implies (#[trigger] m@[i]).0 == pairs@.take(k + 1)[i].0
                && (m@[i].1 as int) < remapped_glyphs(*remapper).len()
                && remapped_glyphs(*remapper)[m@[i].1 as int] == pairs@.take(k + 1)[i].1 by {
                if i < k {
                    assert(pairs@.take(k as int)[i] == pairs@.take(k + 1)[i]);
                }
            }
        }
        k = k + 1;
    }
    proof {
        assert(pairs@.take(pairs@.len() as int) =~= pairs@);
    }
    m
}

/// Injects the extra tables into the subset, when its table directory is
/// sound and the table count stays between 1 and 4095.
fn finish_subset(subset: &Vec<u8>, extras: &Vec<([u8; 4], Vec<u8>)>) -> (r: Result<Vec<u8>, SubsetError>)
    ensures
        r matches Ok(out) ==> injectable(subset@, extras@) && out@ == injected_font(subset@, extras@),
        r matches Err(e) ==> e == SubsetError::MalformedSubset && !injectable(subset@, extras@),
{
    if !check_font_bounds(subset.as_slice()) {
        return Err(SubsetError::MalformedSubset);
    }
    let count = merged_table_count(subset.as_slice(), extras.as_slice());
    if count < 1 || count > 4095 {
        return Err(SubsetError::MalformedSubset);
    }
    Ok(inject_tables(subset.as_slice(), extras.as_slice()))
}

/// The extra tables: the `cmap` for the renumbered mappings, then the
/// source's `OS/2` table when it has one.
fn subset_tables(face: &FontFace, pairs: &Vec<(u32, u16)>, remapper: &subsetter::GlyphRemapper) -> (extras: Vec<([u8; 4], Vec<u8>)>)
    requires
        pairs@.len() <= 0x1555_5553,
        forall|i: int| 0 <= i < pairs@.len() ==> remapped_glyphs(*remapper).contains(#[trigger] pairs@[i].1),
    ensures
        subset_extras(face.data@, pairs@, remapped_glyphs(*remapper), extras@),
{
    let mappings = remap_mappings(remapper, pairs);
    let cmap = build_cmap_table(mappings.as_slice());
    proof {
        assert(is_cmap_of(mappings@, cmap@));
    }
    let cmap_tag: [u8; 4] = [0x63, 0x6d, 0x61, 0x70];
    let os2_tag: [u8; 4] = [0x4f, 0x53, 0x2f, 0x32];
    assert(cmap_tag@ =~= seq![0x63u8, 0x6du8, 0x61u8, 0x70u8]);
    assert(os2_tag@ =~= seq![0x4fu8, 0x53u8, 0x2fu8, 0x32u8]);
    let mut extras: Vec<([u8; 4], Vec<u8>)> = Vec::new();
    extras.push((cmap_tag, cmap));
    match face_table(face, os2_tag) {
        Some(os2) => {
            extras.push((os2_tag, os2));
        },
        None => {},
    }
    proof {
        assert(renumbered(pairs@, remapped_glyphs(*remapper), mappings@));
    }
    extras
}

/// Cuts the font down to `glyphs` and injects the extra tables.
fn assemble_subset(face: &FontFace, pairs: &Vec<(u32, u16)>, glyphs: &Vec<u16>) -> (r: Result<Vec<u8>, SubsetError>)
    requires
        pairs@.len() <= 0x1555_5553,
        glyph_list(pairs@, glyphs@),
        glyphs@.len() <= 65535,
        directory_sorted(face.data@),
        outlines_supported(face.data@),
        name_fits(face.data@),
        closure_fits(face.data@, glyphs@),
    ensures
        r matches Ok(out) ==> exists|subset: Seq<u8>, extras: Seq<([u8; 4], Vec<u8>)>|
            subset_of(face.data@, glyphs@) == Some(subset) && #[trigger] subset_extras(face.data@, pairs@, glyphs@, extras)
                && #[trigger] injectable(subset, extras) && out@ == injected_font(subset, extras),
        r matches Err(SubsetError::SubsetFailed) <==> subset_of(face.data@, glyphs@) is None,
        r matches Err(SubsetError::MalformedSubset) ==> exists|subset: Seq<u8>, extras: Seq<([u8; 4], Vec<u8>)>|
            subset_of(face.data@, glyphs@) == Some(subset) && #[trigger] subset_extras(face.data@, pairs@, glyphs@, extras)
                && !#[trigger] injectable(subset, extras),
        r matches Err(e) ==> e == SubsetError::SubsetFailed || e == SubsetError::MalformedSubset,
{
    let remapper = new_remapper(glyphs.as_slice());
    let subset = match subset_font(face.data, &remapper) {
        Some(s) => s,
        None => {
            return Err(SubsetError::SubsetFailed);
        },
    };
    proof {
        assert forall|i: int| 0 <= i < pairs@.len() implies remapped_glyphs(remapper).contains(#[trigger] pairs@[i].1) by {
            assert(mapped_glyph(pairs@, pairs@[i].1));
            assert(glyphs@.contains(pairs@[i].1));
        }
    }
    let extras = subset_tables(face, pairs, &remapper);
    let out = finish_subset(&subset, &extras)?;
    Ok(out)
}

/// Makes the subset font: looks up the glyphs of the Latin, punctuation and
/// given CJK characters, cuts the font down to those glyphs, and adds back a
/// `cmap` table for the characters (and the source's `OS/2` table when it
/// has one).  Returns the font and its number of glyphs.
pub fn build_subset_font(font_data: &[u8], cjk_chars: &Vec<u32>) -> (r: Result<(Vec<u8>, usize), SubsetError>)
    requires
        cjk_chars@.len() <= 0x1000_0000,
    ensures
        r matches Err(SubsetError::UnreadableFont) <==> !font_parses(font_data@),
        r matches Err(SubsetError::TooManyGlyphs) <==> font_parses(font_data@) && too_many_glyphs(font_data@, cjk_chars@),
        r matches Err(SubsetError::UnsortedDirectory) <==> font_parses(font_data@) && !too_many_glyphs(
            font_data@,
            cjk_chars@,
        ) && !directory_sorted(font_data@),
        r matches Err(SubsetError::CffOutlines) <==> font_parses(font_data@) && !too_many_glyphs(font_data@, cjk_chars@)
            && directory_sorted(font_data@) && !outlines_supported(font_data@),
        r matches Err(SubsetError::NameTableTooLarge) <==> font_parses(font_data@) && !too_many_glyphs(
            font_data@,
            cjk_chars@,
        ) && directory_sorted(font_data@) && outlines_supported(font_data@) && !name_fits(font_data@),
        r matches Err(SubsetError::ClosureTooLarge) <==> font_parses(font_data@) && directory_sorted(font_data@)
            && outlines_supported(font_data@) && name_fits(font_data@) && closure_exceeds(font_data@, cjk_chars@),
        r matches Err(SubsetError::SubsetFailed) <==> font_parses(font_data@) && directory_sorted(font_data@)
            && outlines_supported(font_data@) && name_fits(font_data@) && subsetter_refuses(font_data@, cjk_chars@),
        r matches Err(SubsetError::MalformedSubset) ==> font_parses(font_data@) && subset_malformed(font_data@, cjk_chars@),
        r matches Ok((out, n)) ==> is_subset_font(font_data@, cjk_chars@, out@, n as nat),
{
    let face = match parse_face(font_data) {
        Some(f) => f,
        None => {
            return Err(SubsetError::UnreadableFont);
        },
    };
    let cps = kept_codepoints(cjk_chars);
    let found = lookup_glyphs(&face, &cps);
    let pairs = pair_found(&cps, &found);
    let glyphs = glyph_set(&pairs);
    let ghost font = font_data@;
    let ghost cjk = cjk_chars@;
    proof {
        assert(found@ =~= Seq::new(cps@.len(), |i: int| glyph_at(font, cps@[i])));
        assert(pairs@ == kept_pairs(font, cjk));
        assert(glyph_list(pairs@, glyphs@));
        assert forall|g: Seq<u16>| #[trigger] glyph_list(kept_pairs(font, cjk), g) implies g == glyphs@ by {
            lemma_glyph_list_unique(pairs@, g, glyphs@);
        }
    }
    if glyphs.len() > 65535 {
        return Err(SubsetError::TooManyGlyphs);
    }
    if !check_directory_sorted(font_data) {
        return Err(SubsetError::UnsortedDirectory);
    }
    let glyf_t: [u8; 4] = [0x67, 0x6c, 0x79, 0x66];
    let cff_t: [u8; 4] = [0x43, 0x46, 0x46, 0x20];
    assert(glyf_t@ =~= glyf_tag());
    assert(cff_t@ =~= cff_tag());
    let has_glyf = face_table(&face, glyf_t).is_some();
    let has_cff = face_table(&face, cff_t).is_some();
    if !has_glyf && has_cff {
        return Err(SubsetError::CffOutlines);
    }
    if !check_name_table(&face) {
        return Err(SubsetError::NameTableTooLarge);
    }
    if !closure_check(&face, &glyphs) {
        return Err(SubsetError::ClosureTooLarge);
    }
    match assemble_subset(&face, &pairs, &glyphs) {
        Ok(out) => {
            proof {
                let (sub, ext) = choose|sub: Seq<u8>, ext: Seq<([u8; 4], Vec<u8>)>|
                    subset_of(font, glyphs@) == Some(sub) && #[trigger] subset_extras(font, pairs@, glyphs@, ext)
                        && #[trigger] injectable(sub, ext) && out@ == injected_font(sub, ext);
                reveal(subset_built);
                assert(subset_built(font, cjk, glyphs@, sub, ext, out@));
                assert(is_subset_font(font, cjk, out@, glyphs.len() as nat));
            }
            Ok((out, glyphs.len()))
        },
        Err(e) => {
            proof {
                if e == SubsetError::MalformedSubset {
                    let (sub, ext) = choose|sub: Seq<u8>, ext: Seq<([u8; 4], Vec<u8>)>|
                        subset_of(font, glyphs@) == Some(sub) && #[trigger] subset_extras(font, pairs@, glyphs@, ext)
                            && !#[trigger] injectable(sub, ext);
                    assert(glyph_list(kept_pairs(font, cjk), glyphs@));
                    assert(subset_malformed(font, cjk));
                }
            }
            Err(e)
        },
    }
}

} // verus!
