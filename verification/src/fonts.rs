//! Font tables for the subsetted UI font: which characters to keep, the
//! format-12 `cmap` table mapping them to glyphs, table checksums, and
//! rebuilding a font file with extra tables.
use vstd::prelude::*;
use crate::keys::{
    pack, pack_spec, sort_keys, dedup_sorted, strictly_sorted, sorted, sorted_perm, key_lo, lemma_pack_order,
    lemma_pack_halves, lemma_key_halves, lemma_is_sorted_perm,
};

verus! {

broadcast use vstd::seq_lib::group_to_multiset_ensures;

/// Big-endian bytes of a 16-bit value.
pub open spec fn be16(v: int) -> Seq<u8> {
    seq![((v / 0x100) % 0x100) as u8, (v % 0x100) as u8]
}

/// Big-endian bytes of a 32-bit value.
pub open spec fn be32(v: int) -> Seq<u8> {
    seq![
        ((v / 0x100_0000) % 0x100) as u8,
        ((v / 0x1_0000) % 0x100) as u8,
        ((v / 0x100) % 0x100) as u8,
        (v % 0x100) as u8,
    ]
}

/// Appends the big-endian bytes of `v`.
fn push_be16(out: &mut Vec<u8>, v: u16)
    ensures
        final(out)@ == old(out)@ + be16(v as int),
{
    out.push((v / 0x100) as u8);
    out.push((v % 0x100) as u8);
    proof {
        assert(final(out)@ =~= old(out)@ + be16(v as int));
    }
}

/// Appends the big-endian bytes of `v`.
fn push_be32(out: &mut Vec<u8>, v: u32)
    ensures
        final(out)@ == old(out)@ + be32(v as int),
{
    out.push((v / 0x100_0000) as u8);
    out.push(((v / 0x1_0000) % 0x100) as u8);
    out.push(((v / 0x100) % 0x100) as u8);
    out.push((v % 0x100) as u8);
    proof {
        assert(final(out)@ =~= old(out)@ + be32(v as int));
    }
}

/// Byte `i` of `data`, zero past its end.
pub open spec fn byte_or_zero(data: Seq<u8>, i: int) -> int {
    if 0 <= i < data.len() {
        data[i] as int
    } else {
        0
    }
}

/// Big-endian 32-bit word `k` of `data`, zero padded.
pub open spec fn word_at(data: Seq<u8>, k: int) -> int {
    byte_or_zero(data, 4 * k) * 0x100_0000 + byte_or_zero(data, 4 * k + 1) * 0x1_0000 + byte_or_zero(
        data,
        4 * k + 2,
    ) * 0x100 + byte_or_zero(data, 4 * k + 3)
}

/// Sum of the first `n` words of `data`.
pub open spec fn word_sum(data: Seq<u8>, n: nat) -> int
    decreases n,
{
    if n == 0 {
        0
    } else {
        word_sum(data, (n - 1) as nat) + word_at(data, n - 1)
    }
}

/// The OpenType table checksum: the sum, modulo 2^32, of the big-endian
/// 32-bit words of the data, the last one zero padded.
pub open spec fn checksum_of(data: Seq<u8>) -> u32 {
    (word_sum(data, ((data.len() + 3) / 4) as nat) % 0x1_0000_0000) as u32
}

/// Computes the OpenType checksum of a table.
pub fn table_checksum(data: &[u8]) -> (sum: u32)
    ensures
        sum == checksum_of(data@),
{
    let n = data.len();
    let words = n / 4 + if n % 4 == 0 {
        0
    } else {
        1
    };
    assert(words == (n + 3) / 4);
    let mut sum: u32 = 0;
    let mut k: usize = 0;
    while k < words
        invariant
            n == data@.len(),
            words == (n + 3) / 4,
            k <= words,
            sum == word_sum(data@, k as nat) % 0x1_0000_0000,
        decreases words - k,
    {
        let base = 4 * k;
        let b0: u32 = if base < n {
            data[base] as u32
        } else {
            0
        };
        let b1: u32 = if base + 1 < n {
            data[base + 1] as u32
        } else {
            0
        };
        let b2: u32 = if base + 2 < n {
            data[base + 2] as u32
        } else {
            0
        };
        let b3: u32 = if base + 3 < n {
            data[base + 3] as u32
        } else {
            0
        };
        let w: u32 = b0 * 0x100_0000 + b1 * 0x1_0000 + b2 * 0x100 + b3;
        assert(w == word_at(data@, k as int));
        let ghost prev = word_sum(data@, k as nat);
        sum = ((sum as u64 + w as u64) % 0x1_0000_0000) as u32;
        proof {
            vstd::arithmetic::div_mod::lemma_add_mod_noop(prev, w as int, 0x1_0000_0000);
            assert(w as int % 0x1_0000_0000 == w);
        }
        k = k + 1;
    }
    sum
}

/// Some mapping is for code point `cp`.
pub open spec fn has_codepoint(m: Seq<(u32, u16)>, cp: u32) -> bool {
    exists|j: int| 0 <= j < m.len() && (#[trigger] m[j]).0 == cp
}

/// The first mapping for code point `cp` maps it to glyph `g`.
pub open spec fn first_glyph(m: Seq<(u32, u16)>, cp: u32, g: u32) -> bool {
    exists|j: int|
        0 <= j < m.len() && (#[trigger] m[j]).0 == cp && m[j].1 == g && forall|j2: int|
            0 <= j2 < j ==> (#[trigger] m[j2]).0 != cp
}

/// Code point `cp` is listed in `c`.
pub open spec fn lists_codepoint(c: Seq<(u32, u32)>, cp: u32) -> bool {
    exists|i: int| 0 <= i < c.len() && (#[trigger] c[i]).0 == cp
}

/// `c` lists every mapped code point once, in increasing order, with the
/// glyph of its first mapping.
pub open spec fn canonical_mappings(m: Seq<(u32, u16)>, c: Seq<(u32, u32)>) -> bool {
    &&& forall|a: int, b: int| 0 <= a < b < c.len() ==> (#[trigger] c[a]).0 < (#[trigger] c[b]).0
    &&& forall|cp: u32| #[trigger] has_codepoint(m, cp) <==> lists_codepoint(c, cp)
    &&& forall|i: int| 0 <= i < c.len() ==> first_glyph(m, (#[trigger] c[i]).0, c[i].1)
}

/// Format-12 groups of `c`: runs of consecutive code points mapped to
/// consecutive glyphs, as (first code point, last code point, first glyph).
pub open spec fn cmap_groups(c: Seq<(u32, u32)>) -> Seq<(u32, u32, u32)>
    decreases c.len(),
{
    if c.len() == 0 {
        Seq::empty()
    } else {
        let prev = cmap_groups(c.drop_last());
        let cp = c.last().0;
        let gid = c.last().1;
        if prev.len() > 0 && cp == prev.last().1 + 1 && gid == prev.last().2 + (prev.last().1
            - prev.last().0) + 1 {
            prev.update(prev.len() - 1, (prev.last().0, cp, prev.last().2))
        } else {
            prev.push((cp, cp, gid))
        }
    }
}

/// Bytes of the groups, twelve per group.
pub open spec fn groups_bytes(g: Seq<(u32, u32, u32)>) -> Seq<u8>
    decreases g.len(),
{
    if g.len() == 0 {
        Seq::empty()
    } else {
        groups_bytes(g.drop_last()) + be32(g.last().0 as int) + be32(g.last().1 as int) + be32(
            g.last().2 as int,
        )
    }
}

/// A `cmap` table with one Windows UCS-4 encoding record pointing to a
/// format-12 subtable holding the groups.
pub open spec fn cmap_table_bytes(g: Seq<(u32, u32, u32)>) -> Seq<u8> {
    be16(0) + be16(1) + be16(3) + be16(10) + be32(12) + be16(12) + be16(0) + be32(16 + 12 * g.len() as int)
        + be32(0) + be32(g.len() as int) + groups_bytes(g)
}

/// The distinct code points of the mappings, in order of first
/// appearance, each with the glyph of its first mapping.
fn first_mappings(mappings: &[(u32, u16)]) -> (firsts: Vec<(u32, u32)>)
    ensures
        firsts@.len() <= mappings@.len(),
        forall|a: int, b: int| 0 <= a < b < firsts@.len() ==> (#[trigger] firsts@[a]).0 != (#[trigger] firsts@[b]).0,
        forall|cp: u32| #[trigger] has_codepoint(mappings@, cp) <==> lists_codepoint(firsts@, cp),
        forall|i: int| 0 <= i < firsts@.len() ==> first_glyph(mappings@, (#[trigger] firsts@[i]).0, firsts@[i].1),
        forall|k: int| 0 <= k < firsts@.len() ==> (#[trigger] firsts@[k]).1 <= u16::MAX,
{
    let ghost m = mappings@;
    let mut firsts: Vec<(u32, u32)> = Vec::new();
    let mut j: usize = 0;
    while j < mappings.len()
        invariant
            m == mappings@,
            j <= m.len(),
            firsts@.len() <= j,
            forall|a: int, b: int| 0 <= a < b < firsts@.len() ==> (#[trigger] firsts@[a]).0 != (#[trigger] firsts@[b]).0,
            forall|cp: u32| #[trigger] has_codepoint(m.take(j as int), cp) <==> lists_codepoint(firsts@, cp),
            forall|i: int| 0 <= i < firsts@.len() ==> first_glyph(m, (#[trigger] firsts@[i]).0, firsts@[i].1),
            forall|k: int| 0 <= k < firsts@.len() ==> (#[trigger] firsts@[k]).1 <= u16::MAX,
        decreases m.len() - j,
    {
        let (cp, gid) = mappings[j];
        let mut seen = false;
        let mut t: usize = 0;
        while t < firsts.len()
            invariant
                t <= firsts@.len(),
                seen <==> exists|i: int| 0 <= i < t && (#[trigger] firsts@[i]).0 == cp,
            decreases firsts@.len() - t,
        {
            if firsts[t].0 == cp {
                seen = true;
            }
            t = t + 1;
        }
        let ghost f0 = firsts@;
        proof {
            assert(m.take(j + 1) =~= m.take(j as int).push((cp, gid)));
        }
        if !seen {
            firsts.push((cp, gid as u32));
            proof {
                assert forall|j2: int| 0 <= j2 < j implies (#[trigger] m[j2]).0 != cp by {
                    if m[j2].0 == cp {
                        assert(m.take(j as int)[j2].0 == cp);
                        assert(has_codepoint(m.take(j as int), cp));
                    }
                }
                assert(first_glyph(m, cp, gid as u32));
                assert forall|i: int| 0 <= i < firsts@.len() implies first_glyph(m, (#[trigger] firsts@[i]).0, firsts@[i].1) by {
                    if i < f0.len() {
                        assert(firsts@[i] == f0[i]);
                    }
                }
                assert forall|q: u32| #[trigger] has_codepoint(m.take(j + 1), q) <==> lists_codepoint(firsts@, q) by {
                    if has_codepoint(m.take(j + 1), q) {
                        let k = choose|k: int| 0 <= k < j + 1 && (#[trigger] m.take(j + 1)[k]).0 == q;
                        if k < j {
                            assert(m.take(j as int)[k].0 == q);
                            assert(has_codepoint(m.take(j as int), q));
                            assert(lists_codepoint(f0, q));
                            let i = choose|i: int| 0 <= i < f0.len() && (#[trigger] f0[i]).0 == q;
                            assert(firsts@[i] == f0[i]);
                        } else {
                            assert(firsts@[f0.len() as int].0 == q);
                        }
                    }
                    if lists_codepoint(firsts@, q) {
                        let i = choose|i: int| 0 <= i < firsts@.len() && (#[trigger] firsts@[i]).0 == q;
                        if i < f0.len() {
                            assert(f0[i].0 == q);
                            assert(lists_codepoint(f0, q));
                            assert(has_codepoint(m.take(j as int), q));
                            let k = choose|k: int| 0 <= k < j && (#[trigger] m.take(j as int)[k]).0 == q;
                            assert(m.take(j + 1)[k].0 == q);
                        } else {
                            assert(m.take(j + 1)[j as int].0 == q);
                        }
                    }
                }
            }
        } else {
            proof {
                assert forall|q: u32| #[trigger] has_codepoint(m.take(j + 1), q) <==> lists_codepoint(firsts@, q) by {
                    if has_codepoint(m.take(j + 1), q) {
                        let k = choose|k: int| 0 <= k < j + 1 && (#[trigger] m.take(j + 1)[k]).0 == q;
                        if k < j {
                            assert(m.take(j as int)[k].0 == q);
                            assert(has_codepoint(m.take(j as int), q));
                        } else {
                            let i = choose|i: int| 0 <= i < firsts@.len() && (#[trigger] firsts@[i]).0 == cp;
                        }
                    }
                    if lists_codepoint(firsts@, q) {
                        assert(has_codepoint(m.take(j as int), q));
                        let k = choose|k: int| 0 <= k < j && (#[trigger] m.take(j as int)[k]).0 == q;
                        assert(m.take(j + 1)[k].0 == q);
                    }
                }
            }
        }
        j = j + 1;
    }
    proof {
        assert(m.take(m.len() as int) =~= m);
    }
    firsts
}

/// The distinct code points of the mappings with the glyph of each one's
/// first mapping, in increasing code point order.
fn canonical_cmap(mappings: &[(u32, u16)]) -> (c: Vec<(u32, u32)>)
    ensures
        canonical_mappings(mappings@, c@),
        c@.len() <= mappings@.len(),
{
    let ghost m = mappings@;
    let firsts = first_mappings(mappings);
    // Order by code point.
    let mut keys: Vec<u64> = Vec::new();
    let mut i: usize = 0;
    while i < firsts.len()
        invariant
            i <= firsts@.len(),
            keys@.len() == i,
            forall|k: int| 0 <= k < firsts@.len() ==> (#[trigger] firsts@[k]).1 <= u16::MAX,
            forall|k: int| 0 <= k < i ==> keys@[k] == pack_spec(#[trigger] firsts@[k].0, firsts@[k].1),
        decreases firsts@.len() - i,
    {
        let (cp, g) = firsts[i];
        keys.push(pack(cp, g));
        i = i + 1;
    }
    let sorted_keys = sort_keys(&keys);
    let sk = dedup_sorted(&sorted_keys);
    let mut c: Vec<(u32, u32)> = Vec::new();
    let mut k: usize = 0;
    while k < sk.len()
        invariant
            k <= sk@.len(),
            c@.len() == k,
            forall|t: int| 0 <= t < k ==> pack_spec((#[trigger] c@[t]).0, c@[t].1) == sk@[t],
        decreases sk@.len() - k,
    {
        let key = sk[k];
        let cp = (key / 0x1_0000_0000) as u32;
        let g = (key % 0x1_0000_0000) as u32;
        proof {
            lemma_key_halves(key);
        }
        c.push((cp, g));
        k = k + 1;
    }
    proof {
        assert forall|t: int| #![trigger c@[t]] 0 <= t < c@.len() implies exists|k: int|
            0 <= k < firsts@.len() && #[trigger] firsts@[k] == c@[t] by {
            let key = sk@[t];
            assert(sk@.contains(key));
            assert(sorted_keys@.contains(key));
            assert(sorted_keys@.to_multiset().count(key) > 0);
            assert(keys@.contains(key));
            let k = choose|k: int| 0 <= k < keys@.len() && keys@[k] == key;
            lemma_pack_order(firsts@[k].0, firsts@[k].1, c@[t].0, c@[t].1);
        }
        assert forall|k: int| #![trigger firsts@[k]] 0 <= k < firsts@.len() implies exists|t: int|
            0 <= t < c@.len() && #[trigger] c@[t] == firsts@[k] by {
            let key = keys@[k];
            assert(keys@.contains(key));
            assert(keys@.to_multiset().count(key) > 0);
            assert(sorted_keys@.contains(key));
            assert(sk@.contains(key));
            let t = choose|t: int| 0 <= t < sk@.len() && sk@[t] == key;
            lemma_pack_order(firsts@[k].0, firsts@[k].1, c@[t].0, c@[t].1);
        }
        assert forall|a: int, b: int| 0 <= a < b < c@.len() implies (#[trigger] c@[a]).0 < (#[trigger] c@[b]).0 by {
            assert(sk@[a] < sk@[b]);
            lemma_pack_order(c@[a].0, c@[a].1, c@[b].0, c@[b].1);
            if c@[a].0 == c@[b].0 {
                let ka = choose|k: int| 0 <= k < firsts@.len() && #[trigger] firsts@[k] == c@[a];
                let kb = choose|k: int| 0 <= k < firsts@.len() && #[trigger] firsts@[k] == c@[b];
                if ka != kb {
                    if ka < kb {
                        assert(firsts@[ka].0 != firsts@[kb].0);
                    } else {
                        assert(firsts@[kb].0 != firsts@[ka].0);
                    }
                }
            }
        }
        assert forall|cp: u32| #[trigger] has_codepoint(m, cp) <==> lists_codepoint(c@, cp) by {
            if has_codepoint(m, cp) {
                assert(lists_codepoint(firsts@, cp));
                let k = choose|k: int| 0 <= k < firsts@.len() && (#[trigger] firsts@[k]).0 == cp;
                let t = choose|t: int| 0 <= t < c@.len() && #[trigger] c@[t] == firsts@[k];
                assert(c@[t].0 == cp);
            }
            if lists_codepoint(c@, cp) {
                let t = choose|t: int| 0 <= t < c@.len() && (#[trigger] c@[t]).0 == cp;
                let k = choose|k: int| 0 <= k < firsts@.len() && #[trigger] firsts@[k] == c@[t];
                assert(firsts@[k].0 == cp);
                assert(lists_codepoint(firsts@, cp));
            }
        }
        assert forall|t: int| 0 <= t < c@.len() implies first_glyph(m, (#[trigger] c@[t]).0, c@[t].1) by {
            let k = choose|k: int| 0 <= k < firsts@.len() && #[trigger] firsts@[k] == c@[t];
        }
        assert(c@.len() <= firsts@.len()) by {
            assert(sk@.len() <= sorted_keys@.len());
        }
    }
    c
}

/// Builds a `cmap` table (format 12, segmented coverage) from
/// (code point, glyph id) mappings: the first mapping of each code point
/// counts, and runs of consecutive code points mapped to consecutive glyphs
/// share one group.
pub fn build_cmap_table(mappings: &[(u32, u16)]) -> (buf: Vec<u8>)
    requires
        mappings@.len() <= 0x1555_5553,
    ensures
        exists|c: Seq<(u32, u32)>|
            #[trigger] canonical_mappings(mappings@, c) && buf@ == cmap_table_bytes(cmap_groups(c)),
{
    let c = canonical_cmap(mappings);
    let ghost cs = c@;
    proof {
        assert forall|i: int| 0 <= i < cs.len() implies (#[trigger] cs[i]).1 <= u16::MAX by {
            assert(first_glyph(mappings@, cs[i].0, cs[i].1));
        }
    }
    let mut groups: Vec<(u32, u32, u32)> = Vec::new();
    let mut i: usize = 0;
    while i < c.len()
        invariant
            cs == c@,
            i <= cs.len(),
            forall|t: int| 0 <= t < cs.len() ==> (#[trigger] cs[t]).1 <= u16::MAX,
            groups@ == cmap_groups(cs.take(i as int)),
            groups@.len() <= i,
            forall|t: int|
                0 <= t < groups@.len() ==> (#[trigger] groups@[t]).0 <= groups@[t].1 && groups@[t].2 + (
                groups@[t].1 - groups@[t].0) <= u16::MAX,
        decreases cs.len() - i,
    {
        let (cp, gid) = c[i];
        let n = groups.len();
        proof {
            assert(cs.take(i + 1).drop_last() =~= cs.take(i as int));
            assert(cs.take(i + 1).last() == (cp, gid));
        }
        let mut extended = false;
        if n > 0 {
            let (s, e, g) = groups[n - 1];
            if (e as u64) + 1 == cp as u64 && gid as u64 == g as u64 + (e - s) as u64 + 1 {
                groups.set(n - 1, (s, cp, g));
                extended = true;
            }
        }
        if !extended {
            groups.push((cp, cp, gid));
        }
        i = i + 1;
    }
    proof {
        assert(cs.take(cs.len() as int) =~= cs);
    }
    assert(groups@.len() <= mappings@.len());
    let num_groups = groups.len() as u32;
    assert(num_groups == groups@.len());
    let mut buf: Vec<u8> = Vec::new();
    push_be16(&mut buf, 0);
    push_be16(&mut buf, 1);
    push_be16(&mut buf, 3);
    push_be16(&mut buf, 10);
    push_be32(&mut buf, 12);
    push_be16(&mut buf, 12);
    push_be16(&mut buf, 0);
    push_be32(&mut buf, 16 + num_groups * 12);
    push_be32(&mut buf, 0);
    push_be32(&mut buf, num_groups);
    let ghost head = buf@;
    let ghost gs = groups@;
    proof {
        assert(head =~= be16(0) + be16(1) + be16(3) + be16(10) + be32(12) + be16(12) + be16(0) + be32(
            16 + 12 * gs.len() as int,
        ) + be32(0) + be32(gs.len() as int));
    }
    let mut k: usize = 0;
    while k < groups.len()
        invariant
            gs == groups@,
            k <= gs.len(),
            buf@ == head + groups_bytes(gs.take(k as int)),
        decreases gs.len() - k,
    {
        let (s, e, g) = groups[k];
        push_be32(&mut buf, s);
        push_be32(&mut buf, e);
        push_be32(&mut buf, g);
        proof {
            assert(gs.take(k + 1).drop_last() =~= gs.take(k as int));
            assert(gs.take(k + 1).last() == (s, e, g));
            assert(buf@ =~= head + groups_bytes(gs.take(k + 1)));
        }
        k = k + 1;
    }
    proof {
        assert(gs.take(gs.len() as int) =~= gs);
        assert(buf@ =~= cmap_table_bytes(cmap_groups(cs)));
        assert(canonical_mappings(mappings@, cs));
    }
    buf
}

/// Big-endian 16-bit value at `off`.
pub open spec fn u16_at(d: Seq<u8>, off: int) -> int {
    d[off] as int * 0x100 + d[off + 1] as int
}

/// Big-endian 32-bit value at `off`.
pub open spec fn u32_at(d: Seq<u8>, off: int) -> int {
    d[off] as int * 0x100_0000 + d[off + 1] as int * 0x1_0000 + d[off + 2] as int * 0x100 + d[off + 3] as int
}

/// A table tag as a big-endian number, so that number order is tag order.
pub open spec fn tag_value(t: Seq<u8>) -> u32 {
    (t[0] as int * 0x100_0000 + t[1] as int * 0x1_0000 + t[2] as int * 0x100 + t[3] as int) as u32
}

/// Number of tables announced in the font's offset table.
pub open spec fn font_table_count(font: Seq<u8>) -> int {
    u16_at(font, 4)
}

/// Offset of table record `i`.
pub open spec fn record_at(i: int) -> int {
    12 + 16 * i
}

/// Table record `i` and the table it points to lie inside the font.
pub open spec fn record_in_bounds(font: Seq<u8>, i: int) -> bool {
    record_at(i) + 16 <= font.len() && u32_at(font, record_at(i) + 8) + u32_at(font, record_at(i) + 12)
        <= font.len()
}

/// The offset table and every table record and table lie inside the font.
pub open spec fn font_in_bounds(font: Seq<u8>) -> bool {
    &&& font.len() >= 6
    &&& forall|i: int| 0 <= i < font_table_count(font) ==> #[trigger] record_in_bounds(font, i)
}

/// Table `i` of the font: its tag and its bytes.
pub open spec fn font_table(font: Seq<u8>, i: int) -> (u32, Seq<u8>) {
    let r = record_at(i);
    let off = u32_at(font, r + 8);
    (u32_at(font, r) as u32, font.subrange(off, off + u32_at(font, r + 12)))
}

/// The tables of the font, in record order.
pub open spec fn font_tables(font: Seq<u8>) -> Seq<(u32, Seq<u8>)> {
    Seq::new(font_table_count(font) as nat, |i: int| font_table(font, i))
}

/// Tag value of the 4-byte tag.
fn tag_number(t: [u8; 4]) -> (v: u32)
    ensures
        v == tag_value(t@),
{
    (t[0] as u32) * 0x100_0000 + (t[1] as u32) * 0x1_0000 + (t[2] as u32) * 0x100 + t[3] as u32
}

pub(crate) fn read_u16(d: &[u8], off: usize) -> (v: u16)
    requires
        off + 2 <= d@.len(),
    ensures
        v == u16_at(d@, off as int),
{
    (d[off] as u16) * 0x100 + d[off + 1] as u16
}

pub(crate) fn read_u32(d: &[u8], off: usize) -> (v: u32)
    requires
        off + 4 <= d@.len(),
    ensures
        v == u32_at(d@, off as int),
{
    (d[off] as u32) * 0x100_0000 + (d[off + 1] as u32) * 0x1_0000 + (d[off + 2] as u32) * 0x100 + d[off
        + 3] as u32
}

/// Copies bytes `start..end` of `d`.
fn copy_range(d: &[u8], start: usize, end: usize) -> (r: Vec<u8>)
    requires
        start <= end <= d@.len(),
    ensures
        r@ == d@.subrange(start as int, end as int),
{
    let mut r: Vec<u8> = Vec::new();
    let mut i = start;
    while i < end
        invariant
            start <= i <= end <= d@.len(),
            r@ == d@.subrange(start as int, i as int),
        decreases end - i,
    {
        r.push(d[i]);
        proof {
            assert(r@ =~= d@.subrange(start as int, i + 1));
        }
        i = i + 1;
    }
    r
}

/// The tags and bytes of a list of tables.
pub open spec fn tables_view(t: Seq<(u32, Vec<u8>)>) -> Seq<(u32, Seq<u8>)> {
    Seq::new(t.len(), |i: int| (t[i].0, t[i].1@))
}

/// Reads the tables listed in the font's table records.
pub(crate) fn read_font_tables(font: &[u8]) -> (tables: Vec<(u32, Vec<u8>)>)
    requires
        font_in_bounds(font@),
    ensures
        tables_view(tables@) == font_tables(font@),
{
    let n = read_u16(font, 4) as usize;
    let flen = font.len();
    let mut tables: Vec<(u32, Vec<u8>)> = Vec::new();
    let mut i: usize = 0;
    while i < n
        invariant
            flen == font@.len(),
            n == font_table_count(font@),
            font_in_bounds(font@),
            i <= n,
            tables@.len() == i,
            tables_view(tables@) == font_tables(font@).take(i as int),
        decreases n - i,
    {
        assert(record_in_bounds(font@, i as int));
        let r = 12 + 16 * i;
        let tag = read_u32(font, r);
        let off = read_u32(font, r + 8) as usize;
        let len = read_u32(font, r + 12) as usize;
        let data = copy_range(font, off, off + len);
        let ghost t0 = tables@;
        let ghost dv = data@;
        proof {
            assert(font_table(font@, i as int) == (tag, dv));
        }
        tables.push((tag, data));
        proof {
            assert(tables@[i as int].1@ == dv);
            assert(tables_view(tables@) =~= font_tables(font@).take(i + 1)) by {
                assert forall|j: int| 0 <= j < i implies #[trigger] tables@[j] == t0[j] by {}
            }
        }
        i = i + 1;
    }
    proof {
        assert(font_tables(font@).take(n as int) =~= font_tables(font@));
    }
    tables
}

/// One of the tables has tag `tag`.
pub open spec fn has_tag(ts: Seq<(u32, Seq<u8>)>, tag: u32) -> bool {
    exists|i: int| 0 <= i < ts.len() && (#[trigger] ts[i]).0 == tag
}

/// The tables with the first `n` extra tables added, each only when no
/// table with its tag is present yet.
pub open spec fn with_extras(ts: Seq<(u32, Seq<u8>)>, extras: Seq<(u32, Seq<u8>)>, n: nat) -> Seq<
    (u32, Seq<u8>),
>
    decreases n,
{
    if n == 0 {
        ts
    } else {
        let prev = with_extras(ts, extras, (n - 1) as nat);
        if has_tag(prev, extras[n - 1].0) {
            prev
        } else {
            prev.push(extras[n - 1])
        }
    }
}

/// The extra tables as tag values and bytes.
pub open spec fn extras_view(extras: Seq<([u8; 4], Vec<u8>)>) -> Seq<(u32, Seq<u8>)> {
    Seq::new(extras.len(), |i: int| (tag_value(extras[i].0@), extras[i].1@))
}

/// Sort keys of the tables: tag first, then position, so that sorting the
/// keys orders the tables by tag and keeps equal tags in their order.
pub open spec fn order_keys(ts: Seq<(u32, Seq<u8>)>) -> Seq<u64> {
    Seq::new(ts.len(), |i: int| pack_spec(ts[i].0, i as u32))
}

/// The tables sorted by tag, equal tags keeping their relative order.
pub open spec fn sorted_tables(ts: Seq<(u32, Seq<u8>)>) -> Seq<(u32, Seq<u8>)> {
    let ks = sorted_perm(order_keys(ts));
    Seq::new(ts.len(), |k: int| ts[key_lo(ks[k])])
}

/// Adds the extra tables whose tags are not present yet.
pub(crate) fn add_extra_tables(tables: &mut Vec<(u32, Vec<u8>)>, extra_tables: &[([u8; 4], Vec<u8>)])
    ensures
        tables_view(final(tables)@) == with_extras(
            tables_view(old(tables)@),
            extras_view(extra_tables@),
            extra_tables@.len(),
        ),
{
    let ghost base = tables_view(tables@);
    let ghost ex = extras_view(extra_tables@);
    let mut j: usize = 0;
    while j < extra_tables.len()
        invariant
            base == tables_view(old(tables)@),
            ex == extras_view(extra_tables@),
            j <= extra_tables@.len(),
            tables_view(tables@) == with_extras(base, ex, j as nat),
        decreases extra_tables@.len() - j,
    {
        let tag = tag_number(extra_tables[j].0);
        let mut present = false;
        let mut t: usize = 0;
        while t < tables.len()
            invariant
                t <= tables@.len(),
                present <==> exists|i: int| 0 <= i < t && (#[trigger] tables@[i]).0 == tag,
            decreases tables@.len() - t,
        {
            if tables[t].0 == tag {
                present = true;
            }
            t = t + 1;
        }
        let ghost tv = tables_view(tables@);
        proof {
            assert(ex[j as int].0 == tag);
            if present {
                let i = choose|i: int| 0 <= i < tables@.len() && (#[trigger] tables@[i]).0 == tag;
                assert(tv[i].0 == tag);
            }
            if has_tag(tv, tag) {
                let i = choose|i: int| 0 <= i < tv.len() && (#[trigger] tv[i]).0 == tag;
                assert(tables@[i].0 == tag);
            }
            assert(present == has_tag(tv, tag));
        }
        if !present {
            let src = &extra_tables[j].1;
            let data = copy_range(src.as_slice(), 0, src.len());
            let ghost t0 = tables@;
            let ghost dv = data@;
            proof {
                assert(dv =~= ex[j as int].1);
            }
            tables.push((tag, data));
            proof {
                assert(tables_view(tables@) =~= tv.push(ex[j as int])) by {
                    assert forall|i: int| 0 <= i < t0.len() implies #[trigger] tables@[i] == t0[i] by {}
                    assert(tables@[t0.len() as int].1@ == dv);
                }
            }
        }
        j = j + 1;
    }
}

/// The order in which the tables are written: indices sorted by tag, equal
/// tags in their given order.
fn table_order(tables: &Vec<(u32, Vec<u8>)>) -> (order: Vec<usize>)
    requires
        tables@.len() <= u32::MAX,
    ensures
        order@.len() == tables@.len(),
        forall|k: int| 0 <= k < order@.len() ==> (#[trigger] order@[k]) < tables@.len(),
        forall|k: int|
            0 <= k < order@.len() ==> #[trigger] order@[k] == key_lo(sorted_perm(order_keys(tables_view(tables@)))[k]),
{
    let ghost tv = tables_view(tables@);
    let mut keys: Vec<u64> = Vec::new();
    let mut i: usize = 0;
    while i < tables.len()
        invariant
            tv == tables_view(tables@),
            tables@.len() <= u32::MAX,
            i <= tables@.len(),
            keys@ == order_keys(tv).take(i as int),
        decreases tables@.len() - i,
    {
        keys.push(pack(tables[i].0, i as u32));
        proof {
            assert(keys@ =~= order_keys(tv).take(i + 1));
        }
        i = i + 1;
    }
    proof {
        assert(order_keys(tv).take(tables@.len() as int) =~= order_keys(tv));
    }
    let sk = sort_keys(&keys);
    proof {
        lemma_is_sorted_perm(keys@, sk@);
    }
    let mut order: Vec<usize> = Vec::new();
    let mut k: usize = 0;
    while k < sk.len()
        invariant
            sk@ == sorted_perm(order_keys(tv)),
            keys@ == order_keys(tv),
            sk@.to_multiset() == keys@.to_multiset(),
            sk@.len() == tv.len(),
            tv.len() == tables@.len(),
            k <= sk@.len(),
            order@.len() == k,
            forall|t: int| 0 <= t < k ==> (#[trigger] order@[t]) < tables@.len(),
            forall|t: int| 0 <= t < k ==> #[trigger] order@[t] == key_lo(sk@[t]),
        decreases sk@.len() - k,
    {
        let key = sk[k];
        proof {
            assert(sk@.contains(key));
            assert(sk@.to_multiset().count(key) > 0);
            assert(keys@.to_multiset().count(key) > 0);
            assert(keys@.contains(key));
            let j = choose|j: int| 0 <= j < keys@.len() && keys@[j] == key;
            assert(j < tv.len());
            lemma_pack_halves(tv[j].0, j as u32);
            lemma_key_halves(key);
        }
        order.push((key % 0x1_0000_0000) as usize);
        k = k + 1;
    }
    order
}

/// Length rounded up to a multiple of four.
pub open spec fn padded_len(n: int) -> int {
    (n + 3) / 4 * 4
}

/// Where the data of table `k` starts: after the offset table, the table
/// records, and the padded data of the tables before it.
pub open spec fn data_start(ts: Seq<(u32, Seq<u8>)>, k: nat) -> int
    decreases k,
{
    if k == 0 {
        12 + 16 * ts.len() as int
    } else {
        data_start(ts, (k - 1) as nat) + padded_len(ts[k - 1].1.len() as int)
    }
}

/// The records of the first `k` tables: tag, checksum, offset and length,
/// offsets and lengths taken modulo 2^32.
pub open spec fn table_records(ts: Seq<(u32, Seq<u8>)>, k: nat) -> Seq<u8>
    decreases k,
{
    if k == 0 {
        Seq::empty()
    } else {
        table_records(ts, (k - 1) as nat) + be32(ts[k - 1].0 as int) + be32(checksum_of(ts[k - 1].1) as int)
            + be32(data_start(ts, (k - 1) as nat) % 0x1_0000_0000) + be32(
            ts[k - 1].1.len() as int % 0x1_0000_0000,
        )
    }
}

/// `n` zero bytes.
pub open spec fn zeros(n: int) -> Seq<u8> {
    Seq::new(n as nat, |i: int| 0u8)
}

/// The data of the first `k` tables, each zero padded to a multiple of four.
pub open spec fn table_data(ts: Seq<(u32, Seq<u8>)>, k: nat) -> Seq<u8>
    decreases k,
{
    if k == 0 {
        Seq::empty()
    } else {
        let d = ts[k - 1].1;
        table_data(ts, (k - 1) as nat) + d + zeros(padded_len(d.len() as int) - d.len())
    }
}

/// Largest `e` with 2^e <= n (0 for n < 2).
pub open spec fn log2_floor(n: nat) -> nat
    decreases n,
{
    if n < 2 {
        0
    } else {
        1 + log2_floor(n / 2)
    }
}

/// 2^e.
pub open spec fn pow2_of(e: nat) -> nat
    decreases e,
{
    if e == 0 {
        1
    } else {
        2 * pow2_of((e - 1) as nat)
    }
}

/// The offset table of a font with `n` tables.
pub open spec fn font_header(sf_version: u32, n: nat) -> Seq<u8> {
    let e = log2_floor(n);
    let search_range = pow2_of(e) * 16;
    be32(sf_version as int) + be16(n as int) + be16(search_range as int) + be16(e as int) + be16(
        n * 16 - search_range as int,
    )
}

/// The font file holding the tables in the given order.
pub open spec fn assembled_font(sf_version: u32, ts: Seq<(u32, Seq<u8>)>) -> Seq<u8> {
    font_header(sf_version, ts.len()) + table_records(ts, ts.len()) + table_data(ts, ts.len())
}

/// The `head` tag.
pub open spec fn head_tag() -> u32 {
    0x6865_6164
}

/// Index of the last `head` table among the first `k`, or -1.
pub open spec fn last_head(ts: Seq<(u32, Seq<u8>)>, k: nat) -> int
    decreases k,
{
    if k == 0 {
        -1
    } else if ts[k - 1].0 == head_tag() {
        k - 1
    } else {
        last_head(ts, (k - 1) as nat)
    }
}

/// `out` with the four bytes at `at` replaced by `b`.
pub open spec fn replace4(out: Seq<u8>, at: int, b: Seq<u8>) -> Seq<u8> {
    out.take(at) + b + out.skip(at + 4)
}

/// The font bytes with the `checkSumAdjustment` field of the last `head`
/// table set so that the whole font sums to 0xB1B0AFBA, when that field
/// lies inside the file.
pub open spec fn with_head_adjustment(out: Seq<u8>, ts: Seq<(u32, Seq<u8>)>) -> Seq<u8> {
    match head_adjustment_at(ts, ts.len()) {
        None => out,
        Some(adj) => adjusted_at(out, adj as int),
    }
}

/// The tables of the font with the new extra tables, sorted by tag.
pub open spec fn merged_tables(font: Seq<u8>, extras: Seq<([u8; 4], Vec<u8>)>) -> Seq<(u32, Seq<u8>)> {
    sorted_tables(with_extras(font_tables(font), extras_view(extras), extras.len()))
}

/// The font rebuilt with the extra tables.
pub open spec fn injected_font(font: Seq<u8>, extras: Seq<([u8; 4], Vec<u8>)>) -> Seq<u8> {
    let ts = merged_tables(font, extras);
    with_head_adjustment(assembled_font(u32_at(font, 0) as u32, ts), ts)
}

proof fn lemma_log2_floor(n: nat, e: nat)
    requires
        pow2_of(e) <= n < 2 * pow2_of(e),
    ensures
        log2_floor(n) == e,
    decreases e,
{
    if e > 0 {
        assert(pow2_of(e) == 2 * pow2_of((e - 1) as nat));
        lemma_log2_floor(n / 2, (e - 1) as nat);
    }
}

/// Appends the bytes of `d`.
fn push_bytes(out: &mut Vec<u8>, d: &Vec<u8>)
    ensures
        final(out)@ == old(out)@ + d@,
{
    let mut i: usize = 0;
    while i < d.len()
        invariant
            i <= d@.len(),
            out@ == old(out)@ + d@.take(i as int),
        decreases d@.len() - i,
    {
        out.push(d[i]);
        proof {
            assert(out@ =~= old(out)@ + d@.take(i + 1));
        }
        i = i + 1;
    }
    proof {
        assert(d@.take(d@.len() as int) =~= d@);
    }
}

/// Where the checksum adjustment of the last `head` table among the first
/// `k` lies.
pub open spec fn head_adjustment_at(ts: Seq<(u32, Seq<u8>)>, k: nat) -> Option<u128> {
    if last_head(ts, k) < 0 {
        None
    } else {
        Some((data_start(ts, last_head(ts, k) as nat) + 8) as u128)
    }
}

proof fn lemma_records_step(ts: Seq<(u32, Seq<u8>)>, k: nat)
    requires
        k < ts.len(),
    ensures
        table_records(ts, k + 1) == table_records(ts, k) + be32(ts[k as int].0 as int) + be32(
            checksum_of(ts[k as int].1) as int,
        ) + be32(data_start(ts, k) % 0x1_0000_0000) + be32(ts[k as int].1.len() as int % 0x1_0000_0000),
        data_start(ts, k + 1) == data_start(ts, k) + padded_len(ts[k as int].1.len() as int),
        head_adjustment_at(ts, k + 1) == if ts[k as int].0 == head_tag() {
            Some((data_start(ts, k) + 8) as u128)
        } else {
            head_adjustment_at(ts, k)
        },
{
}

/// The tables taken in `order`.
pub open spec fn ordered_tables(tables: Seq<(u32, Vec<u8>)>, order: Seq<usize>) -> Seq<(u32, Seq<u8>)> {
    Seq::new(order.len(), |k: int| (tables[order[k] as int].0, tables[order[k] as int].1@))
}

/// Appends the records of the tables taken in `order` and returns where the
/// last `head` table's checksum adjustment lies.
fn write_records(out: &mut Vec<u8>, tables: &Vec<(u32, Vec<u8>)>, order: &Vec<usize>) -> (head: Option<u128>)
    requires
        order@.len() <= 4095,
        forall|k: int| 0 <= k < order@.len() ==> (#[trigger] order@[k]) < tables@.len(),
    ensures
        ({
            let ts = ordered_tables(tables@, order@);
            &&& final(out)@ == old(out)@ + table_records(ts, ts.len())
            &&& head == head_adjustment_at(ts, ts.len())
        }),
{
    let ghost ts = ordered_tables(tables@, order@);
    let n = order.len();
    let mut off: u128 = 12 + 16 * n as u128;
    let mut head: Option<u128> = None;
    let mut k: usize = 0;
    while k < n
        invariant
            n == order@.len(),
            n == ts.len(),
            n <= 4095,
            forall|t: int| 0 <= t < n ==> (#[trigger] order@[t]) < tables@.len(),
            ts == ordered_tables(tables@, order@),
            k <= n,
            off == data_start(ts, k as nat),
            off <= 12 + 16 * 4095 + k * 0x1_0000_0000_0000_0004,
            out@ == old(out)@ + table_records(ts, k as nat),
            head == head_adjustment_at(ts, k as nat),
        decreases n - k,
    {
        let t = &tables[order[k]];
        proof {
            assert(ts[k as int] == (t.0, t.1@));
            lemma_records_step(ts, k as nat);
        }
        let chk = table_checksum(t.1.as_slice());
        let len = t.1.len();
        let ghost before = out@;
        push_be32(out, t.0);
        push_be32(out, chk);
        push_be32(out, (off % 0x1_0000_0000) as u32);
        push_be32(out, ((len as u128) % 0x1_0000_0000) as u32);
        proof {
            assert(out@ =~= old(out)@ + table_records(ts, (k + 1) as nat));
        }
        if t.0 == 0x6865_6164 {
            head = Some(off + 8);
        }
        off = off + ((len as u128) + 3) / 4 * 4;
        k = k + 1;
    }
    head
}

/// Appends the data of the tables taken in `order`, each zero padded to a
/// multiple of four bytes.
fn write_table_data(out: &mut Vec<u8>, tables: &Vec<(u32, Vec<u8>)>, order: &Vec<usize>)
    requires
        forall|k: int| 0 <= k < order@.len() ==> (#[trigger] order@[k]) < tables@.len(),
    ensures
        final(out)@ == old(out)@ + table_data(ordered_tables(tables@, order@), order@.len() as nat),
{
    let ghost ts = ordered_tables(tables@, order@);
    let n = order.len();
    let mut k: usize = 0;
    while k < n
        invariant
            n == order@.len(),
            n == ts.len(),
            forall|t: int| 0 <= t < n ==> (#[trigger] order@[t]) < tables@.len(),
            ts == ordered_tables(tables@, order@),
            k <= n,
            out@ == old(out)@ + table_data(ts, k as nat),
        decreases n - k,
    {
        let t = &tables[order[k]];
        proof {
            assert(ts[k as int] == (t.0, t.1@));
        }
        let ghost before = out@;
        push_bytes(out, &t.1);
        let len = t.1.len();
        let pad = (4 - len % 4) % 4;
        let mut j: usize = 0;
        while j < pad
            invariant
                j <= pad,
                pad < 4,
                out@ == before + t.1@ + zeros(j as int),
            decreases pad - j,
        {
            out.push(0);
            proof {
                assert(out@ =~= before + t.1@ + zeros(j + 1));
            }
            j = j + 1;
        }
        proof {
            assert(pad == padded_len(len as int) - len);
            assert(out@ =~= old(out)@ + table_data(ts, (k + 1) as nat));
        }
        k = k + 1;
    }
}

/// The offset table fields: entry selector (largest e with 2^e <= n) and
/// search range (16 * 2^e).
fn search_fields(n: u16) -> (r: (u16, u16))
    requires
        1 <= n <= 4095,
    ensures
        r.0 == log2_floor(n as nat),
        r.1 == pow2_of(log2_floor(n as nat)) * 16,
        r.1 <= n * 16,
{
    let mut e: u16 = 0;
    let mut p: u16 = 1;
    while p * 2 <= n
        invariant
            1 <= n <= 4095,
            1 <= p <= n,
            p == pow2_of(e as nat),
            e < p,
        decreases n - p,
    {
        p = p * 2;
        e = e + 1;
    }
    proof {
        lemma_log2_floor(n as nat, e as nat);
    }
    (e, p * 16)
}

/// Overwrites the four bytes at `at` with `v` in big-endian order.
fn set_be32(out: &mut Vec<u8>, at: usize, v: u32)
    requires
        at + 4 <= old(out)@.len(),
    ensures
        final(out)@ == replace4(old(out)@, at as int, be32(v as int)),
{
    let len = out.len();
    assert(len == old(out)@.len());
    out.set(at, (v / 0x100_0000) as u8);
    out.set(at + 1, ((v / 0x1_0000) % 0x100) as u8);
    out.set(at + 2, ((v / 0x100) % 0x100) as u8);
    out.set(at + 3, (v % 0x100) as u8);
    proof {
        assert(final(out)@ =~= replace4(old(out)@, at as int, be32(v as int)));
    }
}

/// The font bytes with the checksum adjustment at `adj` set so that the
/// whole font sums to 0xB1B0AFBA, when those four bytes lie inside `out`.
pub open spec fn adjusted_at(out: Seq<u8>, adj: int) -> Seq<u8> {
    if adj + 4 <= out.len() {
        let cleared = replace4(out, adj, be32(0));
        replace4(out, adj, be32((0xB1B0AFBA - checksum_of(cleared)) % 0x1_0000_0000))
    } else {
        out
    }
}

/// Sets the checksum adjustment at `adj`, if it lies inside `out`.
fn fix_head_checksum(out: &mut Vec<u8>, adj: u128)
    ensures
        final(out)@ == adjusted_at(old(out)@, adj as int),
{
    let len = out.len() as u128;
    if adj < len && len - adj >= 4 {
        let at = adj as usize;
        let ghost assembled = out@;
        set_be32(out, at, 0);
        let ghost cleared = out@;
        let sum = table_checksum(out.as_slice());
        let val: u32 = if sum <= 0xB1B0AFBA {
            0xB1B0AFBA - sum
        } else {
            (0x1_0000_0000u64 + 0xB1B0AFBAu64 - sum as u64) as u32
        };
        assert(val == (0xB1B0AFBA - checksum_of(cleared)) % 0x1_0000_0000);
        set_be32(out, at, val);
        proof {
            assert(out@ =~= replace4(assembled, at as int, be32(val as int)));
        }
    }
}

proof fn lemma_ordered_is_sorted(tables: Seq<(u32, Vec<u8>)>, order: Seq<usize>)
    requires
        order.len() == tables.len(),
        forall|k: int| 0 <= k < order.len() ==> (#[trigger] order[k]) < tables.len(),
        forall|k: int|
            0 <= k < order.len() ==> #[trigger] order[k] == key_lo(sorted_perm(order_keys(tables_view(tables)))[k]),
    ensures
        ordered_tables(tables, order) == sorted_tables(tables_view(tables)),
{
    assert(ordered_tables(tables, order) =~= sorted_tables(tables_view(tables)));
}

/// Rebuilds a TrueType/OpenType font with extra tables: the font's tables
/// are read from its table records, each extra table is added unless a table
/// with its tag is already there, the tables are sorted by tag and written
/// after a new offset table and new records (with checksums), each padded
/// to four bytes, and the `head` table's checksum adjustment is recomputed.
pub fn inject_tables(font_data: &[u8], extra_tables: &[([u8; 4], Vec<u8>)]) -> (out: Vec<u8>)
    requires
        font_in_bounds(font_data@),
        1 <= with_extras(font_tables(font_data@), extras_view(extra_tables@), extra_tables@.len()).len()
            <= 4095,
    ensures
        out@ == injected_font(font_data@, extra_tables@),
{
    let sf_version = read_u32(font_data, 0);
    let mut tables = read_font_tables(font_data);
    add_extra_tables(&mut tables, extra_tables);
    let order = table_order(&tables);
    let ghost ts = ordered_tables(tables@, order@);
    proof {
        lemma_ordered_is_sorted(tables@, order@);
    }
    let n = order.len() as u16;
    let (e, search_range) = search_fields(n);
    let mut out: Vec<u8> = Vec::new();
    push_be32(&mut out, sf_version);
    push_be16(&mut out, n);
    push_be16(&mut out, search_range);
    push_be16(&mut out, e);
    push_be16(&mut out, n * 16 - search_range);
    proof {
        assert(out@ =~= font_header(sf_version, ts.len()));
    }
    let head = write_records(&mut out, &tables, &order);
    write_table_data(&mut out, &tables, &order);
    proof {
        assert(out@ =~= assembled_font(sf_version, ts));
    }
    match head {
        Some(adj) => {
            fix_head_checksum(&mut out, adj);
        },
        None => {},
    }
    out
}

/// CJK Unified Ideographs, CJK Symbols and Punctuation, and Halfwidth and
/// Fullwidth Forms.
pub open spec fn is_cjk(cp: u32) -> bool {
    (0x4E00 <= cp <= 0x9FFF) || (0x3000 <= cp <= 0x303F) || (0xFF00 <= cp <= 0xFFEF)
}

/// The CJK code points are exactly those of three Unicode blocks: CJK
/// Unified Ideographs (U+4E00..U+9FFF), CJK Symbols and Punctuation
/// (U+3000..U+303F) and Halfwidth and Fullwidth Forms (U+FF00..U+FFEF).
/// So a scanned code point is kept by the CJK selection exactly when it
/// lies in one of these blocks or is among the extra characters.
pub proof fn lemma_cjk_blocks(extra: Seq<u32>, scanned: Seq<u32>, kept: Seq<u32>, cp: u32)
    requires
        forall|c: u32| #[trigger] kept.contains(c) <==> extra.contains(c) || (scanned.contains(c) && is_cjk(c)),
    ensures
        is_cjk(cp) <==> (0x4E00 <= cp && cp <= 0x9FFF) || (0x3000 <= cp && cp <= 0x303F) || (0xFF00 <= cp && cp
            <= 0xFFEF),
        scanned.contains(cp) && 0xFF00 <= cp <= 0xFFEF ==> kept.contains(cp),
        scanned.contains(cp) && 0x4E00 <= cp <= 0x9FFF ==> kept.contains(cp),
        scanned.contains(cp) && 0x3000 <= cp <= 0x303F ==> kept.contains(cp),
        !extra.contains(cp) && !(0x4E00 <= cp <= 0x9FFF) && !(0x3000 <= cp <= 0x303F) && !(0xFF00 <= cp <= 0xFFEF)
            ==> !kept.contains(cp),
{
    assert(kept.contains(cp) <==> extra.contains(cp) || (scanned.contains(cp) && is_cjk(cp)));
}

/// Whether a code point belongs to the CJK ranges the font keeps.
pub fn is_cjk_codepoint(cp: u32) -> (r: bool)
    ensures
        r == is_cjk(cp),
{
    (0x4E00 <= cp && cp <= 0x9FFF) || (0x3000 <= cp && cp <= 0x303F) || (0xFF00 <= cp && cp <= 0xFFEF)
}

/// The characters to keep in the font, in increasing order without repeats:
/// the `extra` ones and the CJK ones among the `scanned` text.
pub fn select_cjk_codepoints(extra: &Vec<u32>, scanned: &Vec<u32>) -> (r: Vec<u32>)
    ensures
        forall|a: int, b: int| 0 <= a < b < r@.len() ==> r@[a] < r@[b],
        forall|cp: u32| #[trigger] r@.contains(cp) <==> extra@.contains(cp) || (scanned@.contains(cp) && is_cjk(cp)),
{
    let mut keys: Vec<u64> = Vec::new();
    let mut i: usize = 0;
    while i < extra.len()
        invariant
            i <= extra@.len(),
            forall|k: int| 0 <= k < keys@.len() ==> #[trigger] keys@[k] <= u32::MAX,
            forall|c: u64| #[trigger] keys@.contains(c) <==> exists|j: int| 0 <= j < i && extra@[j] == c,
        decreases extra@.len() - i,
    {
        let ghost k0 = keys@;
        keys.push(extra[i] as u64);
        proof {
            assert forall|c: u64| #[trigger] keys@.contains(c) <==> exists|j: int| 0 <= j < i + 1 && extra@[j] == c by {
                if keys@.contains(c) {
                    let k = choose|k: int| 0 <= k < keys@.len() && keys@[k] == c;
                    if k < k0.len() {
                        assert(k0[k] == c);
                        assert(k0.contains(c));
                    }
                }
                if exists|j: int| 0 <= j < i + 1 && extra@[j] == c {
                    let j = choose|j: int| 0 <= j < i + 1 && extra@[j] == c;
                    if j < i {
                        assert(k0.contains(c));
                        let k = choose|k: int| 0 <= k < k0.len() && k0[k] == c;
                        assert(keys@[k] == c);
                    } else {
                        assert(keys@[k0.len() as int] == c);
                    }
                }
            }
        }
        i = i + 1;
    }
    let mut t: usize = 0;
    while t < scanned.len()
        invariant
            t <= scanned@.len(),
            forall|k: int| 0 <= k < keys@.len() ==> #[trigger] keys@[k] <= u32::MAX,
            forall|c: u64|
                #[trigger] keys@.contains(c) <==> (exists|j: int| 0 <= j < extra@.len() && extra@[j] == c) || (
                exists|j: int| 0 <= j < t && scanned@[j] == c && is_cjk(scanned@[j])),
        decreases scanned@.len() - t,
    {
        let cp = scanned[t];
        if is_cjk_codepoint(cp) {
            let ghost k0 = keys@;
            keys.push(cp as u64);
            proof {
                assert forall|c: u64|
                    #[trigger] keys@.contains(c) <==> (exists|j: int| 0 <= j < extra@.len() && extra@[j] == c) || (
                    exists|j: int| 0 <= j < t + 1 && scanned@[j] == c && is_cjk(scanned@[j])) by {
                    if keys@.contains(c) {
                        let k = choose|k: int| 0 <= k < keys@.len() && keys@[k] == c;
                        if k < k0.len() {
                            assert(k0[k] == c);
                            assert(k0.contains(c));
                        } else {
                            assert(scanned@[t as int] == c);
                        }
                    }
                    if exists|j: int| 0 <= j < extra@.len() && extra@[j] == c {
                        assert(k0.contains(c));
                        let k = choose|k: int| 0 <= k < k0.len() && k0[k] == c;
                        assert(keys@[k] == c);
                    }
                    if exists|j: int| 0 <= j < t + 1 && scanned@[j] == c && is_cjk(scanned@[j]) {
                        let j = choose|j: int| 0 <= j < t + 1 && scanned@[j] == c && is_cjk(scanned@[j]);
                        if j < t {
                            assert(k0.contains(c));
                            let k = choose|k: int| 0 <= k < k0.len() && k0[k] == c;
                            assert(keys@[k] == c);
                        } else {
                            assert(keys@[k0.len() as int] == c);
                        }
                    }
                }
            }
        } else {
            proof {
                assert forall|c: u64|
                    #[trigger] keys@.contains(c) <==> (exists|j: int| 0 <= j < extra@.len() && extra@[j] == c) || (
                    exists|j: int| 0 <= j < t + 1 && scanned@[j] == c && is_cjk(scanned@[j])) by {
                    if exists|j: int| 0 <= j < t + 1 && scanned@[j] == c && is_cjk(scanned@[j]) {
                        let j = choose|j: int| 0 <= j < t + 1 && scanned@[j] == c && is_cjk(scanned@[j]);
                        assert(j < t);
                    }
                }
            }
        }
        t = t + 1;
    }
    let sorted_keys = sort_keys(&keys);
    let uniq = dedup_sorted(&sorted_keys);
    proof {
        assert forall|c: u64| #[trigger] uniq@.contains(c) <==> keys@.contains(c) by {
            assert(uniq@.contains(c) <==> sorted_keys@.contains(c));
            assert(sorted_keys@.contains(c) <==> sorted_keys@.to_multiset().count(c) > 0);
            assert(keys@.contains(c) <==> keys@.to_multiset().count(c) > 0);
        }
        assert forall|k: int| 0 <= k < uniq@.len() implies #[trigger] uniq@[k] <= u32::MAX by {
            assert(uniq@.contains(uniq@[k]));
            assert(keys@.contains(uniq@[k]));
        }
    }
    let mut r: Vec<u32> = Vec::new();
    let mut q: usize = 0;
    while q < uniq.len()
        invariant
            q <= uniq@.len(),
            r@.len() == q,
            forall|k: int| 0 <= k < uniq@.len() ==> #[trigger] uniq@[k] <= u32::MAX,
            forall|k: int| 0 <= k < q ==> #[trigger] r@[k] == uniq@[k],
        decreases uniq@.len() - q,
    {
        r.push(uniq[q] as u32);
        q = q + 1;
    }
    proof {
        assert forall|a: int, b: int| 0 <= a < b < r@.len() implies r@[a] < r@[b] by {
            assert(uniq@[a] < uniq@[b]);
        }
        assert forall|cp: u32| #[trigger] r@.contains(cp) <==> extra@.contains(cp) || (scanned@.contains(cp) && is_cjk(cp)) by {
            let c = cp as u64;
            if r@.contains(cp) {
                let k = choose|k: int| 0 <= k < r@.len() && r@[k] == cp;
                assert(uniq@.contains(c));
                assert(keys@.contains(c));
            }
            if extra@.contains(cp) {
                let j = choose|j: int| 0 <= j < extra@.len() && extra@[j] == cp;
                assert(keys@.contains(c));
                assert(uniq@.contains(c));
                let k = choose|k: int| 0 <= k < uniq@.len() && uniq@[k] == c;
                assert(r@[k] == cp);
            }
            if scanned@.contains(cp) && is_cjk(cp) {
                let j = choose|j: int| 0 <= j < scanned@.len() && scanned@[j] == cp;
                assert(keys@.contains(c));
                assert(uniq@.contains(c));
                let k = choose|k: int| 0 <= k < uniq@.len() && uniq@[k] == c;
                assert(r@[k] == cp);
            }
        }
    }
    r
}

/// Words other than the replaced aligned one keep their value.
proof fn lemma_replace_other_word(out: Seq<u8>, adj: int, b: Seq<u8>, k: int)
    requires
        adj % 4 == 0,
        0 <= adj,
        adj + 4 <= out.len(),
        b.len() == 4,
        0 <= k,
        k != adj / 4,
    ensures
        word_at(replace4(out, adj, b), k) == word_at(out, k),
{
    let r = replace4(out, adj, b);
    assert(r.len() == out.len());
    assert forall|i: int| 4 * k <= i < 4 * k + 4 implies byte_or_zero(r, i) == byte_or_zero(out, i) by {
        if 0 <= i < out.len() {
            if i < adj {
                assert(r[i] == out[i]);
            } else {
                assert(i >= adj + 4);
                assert(r[i] == out[i]);
            }
        }
    }
}

/// The replaced aligned word reads back as the value written.
proof fn lemma_written_word(out: Seq<u8>, adj: int, v: int)
    requires
        adj % 4 == 0,
        0 <= adj,
        adj + 4 <= out.len(),
        0 <= v < 0x1_0000_0000,
    ensures
        word_at(replace4(out, adj, be32(v)), adj / 4) == v,
{
    let r = replace4(out, adj, be32(v));
    let k = adj / 4;
    assert(4 * k == adj);
    assert(r[adj] == be32(v)[0] && r[adj + 1] == be32(v)[1] && r[adj + 2] == be32(v)[2] && r[adj + 3] == be32(v)[3]);
    let w = v as u32;
    assert(((w / 0x100_0000) % 0x100) * 0x100_0000 + ((w / 0x1_0000) % 0x100) * 0x1_0000 + ((w / 0x100) % 0x100)
        * 0x100 + w % 0x100 == w) by (bit_vector);
}

/// Sums of words that differ in word `j` only differ by that word.
proof fn lemma_word_sum_one_word(a: Seq<u8>, c: Seq<u8>, j: int, m: nat)
    requires
        forall|k: int| 0 <= k < m && k != j ==> word_at(a, k) == word_at(c, k),
    ensures
        word_sum(a, m) == word_sum(c, m) + (if 0 <= j < m {
            word_at(a, j) - word_at(c, j)
        } else {
            0
        }),
    decreases m,
{
    if m > 0 {
        lemma_word_sum_one_word(a, c, j, (m - 1) as nat);
    }
}

/// Setting the checksum adjustment of an aligned field inside the font
/// makes the whole font sum to 0xB1B0AFBA.
proof fn lemma_adjusted_checksum(out: Seq<u8>, adj: int)
    requires
        adj % 4 == 0,
        0 <= adj,
        adj + 4 <= out.len(),
    ensures
        checksum_of(adjusted_at(out, adj)) == 0xB1B0AFBA,
{
    let p: int = 0x1_0000_0000;
    let m: int = 0xB1B0AFBA;
    let cleared = replace4(out, adj, be32(0));
    let c = checksum_of(cleared) as int;
    let v = (m - c) % p;
    let fin = replace4(out, adj, be32(v));
    assert(adjusted_at(out, adj) == fin);
    assert(replace4(cleared, adj, be32(v)) =~= fin);
    assert(cleared.len() == out.len() && fin.len() == out.len());
    let n = ((out.len() + 3) / 4) as nat;
    let j = adj / 4;
    assert(0 <= j < n);
    assert(0 <= v < p);
    lemma_written_word(out, adj, 0);
    lemma_written_word(cleared, adj, v);
    assert forall|k: int| 0 <= k < n && k != j implies word_at(fin, k) == word_at(cleared, k) by {
        lemma_replace_other_word(cleared, adj, be32(v), k);
    }
    lemma_word_sum_one_word(fin, cleared, j, n);
    let w = word_sum(cleared, n);
    assert(word_sum(fin, n) == w + v);
    assert(c == w % p);
    vstd::arithmetic::div_mod::lemma_fundamental_div_mod(w, p);
    assert(0 <= c < p);
    if m >= c {
        vstd::arithmetic::div_mod::lemma_small_mod((m - c) as nat, p as nat);
        assert(v == m - c);
        vstd::arithmetic::div_mod::lemma_mod_multiples_vanish(w / p, m, p);
        vstd::arithmetic::div_mod::lemma_small_mod(m as nat, p as nat);
        assert(w + v == p * (w / p) + m);
    } else {
        vstd::arithmetic::div_mod::lemma_mod_multiples_vanish(-1, m - c + p, p);
        vstd::arithmetic::div_mod::lemma_small_mod((m - c + p) as nat, p as nat);
        assert(v == m - c + p);
        vstd::arithmetic::div_mod::lemma_mod_multiples_vanish(w / p + 1, m, p);
        vstd::arithmetic::div_mod::lemma_small_mod(m as nat, p as nat);
        assert(w + v == p * (w / p + 1) + m);
    }
    assert((w + v) % p == m);
}

/// Table data starts on four-byte boundaries.
proof fn lemma_data_start_aligned(ts: Seq<(u32, Seq<u8>)>, k: nat)
    ensures
        data_start(ts, k) % 4 == 0,
        data_start(ts, k) >= 12,
    decreases k,
{
    if k > 0 {
        lemma_data_start_aligned(ts, (k - 1) as nat);
        let l = ts[k - 1].1.len() as int;
        assert(padded_len(l) == (l + 3) / 4 * 4);
        assert(padded_len(l) % 4 == 0 && padded_len(l) >= 0) by (nonlinear_arith)
            requires
                padded_len(l) == (l + 3) / 4 * 4,
                l >= 0,
        ;
    }
}

/// Fixing the checksum adjustment of the last `head` table, when its field
/// lies inside the font, makes the whole font sum to 0xB1B0AFBA.
proof fn lemma_head_adjusted_checksum(out: Seq<u8>, ts: Seq<(u32, Seq<u8>)>)
    requires
        last_head(ts, ts.len()) >= 0,
        data_start(ts, last_head(ts, ts.len()) as nat) + 12 <= out.len() <= usize::MAX,
    ensures
        checksum_of(with_head_adjustment(out, ts)) == 0xB1B0AFBA,
{
    let h = last_head(ts, ts.len());
    lemma_data_start_aligned(ts, h as nat);
    let adj = data_start(ts, h as nat) + 8;
    assert(head_adjustment_at(ts, ts.len()) == Some(adj as u128));
    lemma_adjusted_checksum(out, adj);
}

/// The rebuilt font fits in memory and has a `head` table whose checksum
/// adjustment field (bytes 8 to 11 of the table) lies inside it.
pub open spec fn adjustment_fits(font: Seq<u8>, extras: Seq<([u8; 4], Vec<u8>)>) -> bool {
    let ts = merged_tables(font, extras);
    let h = last_head(ts, ts.len());
    &&& h >= 0
    &&& data_start(ts, h as nat) + 12 <= assembled_font(u32_at(font, 0) as u32, ts).len() <= usize::MAX
}

/// A rebuilt font whose `head` table's checksum adjustment field lies inside
/// it sums, as a whole, to 0xB1B0AFBA, as OpenType requires.
pub proof fn lemma_injected_font_checksum(font: Seq<u8>, extras: Seq<([u8; 4], Vec<u8>)>)
    requires
        adjustment_fits(font, extras),
    ensures
        checksum_of(injected_font(font, extras)) == 0xB1B0AFBA,
{
    let ts = merged_tables(font, extras);
    let out = assembled_font(u32_at(font, 0) as u32, ts);
    lemma_head_adjusted_checksum(out, ts);
}

/// Group `k` of `g` covers code point `cp`.
pub open spec fn group_has(g: Seq<(u32, u32, u32)>, k: int, cp: u32) -> bool {
    0 <= k < g.len() && g[k].0 <= cp <= g[k].1
}

/// Some group of `g` maps code point `cp` to glyph `gid`.
pub open spec fn group_maps(g: Seq<(u32, u32, u32)>, cp: u32, gid: int) -> bool {
    exists|k: int| #[trigger] group_has(g, k, cp) && gid == g[k].2 + (cp - g[k].0)
}

/// Some group of `g` covers code point `cp`.
pub open spec fn group_covers(g: Seq<(u32, u32, u32)>, cp: u32) -> bool {
    exists|k: int| #[trigger] group_has(g, k, cp)
}

/// The groups describe the mappings `c` exactly.
spec fn groups_exact(c: Seq<(u32, u32)>, g: Seq<(u32, u32, u32)>) -> bool {
    &&& forall|k: int| 0 <= k < g.len() ==> (#[trigger] g[k]).0 <= g[k].1
    &&& forall|k1: int, k2: int| 0 <= k1 < k2 < g.len() ==> (#[trigger] g[k1]).1 < (#[trigger] g[k2]).0
    &&& forall|k: int, cp: u32|
        #[trigger] group_has(g, k, cp) ==> exists|i: int|
            0 <= i < c.len() && (#[trigger] c[i]).0 == cp && c[i].1 == g[k].2 + (cp - g[k].0)
    &&& forall|i: int| 0 <= i < c.len() ==> group_covers(g, (#[trigger] c[i]).0)
    &&& c.len() > 0 ==> g.len() > 0 && g.last().1 == c.last().0
}

proof fn lemma_groups_exact(c: Seq<(u32, u32)>)
    requires
        forall|a: int, b: int| 0 <= a < b < c.len() ==> (#[trigger] c[a]).0 < (#[trigger] c[b]).0,
    ensures
        groups_exact(c, cmap_groups(c)),
    decreases c.len(),
{
    if c.len() > 0 {
        let c0 = c.drop_last();
        lemma_groups_exact(c0);
        let g0 = cmap_groups(c0);
        let g = cmap_groups(c);
        let x = c.last();
        let n = c0.len() as int;
        assert(c[n] == x);
        assert forall|i: int| 0 <= i < n implies (#[trigger] c0[i]) == c[i] && c0[i].0 < x.0 by {
            assert(c[i].0 < c[n].0);
        }
        if g0.len() > 0 && x.0 == g0.last().1 + 1 && x.1 == g0.last().2 + (g0.last().1 - g0.last().0) + 1 {
            let l = g0.len() - 1;
            assert(g == g0.update(l, (g0[l].0, x.0, g0[l].2)));
            assert forall|k: int, cp: u32| #[trigger] group_has(g, k, cp) implies exists|i: int|
                0 <= i < c.len() && (#[trigger] c[i]).0 == cp && c[i].1 == g[k].2 + (cp - g[k].0) by {
                if k == l && cp == x.0 {
                    assert(c[n].0 == cp);
                } else {
                    assert(group_has(g0, k, cp));
                    let i = choose|i: int| 0 <= i < c0.len() && (#[trigger] c0[i]).0 == cp && c0[i].1 == g0[k].2 + (
                    cp - g0[k].0);
                    assert(c[i] == c0[i]);
                }
            }
            assert forall|i: int| 0 <= i < c.len() implies group_covers(g, (#[trigger] c[i]).0) by {
                if i == n {
                    assert(group_has(g, l, x.0));
                } else {
                    assert(c0[i] == c[i]);
                    assert(group_covers(g0, c0[i].0));
                    let k = choose|k: int| #[trigger] group_has(g0, k, c0[i].0);
                    assert(group_has(g, k, c[i].0));
                }
            }
        } else {
            assert(g == g0.push((x.0, x.0, x.1)));
            let l = g0.len() as int;
            assert forall|k1: int, k2: int| 0 <= k1 < k2 < g.len() implies (#[trigger] g[k1]).1 < (#[trigger] g[k2]).0 by {
                if k2 == l {
                    if g0.len() > 0 {
                        assert(g0.last().1 == c0.last().0);
                        assert(c0.last().0 < x.0);
                        if k1 < l - 1 {
                            assert(g0[k1].1 < g0[l - 1].0);
                        }
                    }
                } else {
                    assert(g[k1] == g0[k1] && g[k2] == g0[k2]);
                }
            }
            assert forall|k: int, cp: u32| #[trigger] group_has(g, k, cp) implies exists|i: int|
                0 <= i < c.len() && (#[trigger] c[i]).0 == cp && c[i].1 == g[k].2 + (cp - g[k].0) by {
                if k == l {
                    assert(c[n].0 == cp);
                } else {
                    assert(group_has(g0, k, cp));
                    let i = choose|i: int| 0 <= i < c0.len() && (#[trigger] c0[i]).0 == cp && c0[i].1 == g0[k].2 + (
                    cp - g0[k].0);
                    assert(c[i] == c0[i]);
                }
            }
            assert forall|i: int| 0 <= i < c.len() implies group_covers(g, (#[trigger] c[i]).0) by {
                if i == n {
                    assert(group_has(g, l, x.0));
                } else {
                    assert(c0[i] == c[i]);
                    assert(group_covers(g0, c0[i].0));
                    let k = choose|k: int| #[trigger] group_has(g0, k, c0[i].0);
                    assert(group_has(g, k, c[i].0));
                }
            }
        }
    }
}

/// The format-12 groups written for a list of mappings read back as those
/// mappings: every mapped code point lies in a group that maps it to the
/// glyph of its first mapping, the groups are increasing and disjoint, and
/// no group covers a code point that is not mapped.
pub proof fn lemma_cmap_groups_decode(m: Seq<(u32, u16)>, c: Seq<(u32, u32)>)
    requires
        canonical_mappings(m, c),
    ensures
        forall|cp: u32, gid: u32| #[trigger] first_glyph(m, cp, gid) ==> group_maps(cmap_groups(c), cp, gid as int),
        forall|k1: int, k2: int|
            0 <= k1 < k2 < cmap_groups(c).len() ==> (#[trigger] cmap_groups(c)[k1]).1 < (#[trigger] cmap_groups(
                c,
            )[k2]).0,
        forall|cp: u32| #[trigger] group_covers(cmap_groups(c), cp) ==> has_codepoint(m, cp),
{
    lemma_groups_exact(c);
    let g = cmap_groups(c);
    assert forall|cp: u32, gid: u32| #[trigger] first_glyph(m, cp, gid) implies group_maps(g, cp, gid as int) by {
        assert(has_codepoint(m, cp));
        assert(lists_codepoint(c, cp));
        let i = choose|i: int| 0 <= i < c.len() && (#[trigger] c[i]).0 == cp;
        assert(first_glyph(m, c[i].0, c[i].1));
        assert(c[i].1 == gid) by {
            let j1 = choose|j: int| 0 <= j < m.len() && (#[trigger] m[j]).0 == cp && m[j].1 == gid && forall|j2: int|
                0 <= j2 < j ==> (#[trigger] m[j2]).0 != cp;
            let j2 = choose|j: int| 0 <= j < m.len() && (#[trigger] m[j]).0 == cp && m[j].1 == c[i].1 && forall|j3: int|
                0 <= j3 < j ==> (#[trigger] m[j3]).0 != cp;
            if j1 < j2 {
                assert(m[j1].0 != cp);
            } else if j2 < j1 {
                assert(m[j2].0 != cp);
            }
        }
        assert(group_covers(g, c[i].0));
        let k = choose|k: int| #[trigger] group_has(g, k, c[i].0);
        let i2 = choose|i2: int| 0 <= i2 < c.len() && (#[trigger] c[i2]).0 == cp && c[i2].1 == g[k].2 + (cp - g[k].0);
        if i2 != i {
            if i2 < i {
                assert(c[i2].0 < c[i].0);
            } else {
                assert(c[i].0 < c[i2].0);
            }
        }
    }
    assert forall|cp: u32| #[trigger] group_covers(g, cp) implies has_codepoint(m, cp) by {
        let k = choose|k: int| #[trigger] group_has(g, k, cp);
        let i = choose|i: int| 0 <= i < c.len() && (#[trigger] c[i]).0 == cp && c[i].1 == g[k].2 + (cp - g[k].0);
        assert(lists_codepoint(c, cp));
    }
}

} // verus!
