//! Connected components of pixel sets under a square (Chebyshev) neighbourhood.
use vstd::prelude::*;
use crate::keys::{
    pack, pack_spec, sort_keys, dedup_sorted, find_key, sorted, strictly_sorted, lemma_pack_order,
};

verus! {

broadcast use vstd::seq_lib::group_to_multiset_ensures;

/// Two distinct pixels whose coordinates differ by at most `r` on both axes.
pub open spec fn within(a: (u32, u32), b: (u32, u32), r: u32) -> bool {
    a != b && b.0 - r <= a.0 <= b.0 + r && b.1 - r <= a.1 <= b.1 + r
}

/// Neighbours under the square neighbourhood of radius `r`, keeping only
/// the horizontal and vertical neighbours when `diag` is false.
pub open spec fn near(a: (u32, u32), b: (u32, u32), r: u32, diag: bool) -> bool {
    within(a, b, r) && (diag || a.0 == b.0 || a.1 == b.1)
}

/// Every coordinate plus the radius stays within the signed 32-bit range in
/// which neighbour coordinates are computed.
pub open spec fn radius_ok(points: Seq<(u32, u32)>, r: u32) -> bool {
    forall|i: int|
        0 <= i < points.len() ==> (#[trigger] points[i]).0 + r <= 0x7FFF_FFFF && points[i].1 + r
            <= 0x7FFF_FFFF
}

/// Every coordinate plus the radius stays within `u32`.
pub open spec fn reach_ok(points: Seq<(u32, u32)>, r: u32) -> bool {
    forall|i: int| 0 <= i < points.len() ==> (#[trigger] points[i]).0 + r <= u32::MAX && points[i].1 + r <= u32::MAX
}

/// `p` occurs in one of the components.
pub open spec fn in_comps(comps: Seq<Vec<(u32, u32)>>, p: (u32, u32)) -> bool {
    exists|c: int, i: int|
        0 <= c < comps.len() && 0 <= i < comps[c]@.len() && #[trigger] comps[c]@[i] == p
}

/// No pixel occurs twice, neither within a component nor across components.
pub open spec fn comps_distinct(comps: Seq<Vec<(u32, u32)>>) -> bool {
    forall|c1: int, i1: int, c2: int, i2: int|
        0 <= c1 < comps.len() && 0 <= c2 < comps.len() && 0 <= i1 < comps[c1]@.len() && 0 <= i2
            < comps[c2]@.len() && (c1 != c2 || i1 != i2) ==> #[trigger] comps[c1]@[i1]
            != #[trigger] comps[c2]@[i2]
}

/// Pixel `i` of `s` neighbours some earlier pixel of `s`.
pub open spec fn linked_to_earlier(s: Seq<(u32, u32)>, i: int, r: u32, diag: bool) -> bool {
    exists|j: int| 0 <= j < i && near(s[j], s[i], r, diag)
}

/// Every pixel of a component after the first is a neighbour of an earlier one,
/// so each component is connected.
pub open spec fn comps_chained(comps: Seq<Vec<(u32, u32)>>, r: u32, diag: bool) -> bool {
    forall|c: int, i: int|
        0 <= c < comps.len() && 0 < i < comps[c]@.len() ==> #[trigger] linked_to_earlier(comps[c]@, i, r, diag)
}

/// No pixel of one component neighbours a pixel of another.
pub open spec fn comps_separated(comps: Seq<Vec<(u32, u32)>>, r: u32, diag: bool) -> bool {
    forall|c1: int, i1: int, c2: int, i2: int|
        0 <= c1 < comps.len() && 0 <= c2 < comps.len() && c1 != c2 && 0 <= i1 < comps[c1]@.len()
            && 0 <= i2 < comps[c2]@.len() ==> !near(
            #[trigger] comps[c1]@[i1],
            #[trigger] comps[c2]@[i2],
            r,
            diag,
        )
}

/// Every in-set neighbour of a component pixel lies in the same component.
pub open spec fn comps_closed(comps: Seq<Vec<(u32, u32)>>, set: Seq<(u32, u32)>, r: u32, diag: bool) -> bool {
    forall|c: int, i: int, q: (u32, u32)|
        0 <= c < comps.len() && 0 <= i < comps[c]@.len() && set.contains(q) && #[trigger] near(comps[c]@[i], q, r, diag) ==> comps[c]@.contains(q)
}

/// Components are listed from largest to smallest.
pub open spec fn comps_by_size(comps: Seq<Vec<(u32, u32)>>) -> bool {
    forall|c1: int, c2: int|
        0 <= c1 < c2 < comps.len() ==> (#[trigger] comps[c1]@).len() >= (#[trigger] comps[c2]@).len()
}

/// Pixel `j` of the input is the first of the input lying in `comp`, and
/// `comp` begins with it.
pub open spec fn starts_at_first(pixels: Seq<(u32, u32)>, comp: Seq<(u32, u32)>, j: int) -> bool {
    &&& 0 <= j < pixels.len()
    &&& comp.len() > 0 && comp[0] == pixels[j]
    &&& forall|k: int| 0 <= k < j ==> !comp.contains(#[trigger] pixels[k])
}

/// Each component begins with its first pixel in input order, and
/// components of equal size come in the order of those first pixels.
pub open spec fn ordered_by_first_pixel(pixels: Seq<(u32, u32)>, comps: Seq<Vec<(u32, u32)>>) -> bool {
    exists|firsts: Seq<int>|
        #![trigger firsts.len()]
        firsts.len() == comps.len() && (forall|c: int| 0 <= c < comps.len() ==> starts_at_first(pixels, #[trigger] comps[c]@, firsts[c]))
            && (forall|c1: int, c2: int|
            0 <= c1 < c2 < comps.len() && (comps[c1]@).len() == (comps[c2]@).len() ==> #[trigger] firsts[c1] < #[trigger] firsts[c2])
}

/// `comps` is the decomposition of the pixel set of `pixels` into its
/// connected components under the `near` neighbourhood given by `r` and `diag`.
pub open spec fn is_neighbour_split(pixels: Seq<(u32, u32)>, r: u32, diag: bool, comps: Seq<Vec<(u32, u32)>>) -> bool {
    &&& forall|c: int| 0 <= c < comps.len() ==> (#[trigger] comps[c]@).len() > 0
    &&& forall|p: (u32, u32)| pixels.contains(p) <==> in_comps(comps, p)
    &&& comps_distinct(comps)
    &&& comps_chained(comps, r, diag)
    &&& comps_separated(comps, r, diag)
}

/// `comps` is the decomposition of `pixels` into its connected components
/// under the square neighbourhood of radius `r`.
pub open spec fn is_component_split(pixels: Seq<(u32, u32)>, r: u32, comps: Seq<Vec<(u32, u32)>>) -> bool {
    is_neighbour_split(pixels, r, true, comps)
}

/// `comps` is the decomposition of `pixels` into its 4-connected components.
pub open spec fn is_four_split(pixels: Seq<(u32, u32)>, comps: Seq<Vec<(u32, u32)>>) -> bool {
    is_neighbour_split(pixels, 1, false, comps)
}

/// The keys of `keys` are exactly the packed pixels of `pixels`.
spec fn keys_match(keys: Seq<u64>, pixels: Seq<(u32, u32)>) -> bool {
    forall|q: (u32, u32)| #[trigger] keys.contains(pack_spec(q.0, q.1)) <==> pixels.contains(q)
}

/// The visited flags mark exactly the pixels of `vis`.
spec fn visited_match(keys: Seq<u64>, visited: Seq<bool>, vis: Set<(u32, u32)>) -> bool {
    &&& visited.len() == keys.len()
    &&& forall|k: int, q: (u32, u32)|
        0 <= k < keys.len() && #[trigger] keys[k] == #[trigger] pack_spec(q.0, q.1) ==> (
        visited[k] <==> vis.contains(q))
}

/// Number of raised flags.
spec fn count_true(v: Seq<bool>) -> nat
    decreases v.len(),
{
    if v.len() == 0 {
        0
    } else {
        count_true(v.drop_last()) + if v.last() {
            1nat
        } else {
            0nat
        }
    }
}

proof fn lemma_count_true_bound(v: Seq<bool>)
    ensures
        count_true(v) <= v.len(),
    decreases v.len(),
{
    if v.len() > 0 {
        lemma_count_true_bound(v.drop_last());
    }
}

proof fn lemma_count_true_raise(v: Seq<bool>, k: int)
    requires
        0 <= k < v.len(),
        !v[k],
    ensures
        count_true(v.update(k, true)) == count_true(v) + 1,
    decreases v.len(),
{
    let u = v.update(k, true);
    if k == v.len() - 1 {
        assert(u.drop_last() =~= v.drop_last());
    } else {
        assert(u.drop_last() =~= v.drop_last().update(k, true));
        lemma_count_true_raise(v.drop_last(), k);
    }
}

/// Looks up the pixel at signed coordinates `(nx, ny)`; returns its key index
/// when the coordinates are a pixel of the set.
fn lookup(keys: &Vec<u64>, nx: i64, ny: i64) -> (r: Option<usize>)
    requires
        strictly_sorted(keys@),
        0 <= nx <= u32::MAX,
        0 <= ny <= u32::MAX,
    ensures
        match r {
            Some(k) => k < keys.len() && keys@[k as int] == pack_spec(nx as u32, ny as u32),
            None => !keys@.contains(pack_spec(nx as u32, ny as u32)),
        },
{
    let k = pack(nx as u32, ny as u32);
    find_key(keys, k)
}

proof fn lemma_strict_index_unique(keys: Seq<u64>, a: int, b: int)
    requires
        strictly_sorted(keys),
        0 <= a < keys.len(),
        0 <= b < keys.len(),
        keys[a] == keys[b],
    ensures
        a == b,
{
    if a < b {
        assert(keys[a] < keys[b]);
    } else if b < a {
        assert(keys[b] < keys[a]);
    }
}

/// Breadth-first growth of the component containing `start`: every pixel
/// reachable from `start` through in-set neighbours, in discovery order.
#[verifier::rlimit(60)]
fn grow_component(
    pixels: &[(u32, u32)],
    keys: &Vec<u64>,
    visited: &mut Vec<bool>,
    start: (u32, u32),
    start_k: usize,
    r: u32,
    diag: bool,
    Ghost(done): Ghost<Set<(u32, u32)>>,
) -> (comp: Vec<(u32, u32)>)
    requires
        strictly_sorted(keys@),
        keys_match(keys@, pixels@),
        visited_match(keys@, old(visited)@, done),
        reach_ok(pixels@, r),
        forall|q: (u32, u32)| done.contains(q) ==> pixels@.contains(q),
        forall|p: (u32, u32), q: (u32, u32)|
            done.contains(p) && pixels@.contains(q) && #[trigger] near(p, q, r, diag) ==> done.contains(q),
        pixels@.contains(start),
        !done.contains(start),
        start_k < keys.len(),
        keys@[start_k as int] == pack_spec(start.0, start.1),
    ensures
        comp@.len() > 0,
        comp@[0] == start,
        forall|i: int, j: int| 0 <= i < j < comp@.len() ==> comp@[i] != comp@[j],
        forall|i: int| 0 <= i < comp@.len() ==> pixels@.contains(#[trigger] comp@[i]),
        forall|i: int| 0 <= i < comp@.len() ==> !done.contains(#[trigger] comp@[i]),
        forall|i: int|
            0 < i < comp@.len() ==> #[trigger] linked_to_earlier(comp@, i, r, diag),
        forall|i: int, q: (u32, u32)|
            0 <= i < comp@.len() && pixels@.contains(q) && #[trigger] near(comp@[i], q, r, diag)
                ==> comp@.contains(q),
        visited_match(keys@, final(visited)@, done + comp@.to_set()),
{
    let ghost pix = pixels@;
    let mut comp: Vec<(u32, u32)> = Vec::new();
    proof {
        let v0 = visited@;
        lemma_count_true_raise(v0, start_k as int);
    }
    visited.set(start_k, true);
    comp.push(start);
    proof {
        assert forall|k: int, q: (u32, u32)|
            0 <= k < keys@.len() && #[trigger] keys@[k] == #[trigger] pack_spec(q.0, q.1) implies (
            visited@[k] <==> (done + comp@.to_set()).contains(q)) by {
            if k == start_k {
                lemma_pack_order(q.0, q.1, start.0, start.1);
                assert(comp@[0] == start);
            } else {
                if q == start {
                    lemma_strict_index_unique(keys@, k, start_k as int);
                }
            }
        }
    }
    let mut head: usize = 0;
    proof {
        lemma_count_true_bound(visited@);
    }
    while head < comp.len()
        invariant
            strictly_sorted(keys@),
            keys_match(keys@, pix),
            pix == pixels@,
            reach_ok(pix, r),
            forall|q: (u32, u32)| done.contains(q) ==> pix.contains(q),
            forall|p: (u32, u32), q: (u32, u32)|
                done.contains(p) && pix.contains(q) && #[trigger] near(p, q, r, diag) ==> done.contains(q),
            comp@.len() > 0,
            comp@[0] == start,
            head <= comp@.len(),
            forall|i: int, j: int| 0 <= i < j < comp@.len() ==> comp@[i] != comp@[j],
            forall|i: int| 0 <= i < comp@.len() ==> pix.contains(#[trigger] comp@[i]),
            forall|i: int| 0 <= i < comp@.len() ==> !done.contains(#[trigger] comp@[i]),
            forall|i: int|
                0 < i < comp@.len() ==> #[trigger] linked_to_earlier(comp@, i, r, diag),
            forall|i: int, q: (u32, u32)|
                0 <= i < head && pix.contains(q) && #[trigger] near(comp@[i], q, r, diag) ==> (
                done.contains(q) || comp@.contains(q)),
            visited_match(keys@, visited@, done + comp@.to_set()),
            count_true(visited@) <= keys@.len(),
        decreases 2 * (keys@.len() - count_true(visited@)) + (comp@.len() - head),
    {
        let p = comp[head];
        assert(pix.contains(p));
        assert(p.0 + r <= u32::MAX && p.1 + r <= u32::MAX) by {
            let pi = choose|pi: int| 0 <= pi < pix.len() && pix[pi] == p;
            assert(pix[pi] == p);
        }
        let ri: i64 = r as i64;
        let mut dy: i64 = -ri;
        let ghost c0 = count_true(visited@);
        let ghost l0 = comp@.len();
        while dy <= ri
            invariant
                strictly_sorted(keys@),
                keys_match(keys@, pix),
                pix == pixels@,
                forall|q: (u32, u32)| done.contains(q) ==> pix.contains(q),
                forall|p2: (u32, u32), q: (u32, u32)|
                    done.contains(p2) && pix.contains(q) && #[trigger] near(p2, q, r, diag) ==> done.contains(q),
                ri == r,
                -ri <= dy <= ri + 1,
                p.0 + r <= u32::MAX,
                p.1 + r <= u32::MAX,
                head < comp@.len(),
                comp@[head as int] == p,
                comp@.len() >= l0,
                comp@[0] == start,
                forall|i: int, j: int| 0 <= i < j < comp@.len() ==> comp@[i] != comp@[j],
                forall|i: int| 0 <= i < comp@.len() ==> pix.contains(#[trigger] comp@[i]),
                forall|i: int| 0 <= i < comp@.len() ==> !done.contains(#[trigger] comp@[i]),
                forall|i: int|
                    0 < i < comp@.len() ==> #[trigger] linked_to_earlier(comp@, i, r, diag),
                forall|i: int, q: (u32, u32)|
                    0 <= i < head && pix.contains(q) && #[trigger] near(comp@[i], q, r, diag) ==> (
                    done.contains(q) || comp@.contains(q)),
                forall|q: (u32, u32)|
                    pix.contains(q) && #[trigger] near(p, q, r, diag) && q.1 - p.1 < dy ==> (done.contains(q)
                        || comp@.contains(q)),
                visited_match(keys@, visited@, done + comp@.to_set()),
                count_true(visited@) == c0 + (comp@.len() - l0),
                count_true(visited@) <= keys@.len(),
            decreases ri + 1 - dy,
        {
            let mut dx: i64 = -ri;
            while dx <= ri
                invariant
                    strictly_sorted(keys@),
                    keys_match(keys@, pix),
                    pix == pixels@,
                    forall|q: (u32, u32)| done.contains(q) ==> pix.contains(q),
                    ri == r,
                    -ri <= dy <= ri,
                    -ri <= dx <= ri + 1,
                    p.0 + r <= u32::MAX,
                    p.1 + r <= u32::MAX,
                    head < comp@.len(),
                    comp@[head as int] == p,
                    comp@.len() >= l0,
                    comp@[0] == start,
                    forall|i: int, j: int| 0 <= i < j < comp@.len() ==> comp@[i] != comp@[j],
                    forall|i: int| 0 <= i < comp@.len() ==> pix.contains(#[trigger] comp@[i]),
                    forall|i: int| 0 <= i < comp@.len() ==> !done.contains(#[trigger] comp@[i]),
                    forall|i: int|
                        0 < i < comp@.len() ==> #[trigger] linked_to_earlier(comp@, i, r, diag),
                    forall|i: int, q: (u32, u32)|
                        0 <= i < head && pix.contains(q) && #[trigger] near(comp@[i], q, r, diag) ==> (
                        done.contains(q) || comp@.contains(q)),
                    forall|q: (u32, u32)|
                        pix.contains(q) && #[trigger] near(p, q, r, diag) && (q.1 - p.1 < dy || (q.1 - p.1
                            == dy && q.0 - p.0 < dx)) ==> (done.contains(q) || comp@.contains(q)),
                    visited_match(keys@, visited@, done + comp@.to_set()),
                    count_true(visited@) == c0 + (comp@.len() - l0),
                    count_true(visited@) <= keys@.len(),
                decreases ri + 1 - dx,
            {
                let nx: i64 = p.0 as i64 + dx;
                let ny: i64 = p.1 as i64 + dy;
                if (dx != 0 || dy != 0) && (diag || dx == 0 || dy == 0) && nx >= 0 && ny >= 0 {
                    let ghost q = (nx as u32, ny as u32);
                    match lookup(keys, nx, ny) {
                        Some(k) => {
                            assert(keys@[k as int] == pack_spec(q.0, q.1));
                            if !visited[k] {
                                let ghost old_comp = comp@;
                                let ghost old_vis = visited@;
                                assert(keys@.contains(pack_spec(q.0, q.1)));
                                assert(pix.contains(q));
                                proof {
                                    assert(!(done + old_comp.to_set()).contains(q));
                                    lemma_count_true_raise(old_vis, k as int);
                                    lemma_count_true_bound(old_vis.update(k as int, true));
                                }
                                visited.set(k, true);
                                comp.push((nx as u32, ny as u32));
                                proof {
                                    assert(comp@ =~= old_comp.push(q));
                                    assert(near(p, q, r, diag));
                                    assert forall|i: int, j: int| 0 <= i < j < comp@.len() implies comp@[i]
                                        != comp@[j] by {
                                        if j == comp@.len() - 1 {
                                            assert(old_comp.to_set().contains(old_comp[i]));
                                        }
                                    }
                                    assert forall|i: int|
                                        0 < i < comp@.len() implies #[trigger] linked_to_earlier(comp@, i, r, diag) by {
                                        if i == comp@.len() - 1 {
                                            assert(comp@[head as int] == p);
                                            assert(near(q, p, r, diag));
                                        } else {
                                            assert(linked_to_earlier(old_comp, i, r, diag));
                                            let j = choose|j: int| 0 <= j < i && near(old_comp[j], old_comp[i], r, diag);
                                            assert(comp@[j] == old_comp[j]);
                                        }
                                    }
                                    assert forall|k2: int, q2: (u32, u32)|
                                        0 <= k2 < keys@.len() && #[trigger] keys@[k2]
                                            == #[trigger] pack_spec(q2.0, q2.1) implies (visited@[k2] <==> (
                                        done + comp@.to_set()).contains(q2)) by {
                                        if k2 == k {
                                            lemma_pack_order(q2.0, q2.1, q.0, q.1);
                                            assert(comp@[comp@.len() - 1] == q);
                                        } else {
                                            if q2 == q {
                                                lemma_strict_index_unique(keys@, k2, k as int);
                                            }
                                            assert(old_vis[k2] <==> (done + old_comp.to_set()).contains(q2));
                                            if comp@.to_set().contains(q2) && !old_comp.to_set().contains(q2) {
                                                let t = choose|t: int| 0 <= t < comp@.len() && comp@[t] == q2;
                                                if t < old_comp.len() {
                                                    assert(old_comp[t] == q2);
                                                }
                                            }
                                            if old_comp.to_set().contains(q2) {
                                                let t = choose|t: int| 0 <= t < old_comp.len() && old_comp[t] == q2;
                                                assert(comp@[t] == q2);
                                            }
                                        }
                                    }
                                    assert forall|i: int, q2: (u32, u32)|
                                        0 <= i < head && pix.contains(q2) && #[trigger] near(comp@[i], q2, r, diag)
                                            implies (done.contains(q2) || comp@.contains(q2)) by {
                                        assert(comp@[i] == old_comp[i]);
                                        if old_comp.contains(q2) {
                                            let t = choose|t: int| 0 <= t < old_comp.len() && old_comp[t] == q2;
                                            assert(comp@[t] == q2);
                                        }
                                    }
                                    assert forall|q2: (u32, u32)|
                                        pix.contains(q2) && #[trigger] near(p, q2, r, diag) && (q2.1 - p.1 < dy || (
                                            q2.1 - p.1 == dy && q2.0 - p.0 < dx + 1)) implies (done.contains(q2)
                                        || comp@.contains(q2)) by {
                                        if q2 == q {
                                            assert(comp@[comp@.len() - 1] == q);
                                        } else {
                                            assert(q2.1 - p.1 < dy || (q2.1 - p.1 == dy && q2.0 - p.0 < dx));
                                            if old_comp.contains(q2) {
                                                let t = choose|t: int| 0 <= t < old_comp.len() && old_comp[t] == q2;
                                                assert(comp@[t] == q2);
                                            }
                                        }
                                    }
                                }
                            } else {
                                proof {
                                    assert((done + comp@.to_set()).contains(q));
                                    if comp@.to_set().contains(q) {
                                        let t = choose|t: int| 0 <= t < comp@.len() && comp@[t] == q;
                                        assert(comp@.contains(q));
                                    }
                                }
                            }
                        },
                        None => {
                            proof {
                                assert(!keys@.contains(pack_spec(q.0, q.1)));
                                assert(!pix.contains(q));
                            }
                        },
                    }
                }
                dx = dx + 1;
            }
            dy = dy + 1;
        }
        proof {
            assert forall|i: int, q: (u32, u32)|
                0 <= i < head + 1 && pix.contains(q) && #[trigger] near(comp@[i], q, r, diag) implies (
                done.contains(q) || comp@.contains(q)) by {
                if i == head {
                    assert(near(p, q, r, diag));
                }
            }
        }
        head = head + 1;
    }
    proof {
        assert forall|i: int, q: (u32, u32)|
            0 <= i < comp@.len() && pix.contains(q) && #[trigger] near(comp@[i], q, r, diag) implies comp@.contains(
            q) by {
            if done.contains(q) {
                let p = comp@[i];
                assert(near(q, p, r, diag));
                assert(done.contains(p));
                assert(false);
            }
        }
    }
    comp
}


/// Position `j` is the image of some position under `perm`.
spec fn hits(perm: Seq<int>, j: int) -> bool {
    exists|c: int| 0 <= c < perm.len() && perm[c] == j
}

/// Orders components from largest to smallest, keeping the relative order of
/// equally sized ones; `perm` maps each output position to its input position.
fn sort_components_by_size(input: Vec<Vec<(u32, u32)>>) -> (res: (Vec<Vec<(u32, u32)>>, Ghost<Seq<int>>))
    ensures
        res.0@.len() == input@.len(),
        res.1@.len() == input@.len(),
        comps_by_size(res.0@),
        forall|c: int| 0 <= c < res.0@.len() ==> 0 <= #[trigger] res.1@[c] < input@.len() && res.0@[c]
            == input@[res.1@[c]],
        forall|c1: int, c2: int|
            0 <= c1 < res.0@.len() && 0 <= c2 < res.0@.len() && c1 != c2 ==> #[trigger] res.1@[c1]
                != #[trigger] res.1@[c2],
        forall|j: int| 0 <= j < input@.len() ==> #[trigger] hits(res.1@, j),
        forall|c1: int, c2: int|
            0 <= c1 < c2 < res.0@.len() && (res.0@[c1]@).len() == (res.0@[c2]@).len() ==> #[trigger] res.1@[c1]
                < #[trigger] res.1@[c2],
{
    let ghost orig = input@;
    let n = input.len();
    let mut comps = input;
    let mut rev: Vec<Vec<(u32, u32)>> = Vec::new();
    while comps.len() > 0
        invariant
            comps@.len() + rev@.len() == n,
            n == orig.len(),
            forall|k: int| 0 <= k < comps@.len() ==> comps@[k] == orig[k],
            forall|k: int| 0 <= k < rev@.len() ==> rev@[k] == orig[n - 1 - k],
        decreases comps@.len(),
    {
        let item = comps.pop().unwrap();
        rev.push(item);
    }
    let mut out: Vec<Vec<(u32, u32)>> = Vec::new();
    let ghost mut perm: Seq<int> = Seq::empty();
    let mut t: usize = 0;
    while t < n
        invariant
            n == orig.len(),
            t <= n,
            rev@.len() == n - t,
            forall|k: int| 0 <= k < rev@.len() ==> rev@[k] == orig[n - 1 - k],
            out@.len() == t,
            perm.len() == t,
            comps_by_size(out@),
            forall|c: int| 0 <= c < out@.len() ==> 0 <= #[trigger] perm[c] < t && out@[c] == orig[perm[c]],
            forall|c1: int, c2: int|
                0 <= c1 < out@.len() && 0 <= c2 < out@.len() && c1 != c2 ==> #[trigger] perm[c1]
                    != #[trigger] perm[c2],
            forall|j: int| 0 <= j < t ==> #[trigger] hits(perm, j),
            forall|c1: int, c2: int|
                0 <= c1 < c2 < out@.len() && (out@[c1]@).len() == (out@[c2]@).len() ==> #[trigger] perm[c1]
                    < #[trigger] perm[c2],
        decreases n - t,
    {
        let item = rev.pop().unwrap();
        assert(item == orig[t as int]);
        let len_t = item.len();
        let mut pos: usize = 0;
        while pos < out.len() && out[pos].len() >= len_t
            invariant
                pos <= out@.len(),
                forall|c: int| 0 <= c < pos ==> (#[trigger] out@[c]@).len() >= len_t,
            decreases out@.len() - pos,
        {
            pos = pos + 1;
        }
        let ghost old_out = out@;
        let ghost old_perm = perm;
        out.insert(pos, item);
        proof {
            perm = old_perm.insert(pos as int, t as int);
            assert(out@ =~= old_out.insert(pos as int, orig[t as int]));
            assert forall|c1: int, c2: int| 0 <= c1 < c2 < out@.len() implies (#[trigger] out@[c1]@).len()
                >= (#[trigger] out@[c2]@).len() by {
                if c1 < pos && c2 == pos {
                } else if c1 == pos && c2 > pos {
                    assert(out@[c2] == old_out[c2 - 1]);
                    if pos < old_out.len() {
                        assert(old_out[pos as int]@.len() < len_t);
                        if c2 - 1 > pos {
                            assert((old_out[pos as int]@).len() >= (old_out[c2 - 1]@).len());
                        }
                    }
                } else if c1 < pos && c2 > pos {
                    assert(out@[c2] == old_out[c2 - 1]);
                    assert((old_out[c1]@).len() >= (old_out[c2 - 1]@).len());
                } else if c1 > pos {
                    assert(out@[c1] == old_out[c1 - 1]);
                    assert(out@[c2] == old_out[c2 - 1]);
                    assert((old_out[c1 - 1]@).len() >= (old_out[c2 - 1]@).len());
                } else {
                    assert((old_out[c1]@).len() >= (old_out[c2]@).len());
                }
            }
            assert forall|c1: int, c2: int|
                0 <= c1 < c2 < out@.len() && (out@[c1]@).len() == (out@[c2]@).len() implies #[trigger] perm[c1]
                    < #[trigger] perm[c2] by {
                if c2 < pos {
                    assert(perm[c1] == old_perm[c1]);
                    assert(perm[c2] == old_perm[c2]);
                } else if c2 == pos {
                    assert(perm[c1] == old_perm[c1]);
                    assert(old_perm[c1] < t);
                } else if c1 == pos {
                    assert(out@[c2] == old_out[c2 - 1]);
                    assert(old_out[pos as int]@.len() < len_t);
                    if c2 - 1 > pos {
                        assert((old_out[pos as int]@).len() >= (old_out[c2 - 1]@).len());
                    }
                } else if c1 < pos {
                    assert(out@[c2] == old_out[c2 - 1]);
                    assert(perm[c1] == old_perm[c1]);
                    assert(perm[c2] == old_perm[c2 - 1]);
                } else {
                    assert(out@[c1] == old_out[c1 - 1]);
                    assert(out@[c2] == old_out[c2 - 1]);
                    assert(perm[c1] == old_perm[c1 - 1]);
                    assert(perm[c2] == old_perm[c2 - 1]);
                }
            }
            assert forall|j: int| 0 <= j < t + 1 implies #[trigger] hits(perm, j) by {
                if j == t {
                    assert(perm[pos as int] == t);
                    assert(hits(perm, j));
                } else {
                    assert(hits(old_perm, j));
                    let c = choose|c: int| 0 <= c < old_perm.len() && #[trigger] old_perm[c] == j;
                    if c < pos {
                        assert(perm[c] == j);
                    } else {
                        assert(perm[c + 1] == j);
                    }
                    assert(hits(perm, j));
                }
            }
        }
        t = t + 1;
    }
    (out, Ghost(perm))
}

/// Connected components under the square neighbourhood of radius `r`
/// (horizontal and vertical neighbours only unless `diag`), largest first,
/// equal sizes in order of their first pixel in the input.
fn connected_components(pixels: &[(u32, u32)], neighbor_radius: u32, diag: bool) -> (comps: Vec<
    Vec<(u32, u32)>,
>)
    requires
        reach_ok(pixels@, neighbor_radius),
    ensures
        is_neighbour_split(pixels@, neighbor_radius, diag, comps@),
        comps_by_size(comps@),
        ordered_by_first_pixel(pixels@, comps@),
{
    let r = neighbor_radius;
    let ghost pix = pixels@;
    let mut pk: Vec<u64> = Vec::new();
    let mut i: usize = 0;
    while i < pixels.len()
        invariant
            pix == pixels@,
            i <= pix.len(),
            pk@.len() == i,
            forall|j: int| 0 <= j < i ==> pk@[j] == pack_spec(#[trigger] pix[j].0, pix[j].1),
        decreases pix.len() - i,
    {
        let (x, y) = pixels[i];
        pk.push(pack(x, y));
        i = i + 1;
    }
    let sorted_keys = sort_keys(&pk);
    let keys = dedup_sorted(&sorted_keys);
    proof {
        assert forall|q: (u32, u32)| #[trigger] keys@.contains(pack_spec(q.0, q.1)) <==> pix.contains(q) by {
            let kq = pack_spec(q.0, q.1);
            assert(keys@.contains(kq) <==> sorted_keys@.contains(kq));
            assert(sorted_keys@.contains(kq) <==> sorted_keys@.to_multiset().count(kq) > 0);
            assert(pk@.contains(kq) <==> pk@.to_multiset().count(kq) > 0);
            if pix.contains(q) {
                let j = choose|j: int| 0 <= j < pix.len() && pix[j] == q;
                assert(pk@[j] == kq);
            }
            if pk@.contains(kq) {
                let j = choose|j: int| 0 <= j < pk@.len() && pk@[j] == kq;
                assert(pk@[j] == pack_spec(pix[j].0, pix[j].1));
                lemma_pack_order(pix[j].0, pix[j].1, q.0, q.1);
                assert(pix[j] == q);
            }
        }
    }
    let mut visited: Vec<bool> = Vec::new();
    let mut k: usize = 0;
    while k < keys.len()
        invariant
            k <= keys@.len(),
            visited@.len() == k,
            forall|j: int| 0 <= j < k ==> !visited@[j],
        decreases keys@.len() - k,
    {
        visited.push(false);
        k = k + 1;
    }
    let ghost mut done: Set<(u32, u32)> = Set::empty();
    let ghost mut firsts: Seq<int> = Seq::empty();
    let mut comps: Vec<Vec<(u32, u32)>> = Vec::new();
    let mut s: usize = 0;
    while s < pixels.len()
        invariant
            firsts.len() == comps@.len(),
            forall|c: int| 0 <= c < comps@.len() ==> starts_at_first(pix, #[trigger] comps@[c]@, firsts[c]),
            forall|c1: int, c2: int| 0 <= c1 < c2 < firsts.len() ==> #[trigger] firsts[c1] < #[trigger] firsts[c2],
            forall|c: int| 0 <= c < firsts.len() ==> #[trigger] firsts[c] < s,
            pix == pixels@,
            s <= pix.len(),
            strictly_sorted(keys@),
            keys_match(keys@, pix),
            reach_ok(pix, r),
            visited_match(keys@, visited@, done),
            forall|q: (u32, u32)| done.contains(q) ==> pix.contains(q),
            forall|p: (u32, u32), q: (u32, u32)|
                done.contains(p) && pix.contains(q) && #[trigger] near(p, q, r, diag) ==> done.contains(q),
            forall|q: (u32, u32)| in_comps(comps@, q) <==> done.contains(q),
            forall|c: int| 0 <= c < comps@.len() ==> (#[trigger] comps@[c]@).len() > 0,
            comps_distinct(comps@),
            comps_chained(comps@, r, diag),
            comps_closed(comps@, pix, r, diag),
            forall|j: int| 0 <= j < s ==> done.contains(#[trigger] pix[j]),
        decreases pix.len() - s,
    {
        let start = pixels[s];
        assert(pix[s as int] == start);
        assert(pix.contains(start));
        assert(keys@.contains(pack_spec(start.0, start.1)));
        match find_key(&keys, pack(start.0, start.1)) {
            Some(ks) => {
                if !visited[ks] {
                    assert(!done.contains(start));
                    let comp = grow_component(pixels, &keys, &mut visited, start, ks, r, diag, Ghost(done));
                    let ghost old_comps = comps@;
                    let ghost old_done = done;
                    comps.push(comp);
                    proof {
                        let ghost old_firsts = firsts;
                        firsts = old_firsts.push(s as int);
                        assert(starts_at_first(pix, comp@, s as int)) by {
                            assert forall|k: int| 0 <= k < s implies !comp@.contains(#[trigger] pix[k]) by {
                                assert(old_done.contains(pix[k]));
                                if comp@.contains(pix[k]) {
                                    let i = choose|i: int| 0 <= i < comp@.len() && comp@[i] == pix[k];
                                    assert(!old_done.contains(comp@[i]));
                                }
                            }
                        }
                        assert forall|c: int| 0 <= c < comps@.len() implies starts_at_first(pix, #[trigger] comps@[c]@, firsts[c]) by {
                            if c < old_comps.len() {
                                assert(comps@[c] == old_comps[c]);
                                assert(firsts[c] == old_firsts[c]);
                            }
                        }
                    }
                    proof {
                        done = old_done + comp@.to_set();
                        let n = old_comps.len() as int;
                        assert(comps@[n] == comp);
                        assert forall|q: (u32, u32)| in_comps(comps@, q) <==> done.contains(q) by {
                            if in_comps(comps@, q) {
                                let (c, i) = choose|c: int, i: int|
                                    0 <= c < comps@.len() && 0 <= i < comps@[c]@.len() && #[trigger] comps@[c]@[i] == q;
                                if c < n {
                                    assert(old_comps[c]@[i] == q);
                                    assert(in_comps(old_comps, q));
                                } else {
                                    assert(comp@.contains(q));
                                }
                            }
                            if done.contains(q) {
                                if old_done.contains(q) {
                                    assert(in_comps(old_comps, q));
                                    let (c, i) = choose|c: int, i: int|
                                        0 <= c < old_comps.len() && 0 <= i < old_comps[c]@.len() && #[trigger] old_comps[c]@[i] == q;
                                    assert(comps@[c] == old_comps[c]);
                                    assert(comps@[c]@[i] == q);
                                } else {
                                    assert(comp@.to_set().contains(q));
                                    let i = choose|i: int| 0 <= i < comp@.len() && comp@[i] == q;
                                    assert(comps@[n]@[i] == q);
                                }
                            }
                        }
                        assert forall|c1: int, i1: int, c2: int, i2: int|
                            0 <= c1 < comps@.len() && 0 <= c2 < comps@.len() && 0 <= i1 < comps@[c1]@.len()
                                && 0 <= i2 < comps@[c2]@.len() && (c1 != c2 || i1 != i2) implies #[trigger] comps@[c1]@[i1]
                            != #[trigger] comps@[c2]@[i2] by {
                            if c1 < n && c2 < n {
                                assert(comps@[c1] == old_comps[c1]);
                                assert(comps@[c2] == old_comps[c2]);
                                assert(old_comps[c1]@[i1] != old_comps[c2]@[i2]);
                            } else if c1 == n && c2 == n {
                                if i1 < i2 {
                                    assert(comp@[i1] != comp@[i2]);
                                } else {
                                    assert(comp@[i2] != comp@[i1]);
                                }
                            } else if c1 == n {
                                assert(comps@[c2] == old_comps[c2]);
                                assert(in_comps(old_comps, old_comps[c2]@[i2]));
                                assert(old_done.contains(old_comps[c2]@[i2]));
                                assert(!old_done.contains(comp@[i1]));
                            } else {
                                assert(comps@[c1] == old_comps[c1]);
                                assert(in_comps(old_comps, old_comps[c1]@[i1]));
                                assert(old_done.contains(old_comps[c1]@[i1]));
                                assert(!old_done.contains(comp@[i2]));
                            }
                        }
                        assert forall|c: int, i: int|
                            0 <= c < comps@.len() && 0 < i < comps@[c]@.len() implies #[trigger] linked_to_earlier(comps@[c]@, i, r, diag) by {
                            if c < n {
                                assert(comps@[c] == old_comps[c]);
                                assert(comps@[c]@[i] == old_comps[c]@[i]);
                                assert(linked_to_earlier(old_comps[c]@, i, r, diag));
                                let j = choose|j: int|
                                    0 <= j < i && near(old_comps[c]@[j], old_comps[c]@[i], r, diag);
                                assert(comps@[c]@[j] == old_comps[c]@[j]);
                            } else {
                                assert(comps@[c]@[i] == comp@[i]);
                                assert(linked_to_earlier(comp@, i, r, diag));
                                let j = choose|j: int| 0 <= j < i && near(comp@[j], comp@[i], r, diag);
                                assert(comps@[c]@[j] == comp@[j]);
                            }
                        }
                        assert forall|c: int, i: int, q: (u32, u32)|
                            0 <= c < comps@.len() && 0 <= i < comps@[c]@.len() && pix.contains(q)
                                && #[trigger] near(comps@[c]@[i], q, r, diag) implies comps@[c]@.contains(q) by {
                            if c < n {
                                assert(comps@[c] == old_comps[c]);
                            } else {
                                assert(comps@[c]@[i] == comp@[i]);
                            }
                        }
                        assert forall|c: int| 0 <= c < comps@.len() implies (#[trigger] comps@[c]@).len() > 0 by {
                            if c < n {
                                assert(comps@[c] == old_comps[c]);
                            }
                        }
                        assert(comp@[0] == start);
                        assert(comp@.to_set().contains(start));
                        assert forall|p: (u32, u32), q: (u32, u32)|
                            done.contains(p) && pix.contains(q) && #[trigger] near(p, q, r, diag) implies done.contains(q) by {
                            if !old_done.contains(p) {
                                assert(comp@.to_set().contains(p));
                                let i = choose|i: int| 0 <= i < comp@.len() && comp@[i] == p;
                                assert(comp@.contains(q));
                            }
                        }
                    }
                }
            },
            None => {
                assert(false);
            },
        }
        s = s + 1;
    }
    proof {
        assert forall|p: (u32, u32)| pix.contains(p) <==> in_comps(comps@, p) by {
            if pix.contains(p) {
                let j = choose|j: int| 0 <= j < pix.len() && pix[j] == p;
                assert(done.contains(pix[j]));
            }
        }
        lemma_separated_from_closed(comps@, pix, r, diag);
    }
    let (sorted_comps, Ghost(perm)) = sort_components_by_size(comps);
    proof {
        lemma_split_permuted(pix, r, diag, comps@, sorted_comps@, perm);
        let sf = Seq::new(sorted_comps@.len(), |c: int| firsts[perm[c]]);
        assert forall|c: int| 0 <= c < sorted_comps@.len() implies starts_at_first(pix, #[trigger] sorted_comps@[c]@, sf[c]) by {
            assert(sorted_comps@[c] == comps@[perm[c]]);
        }
        assert forall|c1: int, c2: int|
            0 <= c1 < c2 < sorted_comps@.len() && (sorted_comps@[c1]@).len() == (sorted_comps@[c2]@).len() implies #[trigger] sf[c1]
                < #[trigger] sf[c2] by {
            assert(perm[c1] < perm[c2]);
        }
        assert(sf.len() == sorted_comps@.len());
        assert(ordered_by_first_pixel(pix, sorted_comps@));
    }
    sorted_comps
}

proof fn lemma_separated_from_closed(comps: Seq<Vec<(u32, u32)>>, pix: Seq<(u32, u32)>, r: u32, diag: bool)
    requires
        comps_distinct(comps),
        comps_closed(comps, pix, r, diag),
        forall|p: (u32, u32)| pix.contains(p) <==> in_comps(comps, p),
    ensures
        comps_separated(comps, r, diag),
{
    assert forall|c1: int, i1: int, c2: int, i2: int|
        0 <= c1 < comps.len() && 0 <= c2 < comps.len() && c1 != c2 && 0 <= i1 < comps[c1]@.len() && 0
            <= i2 < comps[c2]@.len() implies !near(#[trigger] comps[c1]@[i1], #[trigger] comps[c2]@[i2], r, diag) by {
        let q = comps[c2]@[i2];
        if near(comps[c1]@[i1], q, r, diag) {
            assert(in_comps(comps, q));
            assert(pix.contains(q));
            assert(comps[c1]@.contains(q));
            let t = choose|t: int| 0 <= t < comps[c1]@.len() && comps[c1]@[t] == q;
            assert(comps[c1]@[t] != comps[c2]@[i2]);
        }
    }
}

proof fn lemma_split_permuted(
    pix: Seq<(u32, u32)>,
    r: u32,
    diag: bool,
    comps: Seq<Vec<(u32, u32)>>,
    out: Seq<Vec<(u32, u32)>>,
    perm: Seq<int>,
)
    requires
        is_neighbour_split(pix, r, diag, comps),
        out.len() == comps.len(),
        perm.len() == comps.len(),
        forall|c: int| 0 <= c < out.len() ==> 0 <= #[trigger] perm[c] < comps.len() && out[c] == comps[perm[c]],
        forall|c1: int, c2: int|
            0 <= c1 < out.len() && 0 <= c2 < out.len() && c1 != c2 ==> #[trigger] perm[c1] != #[trigger] perm[c2],
        forall|j: int| 0 <= j < comps.len() ==> #[trigger] hits(perm, j),
    ensures
        is_neighbour_split(pix, r, diag, out),
{
    assert forall|c: int| 0 <= c < out.len() implies (#[trigger] out[c]@).len() > 0 by {
        assert(out[c] == comps[perm[c]]);
        assert((comps[perm[c]]@).len() > 0);
    }
    assert forall|p: (u32, u32)| pix.contains(p) <==> in_comps(out, p) by {
        if in_comps(out, p) {
            let (c, i) = choose|c: int, i: int| 0 <= c < out.len() && 0 <= i < out[c]@.len() && #[trigger] out[c]@[i] == p;
            assert(out[c] == comps[perm[c]]);
            assert(comps[perm[c]]@[i] == p);
        }
        if pix.contains(p) {
            assert(in_comps(comps, p));
            let (j, i) = choose|j: int, i: int| 0 <= j < comps.len() && 0 <= i < comps[j]@.len() && #[trigger] comps[j]@[i] == p;
            assert(hits(perm, j));
            let c = choose|c: int| 0 <= c < perm.len() && #[trigger] perm[c] == j;
            assert(out[c] == comps[j]);
            assert(out[c]@[i] == p);
        }
    }
    assert forall|c1: int, i1: int, c2: int, i2: int|
        0 <= c1 < out.len() && 0 <= c2 < out.len() && 0 <= i1 < out[c1]@.len() && 0 <= i2 < out[c2]@.len()
            && (c1 != c2 || i1 != i2) implies #[trigger] out[c1]@[i1] != #[trigger] out[c2]@[i2] by {
        assert(out[c1] == comps[perm[c1]]);
        assert(out[c2] == comps[perm[c2]]);
        assert(comps[perm[c1]]@[i1] != comps[perm[c2]]@[i2]);
    }
    assert forall|c: int, i: int| 0 <= c < out.len() && 0 < i < out[c]@.len() implies #[trigger] linked_to_earlier(out[c]@, i, r, diag) by {
        let pc = perm[c];
        assert(out[c] == comps[pc]);
        assert(comps[pc]@[i] == out[c]@[i]);
        assert(0 < i < comps[pc]@.len());
        assert(linked_to_earlier(comps[pc]@, i, r, diag));
        let j = choose|j: int| 0 <= j < i && near(comps[pc]@[j], comps[pc]@[i], r, diag);
        assert(out[c]@[j] == comps[pc]@[j]);
    }
    assert forall|c1: int, i1: int, c2: int, i2: int|
        0 <= c1 < out.len() && 0 <= c2 < out.len() && c1 != c2 && 0 <= i1 < out[c1]@.len() && 0 <= i2
            < out[c2]@.len() implies !near(#[trigger] out[c1]@[i1], #[trigger] out[c2]@[i2], r, diag) by {
        assert(out[c1] == comps[perm[c1]]);
        assert(out[c2] == comps[perm[c2]]);
        assert(!near(comps[perm[c1]]@[i1], comps[perm[c2]]@[i2], r, diag));
    }
}

/// Splits a pixel list into connected components: two pixels are neighbours
/// when both coordinates differ by at most `neighbor_radius`.  Components
/// are listed from largest to smallest (equal sizes in order of their first
/// pixel in the input); each lists its pixels in breadth-first discovery
/// order starting from that first pixel, and repeated input pixels appear once.
pub fn split_into_connected_components(pixels: &[(u32, u32)], neighbor_radius: u32) -> (comps: Vec<
    Vec<(u32, u32)>,
>)
    requires
        radius_ok(pixels@, neighbor_radius),
    ensures
        is_component_split(pixels@, neighbor_radius, comps@),
        comps_by_size(comps@),
        ordered_by_first_pixel(pixels@, comps@),
{
    proof {
        assert forall|i: int| 0 <= i < pixels@.len() implies (#[trigger] pixels@[i]).0 + neighbor_radius
            <= u32::MAX && pixels@[i].1 + neighbor_radius <= u32::MAX by {
            assert(pixels@[i].0 + neighbor_radius <= 0x7FFF_FFFF);
        }
    }
    connected_components(pixels, neighbor_radius, true)
}

/// Splits a pixel list into its 4-connected components (pixels sharing an
/// edge), largest first, equal sizes in order of their first pixel in the
/// input; repeated input pixels appear once.
pub fn split_four_connected_components(pixels: &[(u32, u32)]) -> (comps: Vec<Vec<(u32, u32)>>)
    requires
        forall|i: int| 0 <= i < pixels@.len() ==> (#[trigger] pixels@[i]).0 < u32::MAX && pixels@[i].1 < u32::MAX,
    ensures
        is_four_split(pixels@, comps@),
        comps_by_size(comps@),
        ordered_by_first_pixel(pixels@, comps@),
{
    connected_components(pixels, 1, false)
}

/// The contents of an optional list.
pub open spec fn opt_view<T>(r: Option<Vec<T>>) -> Option<Seq<T>> {
    match r {
        Some(v) => Some(v@),
        None => None,
    }
}

/// The pixels of the components among the first `n` that hold three
/// pixels or more, component after component.
pub open spec fn large_fragments(comps: Seq<Vec<(u32, u32)>>, n: nat) -> Seq<(u32, u32)>
    decreases n,
{
    if n == 0 || n > comps.len() {
        Seq::empty()
    } else {
        let prev = large_fragments(comps, (n - 1) as nat);
        if comps[n - 1]@.len() >= 3 {
            prev + comps[n - 1]@
        } else {
            prev
        }
    }
}

/// `r` is what is kept of a colour cluster `pixels` split into `comps`: its
/// connected fragments of three pixels or more, when the cluster holds five
/// pixels or more and so do the kept fragments together; else nothing.
pub open spec fn cluster_kept(pixels: Seq<(u32, u32)>, comps: Seq<Vec<(u32, u32)>>, r: Option<Seq<(u32, u32)>>) -> bool {
    let kept = large_fragments(comps, comps.len());
    &&& is_component_split(pixels, 1, comps)
    &&& comps_by_size(comps)
    &&& ordered_by_first_pixel(pixels, comps)
    &&& r == (if kept.len() < 5 {
        None
    } else {
        Some(kept)
    })
}

/// Drops the small parts of a colour cluster: nothing is kept of a cluster
/// under five pixels; else its 8-connected fragments under three pixels are
/// dropped, and nothing is kept when fewer than five pixels remain.
pub fn keep_large_fragments(pixels: &[(u32, u32)]) -> (r: Option<Vec<(u32, u32)>>)
    requires
        pixels@.len() >= 5 ==> radius_ok(pixels@, 1),
    ensures
        pixels@.len() < 5 ==> r is None,
        pixels@.len() >= 5 ==> exists|comps: Seq<Vec<(u32, u32)>>|
            #[trigger] cluster_kept(pixels@, comps, opt_view(r)),
{
    if pixels.len() < 5 {
        return None;
    }
    let comps = split_into_connected_components(pixels, 1);
    let mut kept: Vec<(u32, u32)> = Vec::new();
    let mut c: usize = 0;
    while c < comps.len()
        invariant
            c <= comps@.len(),
            kept@ == large_fragments(comps@, c as nat),
        decreases comps@.len() - c,
    {
        if comps[c].len() >= 3 {
            let ghost before = kept@;
            let mut k: usize = 0;
            while k < comps[c].len()
                invariant
                    c < comps@.len(),
                    k <= comps@[c as int]@.len(),
                    kept@ == before + comps@[c as int]@.take(k as int),
                decreases comps@[c as int]@.len() - k,
            {
                kept.push(comps[c][k]);
                proof {
                    assert(kept@ =~= before + comps@[c as int]@.take(k + 1));
                }
                k = k + 1;
            }
            proof {
                assert(comps@[c as int]@.take(comps@[c as int]@.len() as int) =~= comps@[c as int]@);
            }
        }
        c = c + 1;
    }
    let r = if kept.len() < 5 {
        None
    } else {
        Some(kept)
    };
    proof {
        assert(cluster_kept(pixels@, comps@, opt_view(r)));
    }
    r
}

} // verus!
