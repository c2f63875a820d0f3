//! Turning clusters of curve pixels into ordered chains: centre-line
//! thinning, nearest-neighbour ordering and gap stitching.
use vstd::prelude::*;
#[allow(unused_imports)]
use crate::keys::{pack, pack_spec, sorted, sort_keys, key_hi, key_lo, sorted_perm};
#[allow(unused_imports)]
use crate::geometry::{DominantAxis, axis_key, coord_ok, dist_sq_spec, point_distance_sq, dominant_axis, dominant_axis_spec};
#[allow(unused_imports)]
use crate::spatial::{split_into_connected_components, radius_ok, is_component_split, in_comps, comps_by_size, ordered_by_first_pixel};

verus! {

broadcast use vstd::seq_lib::group_to_multiset_ensures;

// ----------------------------------------------------------------
//  Thinning along an axis
// ----------------------------------------------------------------

/// The keys of a point list along an axis.
pub open spec fn keys_along(points: Seq<(u32, u32)>, axis: DominantAxis) -> Seq<u64> {
    points.map_values(|p: (u32, u32)| axis_key(p, axis))
}

/// The point whose key along `axis` is `k`.
pub open spec fn from_axis_key(k: u64, axis: DominantAxis) -> (u32, u32) {
    match axis {
        DominantAxis::Horizontal => (key_hi(k) as u32, key_lo(k) as u32),
        DominantAxis::Vertical => (key_lo(k) as u32, key_hi(k) as u32),
    }
}

/// Index `i` of sorted keys `ks` starts a new line (column or row) along the axis.
pub open spec fn line_start(ks: Seq<u64>, i: int) -> bool {
    i == 0 || key_hi(ks[i]) != key_hi(ks[i - 1])
}

/// Largest gap between consecutive positions of one line that still joins
/// them into one stroke.
pub open spec fn stroke_gap() -> int {
    3
}

/// Index `i` of sorted keys `ks` starts a new stroke: a new line, or a gap
/// wider than `stroke_gap()` across the line.
pub open spec fn stroke_start(ks: Seq<u64>, i: int) -> bool {
    line_start(ks, i) || key_lo(ks[i]) - key_lo(ks[i - 1]) > stroke_gap()
}

/// The stroke starts among the first `n` indices, in increasing order.
pub open spec fn stroke_starts(ks: Seq<u64>, n: nat) -> Seq<int>
    decreases n,
{
    if n == 0 {
        Seq::empty()
    } else {
        let prev = stroke_starts(ks, (n - 1) as nat);
        if stroke_start(ks, n - 1) {
            prev.push(n - 1)
        } else {
            prev
        }
    }
}

/// The median index of the `j`-th stroke of `ks`.
pub open spec fn stroke_median(ks: Seq<u64>, j: int) -> int {
    let st = stroke_starts(ks, ks.len());
    let start = st[j];
    let end = if j + 1 < st.len() {
        st[j + 1]
    } else {
        ks.len() as int
    };
    start + (end - start) / 2
}

/// The centre line of a point set along an axis: for every line across the
/// axis, in increasing order, one point per stroke (a maximal run of
/// positions separated by gaps of at most `stroke_gap()`), namely the
/// stroke's median position.  `ks` are the sorted keys of the points.
pub open spec fn thinned(ks: Seq<u64>, axis: DominantAxis) -> Seq<(u32, u32)> {
    Seq::new(
        stroke_starts(ks, ks.len()).len(),
        |j: int| from_axis_key(ks[stroke_median(ks, j)], axis),
    )
}

proof fn lemma_stroke_starts_props(ks: Seq<u64>, n: nat)
    requires
        n <= ks.len(),
    ensures
        forall|j: int|
            0 <= j < stroke_starts(ks, n).len() ==> 0 <= #[trigger] stroke_starts(ks, n)[j] < n,
        forall|a: int, b: int|
            0 <= a < b < stroke_starts(ks, n).len() ==> stroke_starts(ks, n)[a] < stroke_starts(ks, n)[b],
        n > 0 ==> stroke_starts(ks, n).len() > 0 && stroke_starts(ks, n)[0] == 0,
        stroke_starts(ks, n).len() <= n,
    decreases n,
{
    if n > 0 {
        lemma_stroke_starts_props(ks, (n - 1) as nat);
        if n == 1 {
            assert(stroke_starts(ks, 0) =~= Seq::<int>::empty());
        }
    }
}

proof fn lemma_stroke_starts_prefix(ks: Seq<u64>, m: nat, n: nat)
    requires
        m <= n,
    ensures
        stroke_starts(ks, m).len() <= stroke_starts(ks, n).len(),
        forall|j: int| 0 <= j < stroke_starts(ks, m).len() ==> #[trigger] stroke_starts(ks, n)[j] == stroke_starts(ks, m)[j],
    decreases n,
{
    if n > m {
        lemma_stroke_starts_prefix(ks, m, (n - 1) as nat);
    }
}

/// Keys with equal first halves order by their second halves.
proof fn lemma_same_hi_lo_order(k1: u64, k2: u64)
    requires
        k1 <= k2,
        key_hi(k1) == key_hi(k2),
    ensures
        key_lo(k1) <= key_lo(k2),
{
    crate::keys::lemma_key_halves(k1);
    crate::keys::lemma_key_halves(k2);
}

/// Sorted keys of the points along `axis`.
fn sorted_axis_keys(points: &[(u32, u32)], axis: DominantAxis) -> (ks: Vec<u64>)
    ensures
        ks@ == sorted_perm(keys_along(points@, axis)),
        sorted(ks@),
        ks@.len() == points@.len(),
        ks@.to_multiset() == keys_along(points@, axis).to_multiset(),
{
    let mut raw: Vec<u64> = Vec::new();
    let mut i: usize = 0;
    while i < points.len()
        invariant
            i <= points@.len(),
            raw@ =~= keys_along(points@.take(i as int), axis),
        decreases points@.len() - i,
    {
        let (x, y) = points[i];
        let k = match axis {
            DominantAxis::Horizontal => pack(x, y),
            DominantAxis::Vertical => pack(y, x),
        };
        raw.push(k);
        proof {
            assert(points@.take(i as int + 1) =~= points@.take(i as int).push((x, y)));
        }
        i = i + 1;
    }
    proof {
        assert(points@.take(points@.len() as int) =~= points@);
    }
    let ks = sort_keys(&raw);
    proof {
        crate::keys::lemma_is_sorted_perm(raw@, ks@);
    }
    ks
}

/// A key of the sorted arrangement of a point list decodes to one of the points.
proof fn lemma_key_point(points: Seq<(u32, u32)>, axis: DominantAxis, ks: Seq<u64>, k: u64)
    requires
        ks.to_multiset() == keys_along(points, axis).to_multiset(),
        ks.contains(k),
    ensures
        points.contains(from_axis_key(k, axis)),
{
    assert(ks.to_multiset().count(k) > 0);
    assert(keys_along(points, axis).contains(k));
    let t = choose|t: int| 0 <= t < points.len() && keys_along(points, axis)[t] == k;
    lemma_from_axis_key_inj(points[t], axis);
    assert(points[t] == from_axis_key(k, axis));
}

/// The point with key `k` along `axis`.
fn decode_along(k: u64, axis: DominantAxis) -> (p: (u32, u32))
    ensures
        p == from_axis_key(k, axis),
{
    let (a, b) = crate::keys::unpack(k);
    proof {
        crate::keys::lemma_pack_halves(a, b);
    }
    match axis {
        DominantAxis::Horizontal => (a, b),
        DominantAxis::Vertical => (b, a),
    }
}

/// Thins points to their centre line along `axis`: positions are grouped by
/// their coordinate along the axis, the perpendicular coordinates of each
/// group are split into strokes (gaps of at most 3 join), and each stroke
/// contributes its median point.
#[verifier::rlimit(60)]
pub fn thin_along_axis(points: &[(u32, u32)], axis: DominantAxis) -> (r: Vec<(u32, u32)>)
    ensures
        r@ == thinned(sorted_perm(keys_along(points@, axis)), axis),
        forall|i: int| 0 <= i < r@.len() ==> points@.contains(#[trigger] r@[i]),
        points@.len() > 0 ==> r@.len() > 0,
{
    let ks = sorted_axis_keys(points, axis);
    let ghost kss = ks@;
    let n = ks.len();
    let mut out: Vec<(u32, u32)> = Vec::new();
    if n == 0 {
        proof {
            assert(out@ =~= thinned(kss, axis));
        }
        return out;
    }
    let mut cs: usize = 0;
    let mut i: usize = 1;
    proof {
        assert(stroke_starts(kss, 0) =~= Seq::<int>::empty());
        assert(stroke_starts(kss, 1) =~= seq![0int]);
    }
    while i < n
        invariant
            kss == ks@,
            n == kss.len(),
            sorted(kss),
            1 <= i <= n,
            stroke_starts(kss, i as nat).len() == out@.len() + 1,
            stroke_starts(kss, i as nat).last() == cs,
            cs < i,
            kss.to_multiset() == keys_along(points@, axis).to_multiset(),
            forall|j: int| 0 <= j < out@.len() ==> points@.contains(#[trigger] out@[j]),
            forall|j: int|
                0 <= j < out@.len() ==> #[trigger] out@[j] == from_axis_key(
                    kss[stroke_starts(kss, i as nat)[j] + (stroke_starts(kss, i as nat)[j + 1]
                        - stroke_starts(kss, i as nat)[j]) / 2],
                    axis,
                ),
        decreases n - i,
    {
        let hi_prev = ks[i - 1] / 0x1_0000_0000u64;
        let hi_cur = ks[i] / 0x1_0000_0000u64;
        let brk = if hi_prev != hi_cur {
            true
        } else {
            proof {
                lemma_same_hi_lo_order(kss[i - 1], kss[i as int]);
            }
            ks[i] % 0x1_0000_0000u64 - ks[i - 1] % 0x1_0000_0000u64 > 3
        };
        assert(brk == stroke_start(kss, i as int));
        proof {
            lemma_stroke_starts_props(kss, i as nat);
        }
        let ghost old_out = out@;
        if brk {
            let m = cs + (i - cs) / 2;
            let p = decode_along(ks[m], axis);
            proof {
                assert(kss.contains(kss[m as int]));
                lemma_key_point(points@, axis, kss, kss[m as int]);
            }
            out.push(p);
            cs = i;
        }
        proof {
            let st_old = stroke_starts(kss, i as nat);
            let st_new = stroke_starts(kss, (i + 1) as nat);
            assert forall|j: int| 0 <= j < out@.len() implies #[trigger] out@[j] == from_axis_key(
                kss[st_new[j] + (st_new[j + 1] - st_new[j]) / 2],
                axis,
            ) by {
                if j < old_out.len() {
                    assert(out@[j] == old_out[j]);
                    assert(st_new[j] == st_old[j]);
                    assert(st_new[j + 1] == st_old[j + 1]);
                }
            }
        }
        i = i + 1;
    }
    let ghost old_out = out@;
    let m = cs + (n - cs) / 2;
    let p = decode_along(ks[m], axis);
    proof {
        assert(kss.contains(kss[m as int]));
        lemma_key_point(points@, axis, kss, kss[m as int]);
    }
    out.push(p);
    proof {
        let st = stroke_starts(kss, n as nat);
        assert forall|j: int| 0 <= j < out@.len() implies points@.contains(#[trigger] out@[j]) by {
            if j < old_out.len() {
                assert(out@[j] == old_out[j]);
            }
        }
        assert forall|j: int| 0 <= j < out@.len() implies #[trigger] out@[j] == thinned(kss, axis)[j] by {
            if j < old_out.len() {
                assert(out@[j] == old_out[j]);
            }
        }
        assert(out@ =~= thinned(kss, axis));
    }
    out
}

// ----------------------------------------------------------------
//  Choosing the thinning axis
// ----------------------------------------------------------------

/// Index `i` starts a new stroke inside a line (not at the line's start).
pub open spec fn inner_break(ks: Seq<u64>, i: int) -> bool {
    !line_start(ks, i) && stroke_start(ks, i)
}

/// Index `i` is the first inner break of its line.
pub open spec fn first_inner_break(ks: Seq<u64>, i: int) -> bool {
    inner_break(ks, i) && forall|j: int|
        0 <= j < i && key_hi(ks[j]) == key_hi(ks[i]) ==> !#[trigger] inner_break(ks, j)
}

/// Number of distinct lines among the first `n` sorted keys.
pub open spec fn count_lines(ks: Seq<u64>, n: nat) -> nat
    decreases n,
{
    if n == 0 {
        0
    } else {
        count_lines(ks, (n - 1) as nat) + if line_start(ks, n - 1) {
            1nat
        } else {
            0nat
        }
    }
}

/// Number of lines among the first `n` sorted keys that hold more than one stroke.
pub open spec fn count_multi_lines(ks: Seq<u64>, n: nat) -> nat
    decreases n,
{
    if n == 0 {
        0
    } else {
        count_multi_lines(ks, (n - 1) as nat) + if first_inner_break(ks, n - 1) {
            1nat
        } else {
            0nat
        }
    }
}

proof fn lemma_count_lines_bound(ks: Seq<u64>, n: nat)
    ensures
        count_lines(ks, n) <= n,
        count_multi_lines(ks, n) <= n,
    decreases n,
{
    if n > 0 {
        lemma_count_lines_bound(ks, (n - 1) as nat);
    }
}

proof fn lemma_hi_monotone(k1: u64, k2: u64)
    requires
        k1 <= k2,
    ensures
        key_hi(k1) <= key_hi(k2),
{
    vstd::arithmetic::div_mod::lemma_div_is_ordered(k1 as int, k2 as int, crate::keys::key_base());
}

/// Counts, along `axis`, the lines that hold more than one stroke and the
/// number of distinct lines: `(multi, total)`.
pub fn count_multivalue_info(points: &[(u32, u32)], axis: DominantAxis) -> (r: (usize, usize))
    ensures
        r.0 == count_multi_lines(sorted_perm(keys_along(points@, axis)), points@.len() as nat),
        r.1 == count_lines(sorted_perm(keys_along(points@, axis)), points@.len() as nat),
{
    let ks = sorted_axis_keys(points, axis);
    let ghost kss = ks@;
    let n = ks.len();
    let mut multi: usize = 0;
    let mut total: usize = 0;
    let mut seen_break = false;
    let mut i: usize = 0;
    while i < n
        invariant
            kss == ks@,
            n == kss.len(),
            sorted(kss),
            i <= n,
            multi == count_multi_lines(kss, i as nat),
            total == count_lines(kss, i as nat),
            i > 0 ==> (seen_break <==> exists|j: int|
                0 <= j < i && key_hi(kss[j]) == key_hi(kss[i - 1]) && #[trigger] inner_break(kss, j)),
        decreases n - i,
    {
        proof {
            lemma_count_lines_bound(kss, i as nat);
        }
        let hi_cur = ks[i] / 0x1_0000_0000u64;
        let new_line = i == 0 || ks[i - 1] / 0x1_0000_0000u64 != hi_cur;
        assert(new_line == line_start(kss, i as int));
        if new_line {
            total = total + 1;
            seen_break = false;
            proof {
                assert(!first_inner_break(kss, i as int));
                if i > 0 {
                    lemma_hi_monotone(kss[i - 1], kss[i as int]);
                }
                assert forall|j: int| 0 <= j < i + 1 && key_hi(kss[j]) == key_hi(kss[i as int]) implies !#[trigger] inner_break(
                    kss,
                    j,
                ) by {
                    if j < i {
                        lemma_hi_monotone(kss[j], kss[i - 1]);
                    }
                }
            }
        } else {
            proof {
                lemma_same_hi_lo_order(kss[i - 1], kss[i as int]);
            }
            let gap = ks[i] % 0x1_0000_0000u64 - ks[i - 1] % 0x1_0000_0000u64 > 3;
            assert(gap == inner_break(kss, i as int));
            if gap {
                proof {
                    if !seen_break {
                        assert(first_inner_break(kss, i as int));
                    } else {
                        assert(!first_inner_break(kss, i as int));
                    }
                }
                if !seen_break {
                    multi = multi + 1;
                }
                seen_break = true;
            } else {
                proof {
                    assert(!first_inner_break(kss, i as int));
                }
            }
        }
        i = i + 1;
    }
    (multi, total)
}

/// The thinning axis chosen for a component (see `choose_curve_axis`).
pub open spec fn curve_axis_spec(points: Seq<(u32, u32)>) -> DominantAxis {
    let n = points.len() as nat;
    let h = sorted_perm(keys_along(points, DominantAxis::Horizontal));
    let v = sorted_perm(keys_along(points, DominantAxis::Vertical));
    let h_multi = count_multi_lines(h, n);
    let h_pos = count_lines(h, n);
    let v_multi = count_multi_lines(v, n);
    let v_pos = count_lines(v, n);
    if n <= 2 {
        dominant_axis_spec(points)
    } else if h_multi < v_multi && h_pos * 2 >= v_pos {
        DominantAxis::Horizontal
    } else if v_multi < h_multi && v_pos * 2 >= h_pos {
        DominantAxis::Vertical
    } else {
        dominant_axis_spec(points)
    }
}

/// The thinning axis departs from the longer side of the bounding box only
/// for an axis whose lines hold strictly fewer multiple strokes than the
/// other axis's and that still has at least half as many lines as the
/// other; such an axis is always taken.  Components of at most two points
/// follow the bounding box.
pub proof fn lemma_curve_axis_choice(points: Seq<(u32, u32)>)
    ensures
        ({
            let n = points.len() as nat;
            let hk = sorted_perm(keys_along(points, DominantAxis::Horizontal));
            let vk = sorted_perm(keys_along(points, DominantAxis::Vertical));
            let h_multi = count_multi_lines(hk, n);
            let h_lines = count_lines(hk, n);
            let v_multi = count_multi_lines(vk, n);
            let v_lines = count_lines(vk, n);
            let a = curve_axis_spec(points);
            &&& n <= 2 ==> a == dominant_axis_spec(points)
            &&& a != dominant_axis_spec(points) && a == DominantAxis::Horizontal ==> h_multi < v_multi && h_lines * 2
                >= v_lines
            &&& a != dominant_axis_spec(points) && a == DominantAxis::Vertical ==> v_multi < h_multi && v_lines * 2
                >= h_lines
            &&& n > 2 && h_multi < v_multi && h_lines * 2 >= v_lines ==> a == DominantAxis::Horizontal
            &&& n > 2 && v_multi < h_multi && v_lines * 2 >= h_lines ==> a == DominantAxis::Vertical
            &&& n > 2 && !(h_multi < v_multi && h_lines * 2 >= v_lines) && !(v_multi < h_multi && v_lines * 2
                >= h_lines) ==> a == dominant_axis_spec(points)
        }),
{
}

/// Chooses the axis for thinning a curve component: the axis whose lines
/// hold fewer multiple strokes, provided it still has at least half as many
/// lines as the other; otherwise the longer side of the bounding box.
pub fn choose_curve_axis(component: &[(u32, u32)]) -> (a: DominantAxis)
    ensures
        a == curve_axis_spec(component@),
{
    if component.len() <= 2 {
        return dominant_axis(component);
    }
    let (h_multi, h_positions) = count_multivalue_info(component, DominantAxis::Horizontal);
    let (v_multi, v_positions) = count_multivalue_info(component, DominantAxis::Vertical);
    if h_multi < v_multi && (h_positions as u128) * 2 >= v_positions as u128 {
        DominantAxis::Horizontal
    } else if v_multi < h_multi && (v_positions as u128) * 2 >= h_positions as u128 {
        DominantAxis::Vertical
    } else {
        dominant_axis(component)
    }
}

/// The points with sorted keys `ks` along `axis`, in key order.
pub open spec fn points_of_keys(ks: Seq<u64>, axis: DominantAxis) -> Seq<(u32, u32)> {
    ks.map_values(|k: u64| from_axis_key(k, axis))
}

/// The centre line of a component along an axis (see `thin_component_with_axis`).
pub open spec fn thin_component_spec(points: Seq<(u32, u32)>, axis: DominantAxis) -> Seq<(u32, u32)> {
    let ks = sorted_perm(keys_along(points, axis));
    if points.len() <= 2 {
        points_of_keys(ks, axis)
    } else {
        thinned(ks, axis)
    }
}

/// Thins a connected component to its centre line along `axis`; components
/// of at most two pixels are only sorted along the axis.
pub fn thin_component_with_axis(component: &[(u32, u32)], axis: DominantAxis) -> (r: Vec<(u32, u32)>)
    ensures
        r@ == thin_component_spec(component@, axis),
        forall|i: int| 0 <= i < r@.len() ==> component@.contains(#[trigger] r@[i]),
        component@.len() > 0 ==> r@.len() > 0,
{
    if component.len() <= 2 {
        let ks = sorted_axis_keys(component, axis);
        let mut out: Vec<(u32, u32)> = Vec::new();
        let mut i: usize = 0;
        while i < ks.len()
            invariant
                i <= ks@.len(),
                out@ =~= points_of_keys(ks@.take(i as int), axis),
                ks@.to_multiset() == keys_along(component@, axis).to_multiset(),
                ks@.len() == component@.len(),
                forall|j: int| 0 <= j < out@.len() ==> component@.contains(#[trigger] out@[j]),
            decreases ks@.len() - i,
        {
            let p = decode_along(ks[i], axis);
            proof {
                assert(ks@.contains(ks@[i as int]));
                lemma_key_point(component@, axis, ks@, ks@[i as int]);
            }
            out.push(p);
            proof {
                assert(ks@.take(i as int + 1) =~= ks@.take(i as int).push(ks@[i as int]));
            }
            i = i + 1;
        }
        proof {
            assert(ks@.take(ks@.len() as int) =~= ks@);
        }
        return out;
    }
    thin_along_axis(component, axis)
}

// ----------------------------------------------------------------
//  Nearest-neighbour ordering
// ----------------------------------------------------------------

/// All points have coordinates below 2^31.
pub open spec fn all_coords_ok(points: Seq<(u32, u32)>) -> bool {
    forall|i: int| 0 <= i < points.len() ==> coord_ok(#[trigger] points[i])
}

/// `chain` is a greedy nearest-neighbour walk: every step goes to a point
/// at least as close as any point visited later.
pub open spec fn greedy_walk(chain: Seq<(u32, u32)>) -> bool {
    forall|i: int, j: int|
        0 <= i && i + 1 < j < chain.len() ==> dist_sq_spec(chain[i], chain[i + 1])
            <= #[trigger] dist_sq_spec(chain[i], chain[j])
}

proof fn lemma_swap_remove_multiset(s: Seq<u64>, i: int)
    requires
        0 <= i < s.len(),
    ensures
        s.update(i, s.last()).drop_last().to_multiset() == s.to_multiset().remove(s[i]),
        forall|x: u64| s.update(i, s.last()).drop_last().contains(x) ==> s.contains(x),
{
    broadcast use vstd::multiset::group_multiset_axioms;
    let t = s.update(i, s.last());
    assert(t.drop_last() =~= t.remove(t.len() - 1));
    vstd::seq_lib::to_multiset_remove(t, t.len() - 1);
    vstd::seq_lib::to_multiset_update(s, i, s.last());
    assert(t.to_multiset().remove(s.last()) =~= s.to_multiset().remove(s[i]));
    assert forall|x: u64| t.drop_last().contains(x) implies s.contains(x) by {
        let k = choose|k: int| 0 <= k < t.drop_last().len() && t.drop_last()[k] == x;
        if k == i {
            assert(s[s.len() - 1] == x);
        } else {
            assert(s[k] == x);
        }
    }
}

proof fn lemma_axis_key_roundtrip(k: u64, axis: DominantAxis)
    ensures
        axis_key(from_axis_key(k, axis), axis) == k,
{
    crate::keys::lemma_key_halves(k);
}

proof fn lemma_from_axis_key_inj(p: (u32, u32), axis: DominantAxis)
    ensures
        from_axis_key(axis_key(p, axis), axis) == p,
{
    crate::keys::lemma_pack_halves(p.0, p.1);
    crate::keys::lemma_pack_halves(p.1, p.0);
}

/// Position `b` of the remaining keys holds the point nearest `cur`, the
/// first such in the list.
pub open spec fn first_closest(cur: (u32, u32), rem: Seq<u64>, axis: DominantAxis, b: int) -> bool {
    &&& 0 <= b < rem.len()
    &&& forall|i: int| 0 <= i < b ==> dist_sq_spec(cur, from_axis_key(#[trigger] rem[i], axis)) > dist_sq_spec(
        cur,
        from_axis_key(rem[b], axis),
    )
    &&& forall|i: int| 0 <= i < rem.len() ==> dist_sq_spec(cur, from_axis_key(#[trigger] rem[i], axis)) >= dist_sq_spec(
        cur,
        from_axis_key(rem[b], axis),
    )
}

/// The points visited after `cur`: each time the first nearest of the
/// remaining list, which is taken out by moving the list's last key into
/// its place.
pub open spec fn walk_from(cur: (u32, u32), rem: Seq<u64>, axis: DominantAxis) -> Seq<(u32, u32)>
    decreases rem.len(),
{
    if rem.len() == 0 {
        Seq::empty()
    } else {
        let b = choose|b: int| first_closest(cur, rem, axis, b);
        let next = from_axis_key(rem[b], axis);
        seq![next] + walk_from(next, swap_removed(rem, b), axis)
    }
}

/// The nearest-neighbour walk over `points`: it starts at the first point
/// along `axis`, and the rest of the points, in that order, form the
/// working list.
pub open spec fn ordered_walk(points: Seq<(u32, u32)>, axis: DominantAxis) -> Seq<(u32, u32)> {
    let ks = sorted_perm(keys_along(points, axis));
    if points.len() == 0 {
        Seq::empty()
    } else {
        let first = from_axis_key(ks[0], axis);
        seq![first] + walk_from(first, ks.subrange(1, ks.len() as int), axis)
    }
}

/// At most one position is the first nearest.
proof fn lemma_first_closest_unique(cur: (u32, u32), rem: Seq<u64>, axis: DominantAxis, a: int, b: int)
    requires
        first_closest(cur, rem, axis, a),
        first_closest(cur, rem, axis, b),
    ensures
        a == b,
{
    if a < b {
        assert(dist_sq_spec(cur, from_axis_key(rem[a], axis)) > dist_sq_spec(cur, from_axis_key(rem[b], axis)));
        assert(dist_sq_spec(cur, from_axis_key(rem[b], axis)) >= dist_sq_spec(cur, from_axis_key(rem[a], axis)));
    } else if b < a {
        assert(dist_sq_spec(cur, from_axis_key(rem[b], axis)) > dist_sq_spec(cur, from_axis_key(rem[a], axis)));
        assert(dist_sq_spec(cur, from_axis_key(rem[a], axis)) >= dist_sq_spec(cur, from_axis_key(rem[b], axis)));
    }
}

/// Orders points into a chain by nearest-neighbour walking: the chain starts
/// at the first point along `axis` and each next point is the closest one not
/// yet visited (the earliest of equally close candidates in the working list).
#[verifier::rlimit(60)]
pub fn order_component_with_axis(points: &[(u32, u32)], axis: DominantAxis) -> (chain: Vec<(u32, u32)>)
    requires
        all_coords_ok(points@),
    ensures
        chain@.len() == points@.len(),
        keys_along(chain@, axis).to_multiset() == keys_along(points@, axis).to_multiset(),
        points@.len() > 0 ==> chain@[0] == from_axis_key(sorted_perm(keys_along(points@, axis))[0], axis),
        greedy_walk(chain@),
        forall|i: int| 0 <= i < chain@.len() ==> points@.contains(#[trigger] chain@[i]),
        chain@ == ordered_walk(points@, axis),
{
    let ks = sorted_axis_keys(points, axis);
    let ghost kss = ks@;
    let mut chain: Vec<(u32, u32)> = Vec::new();
    if ks.len() == 0 {
        proof {
            assert(keys_along(chain@, axis) =~= Seq::<u64>::empty());
            vstd::seq_lib::to_multiset_len(keys_along(points@, axis));
            assert(keys_along(points@, axis).to_multiset() =~= vstd::multiset::Multiset::empty()) by {
                broadcast use vstd::multiset::group_multiset_axioms;
            }
            assert(points@.len() == 0);
        }
        return chain;
    }
    // Remaining keys, kept in the working-list order of the walk.
    let mut remaining: Vec<u64> = Vec::new();
    let mut i: usize = 1;
    while i < ks.len()
        invariant
            kss == ks@,
            1 <= i <= kss.len(),
            remaining@ =~= kss.subrange(1, i as int),
        decreases kss.len() - i,
    {
        remaining.push(ks[i]);
        i = i + 1;
    }
    let first = decode_along(ks[0], axis);
    chain.push(first);
    let mut current = first;
    let ghost plan = seq![from_axis_key(kss[0], axis)] + walk_from(from_axis_key(kss[0], axis), kss.subrange(1, kss.len() as int), axis);
    proof {
        assert(chain@ + walk_from(current, remaining@, axis) =~= plan);
        lemma_axis_key_roundtrip(kss[0], axis);
        assert(kss.contains(kss[0]));
        lemma_key_point(points@, axis, kss, kss[0]);
        assert(chain@[0] == from_axis_key(kss[0], axis));
        assert(kss =~= seq![kss[0]] + remaining@);
        vstd::seq_lib::lemma_multiset_commutative(seq![kss[0]], remaining@);
        assert(keys_along(chain@, axis) =~= seq![kss[0]]);
        // every point decoded from a key has bounded coordinates
        assert forall|k: u64| kss.contains(k) implies coord_ok(#[trigger] from_axis_key(k, axis)) by {
            assert(kss.to_multiset().count(k) > 0);
            assert(keys_along(points@, axis).to_multiset().count(k) > 0);
            assert(keys_along(points@, axis).contains(k));
            let t = choose|t: int| 0 <= t < points@.len() && keys_along(points@, axis)[t] == k;
            lemma_from_axis_key_inj(points@[t], axis);
            assert(coord_ok(points@[t]));
        }
    }
    while remaining.len() > 0
        invariant
            kss == ks@,
            kss.to_multiset() == keys_along(points@, axis).to_multiset(),
            forall|k: u64| kss.contains(k) ==> coord_ok(#[trigger] from_axis_key(k, axis)),
            chain@.len() > 0,
            chain@[0] == from_axis_key(kss[0], axis),
            current == chain@.last(),
            chain@.len() + remaining@.len() == kss.len(),
            keys_along(chain@, axis).to_multiset().add(remaining@.to_multiset()) == kss.to_multiset(),
            forall|k: u64| remaining@.contains(k) ==> kss.contains(k),
            forall|t: int| 0 <= t < chain@.len() ==> coord_ok(#[trigger] chain@[t]),
            forall|t: int| 0 <= t < chain@.len() ==> points@.contains(#[trigger] chain@[t]),
            greedy_walk(chain@),
            forall|t: int, k: u64|
                0 <= t < chain@.len() - 1 && remaining@.contains(k) ==> dist_sq_spec(
                    chain@[t],
                    chain@[t + 1],
                ) <= #[trigger] dist_sq_spec(chain@[t], from_axis_key(k, axis)),
            plan == seq![from_axis_key(kss[0], axis)] + walk_from(from_axis_key(kss[0], axis), kss.subrange(1, kss.len() as int), axis),
            chain@ + walk_from(current, remaining@, axis) == plan,
        decreases remaining@.len(),
    {
        let mut best_idx: usize = 0;
        let p0 = decode_along(remaining[0], axis);
        proof {
            assert(remaining@.contains(remaining@[0]));
            crate::geometry::lemma_dist_bounded(current, p0);
        }
        let mut best_dist = point_distance_sq(current, p0);
        let mut j: usize = 1;
        while j < remaining.len()
            invariant
                forall|k: u64| kss.contains(k) ==> coord_ok(#[trigger] from_axis_key(k, axis)),
                forall|k: u64| remaining@.contains(k) ==> kss.contains(k),
                coord_ok(current),
                1 <= j <= remaining@.len(),
                best_idx < j,
                best_dist == dist_sq_spec(current, from_axis_key(remaining@[best_idx as int], axis)),
                forall|t: int| 0 <= t < j ==> best_dist <= dist_sq_spec(current, #[trigger] from_axis_key(remaining@[t], axis)),
                forall|t: int| 0 <= t < best_idx ==> best_dist < dist_sq_spec(current, #[trigger] from_axis_key(remaining@[t], axis)),
            decreases remaining@.len() - j,
        {
            let pj = decode_along(remaining[j], axis);
            proof {
                assert(remaining@.contains(remaining@[j as int]));
                crate::geometry::lemma_dist_bounded(current, pj);
            }
            let d = point_distance_sq(current, pj);
            if d < best_dist {
                best_dist = d;
                best_idx = j;
            }
            j = j + 1;
        }
        let ghost old_rem = remaining@;
        let ghost old_chain = chain@;
        proof {
            assert(first_closest(current, old_rem, axis, best_idx as int));
            let b = choose|b: int| first_closest(current, old_rem, axis, b);
            lemma_first_closest_unique(current, old_rem, axis, b, best_idx as int);
        }
        let k = remaining.swap_remove(best_idx);
        let next = decode_along(k, axis);
        proof {
            assert(remaining@ =~= swap_removed(old_rem, best_idx as int));
            assert(walk_from(current, old_rem, axis) == seq![from_axis_key(k, axis)] + walk_from(from_axis_key(k, axis), remaining@, axis));
            lemma_swap_remove_multiset(old_rem, best_idx as int);
            assert(remaining@ == old_rem.update(best_idx as int, old_rem.last()).drop_last());
            assert(old_rem.contains(k));
            lemma_axis_key_roundtrip(k, axis);
        }
        chain.push(next);
        current = next;
        proof {
            assert(chain@ + walk_from(current, remaining@, axis) =~= old_chain + (seq![from_axis_key(k, axis)] + walk_from(
                from_axis_key(k, axis),
                remaining@,
                axis,
            )));
        }
        proof {
            broadcast use vstd::multiset::group_multiset_axioms;
            assert(keys_along(chain@, axis) =~= keys_along(old_chain, axis).push(k));
            assert(old_rem.to_multiset().count(k) > 0);
            assert(keys_along(chain@, axis).to_multiset().add(remaining@.to_multiset()) =~= kss.to_multiset());
            let n0 = old_chain.len();
            assert forall|a: int, b: int|
                0 <= a && a + 1 < b < chain@.len() implies dist_sq_spec(chain@[a], chain@[a + 1])
                <= #[trigger] dist_sq_spec(chain@[a], chain@[b]) by {
                if b == n0 {
                    assert(chain@[b] == from_axis_key(k, axis));
                    assert(chain@[a] == old_chain[a]);
                    assert(chain@[a + 1] == old_chain[a + 1]);
                } else {
                    assert(chain@[a] == old_chain[a]);
                    assert(chain@[a + 1] == old_chain[a + 1]);
                    assert(chain@[b] == old_chain[b]);
                }
            }
            assert forall|t: int, k2: u64|
                0 <= t < chain@.len() - 1 && remaining@.contains(k2) implies dist_sq_spec(
                chain@[t],
                chain@[t + 1],
            ) <= #[trigger] dist_sq_spec(chain@[t], from_axis_key(k2, axis)) by {
                assert(old_rem.contains(k2));
                if t == n0 - 1 {
                    let u = choose|u: int| 0 <= u < remaining@.len() && remaining@[u] == k2;
                    if u == best_idx {
                        assert(k2 == old_rem.last());
                        assert(old_rem[old_rem.len() - 1] == k2);
                        assert(best_dist <= dist_sq_spec(current_before(old_chain), from_axis_key(old_rem[old_rem.len() - 1], axis)));
                    } else {
                        assert(old_rem[u] == k2);
                    }
                    assert(chain@[t] == old_chain.last());
                    assert(chain@[t + 1] == from_axis_key(k, axis));
                } else {
                    assert(chain@[t] == old_chain[t]);
                    assert(chain@[t + 1] == old_chain[t + 1]);
                }
            }
            assert forall|t: int| 0 <= t < chain@.len() implies coord_ok(#[trigger] chain@[t]) by {
                if t < n0 {
                    assert(chain@[t] == old_chain[t]);
                }
            }
            lemma_key_point(points@, axis, kss, k);
            assert forall|t: int| 0 <= t < chain@.len() implies points@.contains(#[trigger] chain@[t]) by {
                if t < n0 {
                    assert(chain@[t] == old_chain[t]);
                }
            }
        }
    }
    proof {
        assert(remaining@.to_multiset() =~= vstd::multiset::Multiset::empty()) by {
            broadcast use vstd::multiset::group_multiset_axioms;
            vstd::seq_lib::to_multiset_len(remaining@);
        }
        assert(keys_along(chain@, axis).to_multiset() =~= kss.to_multiset()) by {
            broadcast use vstd::multiset::group_multiset_axioms;
        }
        assert(sorted_perm(keys_along(points@, axis)) == kss);
        assert(chain@ + Seq::<(u32, u32)>::empty() =~= chain@);
        assert(chain@ == ordered_walk(points@, axis));
    }
    chain
}

spec fn current_before(chain: Seq<(u32, u32)>) -> (u32, u32) {
    chain.last()
}

/// Orders points into a chain by nearest-neighbour walking along their
/// dominant axis.
pub fn order_component_points(points: &[(u32, u32)]) -> (chain: Vec<(u32, u32)>)
    requires
        all_coords_ok(points@),
    ensures
        chain@.len() == points@.len(),
        keys_along(chain@, dominant_axis_spec(points@)).to_multiset() == keys_along(
            points@,
            dominant_axis_spec(points@),
        ).to_multiset(),
        points@.len() > 0 ==> chain@[0] == from_axis_key(
            sorted_perm(keys_along(points@, dominant_axis_spec(points@)))[0],
            dominant_axis_spec(points@),
        ),
        greedy_walk(chain@),
        chain@ == ordered_walk(points@, dominant_axis_spec(points@)),
{
    order_component_with_axis(points, dominant_axis(points))
}

// ----------------------------------------------------------------
//  Chain stitching
// ----------------------------------------------------------------

/// Every chain is nonempty and has coordinates below 2^31.
pub open spec fn chains_ok(chains: Seq<Vec<(u32, u32)>>) -> bool {
    forall|c: int| 0 <= c < chains.len() ==> (#[trigger] chains[c]@).len() > 0 && all_coords_ok(chains[c]@)
}

/// End `e` of a chain: its first point for `e == 0`, its last point otherwise.
pub open spec fn chain_end(c: Seq<(u32, u32)>, e: int) -> (u32, u32) {
    if e == 0 {
        c[0]
    } else {
        c.last()
    }
}

/// No two ends of different chains lie farther apart than squared distance `d`.
pub open spec fn ends_within(chains: Seq<Vec<(u32, u32)>>, d: int) -> bool {
    forall|a: int, ea: int, b: int, eb: int|
        0 <= a < chains.len() && 0 <= b < chains.len() && a != b && 0 <= ea < 2 && 0 <= eb < 2
            ==> #[trigger] dist_sq_spec(chain_end(chains[a]@, ea), chain_end(chains[b]@, eb)) <= d
}

/// `s` is an end of one chain lying farthest from an end of another chain:
/// no two ends of different chains are farther apart.
pub open spec fn farthest_end(chains: Seq<Vec<(u32, u32)>>, s: (u32, u32)) -> bool {
    exists|c1: int, e1: int, c2: int, e2: int|
        #![trigger chain_end(chains[c1]@, e1), chain_end(chains[c2]@, e2)]
        0 <= c1 < chains.len() && 0 <= c2 < chains.len() && c1 != c2 && 0 <= e1 < 2 && 0 <= e2 < 2
            && s == chain_end(chains[c1]@, e1) && ends_within(
            chains,
            dist_sq_spec(s, chain_end(chains[c2]@, e2)),
        )
}

/// `x` is already in `u` or still in one of the chains of `v`.
spec fn held(u: Seq<(u32, u32)>, v: Seq<Vec<(u32, u32)>>, x: (u32, u32)) -> bool {
    u.contains(x) || exists|k: int| 0 <= k < v.len() && (#[trigger] v[k]@).contains(x)
}

/// Every point of the input chains is held by `u` and `v`.
spec fn covers(u: Seq<(u32, u32)>, v: Seq<Vec<(u32, u32)>>, orig: Seq<Vec<(u32, u32)>>) -> bool {
    forall|c: int, i: int| 0 <= c < orig.len() && 0 <= i < orig[c]@.len() ==> #[trigger] held(u, v, orig[c]@[i])
}

proof fn lemma_dist_sym(a: (u32, u32), b: (u32, u32))
    ensures
        dist_sq_spec(a, b) == dist_sq_spec(b, a),
{
    assert((a.0 - b.0) * (a.0 - b.0) == (b.0 - a.0) * (b.0 - a.0)) by (nonlinear_arith);
    assert((a.1 - b.1) * (a.1 - b.1) == (b.1 - a.1) * (b.1 - a.1)) by (nonlinear_arith);
}

/// A reversed copy of a chain.
fn reversed_chain(v: &Vec<(u32, u32)>) -> (r: Vec<(u32, u32)>)
    ensures
        r@ == v@.reverse(),
{
    let mut r: Vec<(u32, u32)> = Vec::new();
    let mut i: usize = v.len();
    while i > 0
        invariant
            i <= v@.len(),
            r@.len() == v@.len() - i,
            forall|k: int| 0 <= k < r@.len() ==> r@[k] == v@[v@.len() - 1 - k],
        decreases i,
    {
        i = i - 1;
        r.push(v[i]);
    }
    proof {
        assert(r@ =~= v@.reverse());
    }
    r
}

/// Exchanges two entries of a vector.
fn vec_swap<T>(v: &mut Vec<T>, i: usize, j: usize)
    requires
        i < old(v)@.len(),
        j < old(v)@.len(),
    ensures
        final(v)@ == old(v)@.update(i as int, old(v)@[j as int]).update(j as int, old(v)@[i as int]),
{
    if i == j {
        proof {
            assert(v@ =~= old(v)@.update(i as int, old(v)@[j as int]).update(j as int, old(v)@[i as int]));
        }
        return;
    }
    let (a, b) = if i < j {
        (i, j)
    } else {
        (j, i)
    };
    let ghost s0 = v@;
    let xb = v.remove(b);
    let xa = v.remove(a);
    v.insert(a, xb);
    v.insert(b, xa);
    proof {
        assert(v@ =~= s0.update(a as int, s0[b as int]).update(b as int, s0[a as int]));
        assert(s0.update(a as int, s0[b as int]).update(b as int, s0[a as int]) =~= s0.update(
            i as int,
            s0[j as int],
        ).update(j as int, s0[i as int]));
    }
}

/// The chain made by joining the oriented chains of `a` in order: each is
/// appended after the points interpolated from the current tail to its first
/// point, without repeating a first point that equals the point before it.
pub open spec fn glued(a: Seq<Seq<(u32, u32)>>) -> Seq<(u32, u32)>
    decreases a.len(),
{
    if a.len() == 0 {
        Seq::empty()
    } else if a.len() == 1 {
        a[0]
    } else {
        let g = glued(a.drop_last());
        let c = a.last();
        let mid = g + crate::gaps::gap_points(g.last(), c[0]);
        let s: int = if mid.len() > 0 && c.len() > 0 && c[0] == mid.last() {
            1
        } else {
            0
        };
        mid + c.subrange(s, c.len() as int)
    }
}

/// The tail of the joined chain before chain `k` of `a` is attached.
pub open spec fn tail_before(a: Seq<Seq<(u32, u32)>>, k: int) -> (u32, u32) {
    glued(a.take(k)).last()
}

/// Every chain after the first begins at a point at least as close to the
/// tail it is attached to as any end of a chain attached later.
pub open spec fn nearest_first(a: Seq<Seq<(u32, u32)>>) -> bool {
    forall|k: int, m: int, e: int|
        1 <= k <= m < a.len() && 0 <= e < 2 ==> dist_sq_spec(tail_before(a, k), a[k][0]) <= #[trigger] dist_sq_spec(
            tail_before(a, k),
            chain_end(a[m], e),
        )
}

/// `p` lists each of `0..n` once.
pub open spec fn is_perm(p: Seq<int>, n: nat) -> bool {
    &&& p.len() == n
    &&& forall|k: int| 0 <= k < p.len() ==> 0 <= #[trigger] p[k] < n
    &&& forall|i: int, j: int| 0 <= i < j < p.len() ==> #[trigger] p[i] != #[trigger] p[j]
}

/// `a` holds the chains of `orig` in some order, each possibly reversed,
/// all non-empty.
pub open spec fn reordering(a: Seq<Seq<(u32, u32)>>, orig: Seq<Vec<(u32, u32)>>) -> bool {
    exists|p: Seq<int>|
        #[trigger] is_perm(p, orig.len()) && forall|k: int|
            0 <= k < a.len() ==> (#[trigger] a[k] == orig[p[k]]@ || a[k] == orig[p[k]]@.reverse())
}

/// `a` is an order of attachment of the chains `orig`: all of them, each
/// possibly reversed, every one after the first chosen nearest to the tail.
pub open spec fn stitch_order(orig: Seq<Vec<(u32, u32)>>, a: Seq<Seq<(u32, u32)>>) -> bool {
    &&& a.len() == orig.len()
    &&& reordering(a, orig)
    &&& nearest_first(a)
}

/// The distance to the nearer end of a chain.
pub open spec fn end_key(t: (u32, u32), c: Seq<(u32, u32)>) -> int {
    let d0 = dist_sq_spec(t, c[0]);
    let d1 = dist_sq_spec(t, c.last());
    if d0 <= d1 {
        d0
    } else {
        d1
    }
}

/// Chain `b` of `rest` is the one attached next to tail `t`: the first in
/// the list whose nearer end is nearest.
pub open spec fn first_nearest(t: (u32, u32), rest: Seq<Vec<(u32, u32)>>, b: int) -> bool {
    &&& 0 <= b < rest.len()
    &&& forall|i: int| 0 <= i < b ==> end_key(t, (#[trigger] rest[i])@) > end_key(t, rest[b]@)
    &&& forall|i: int| 0 <= i < rest.len() ==> end_key(t, (#[trigger] rest[i])@) >= end_key(t, rest[b]@)
}

/// A chain turned to start at its end nearer `t`; it is turned only when
/// its last point is strictly nearer.
pub open spec fn oriented(t: (u32, u32), c: Seq<(u32, u32)>) -> Seq<(u32, u32)> {
    if dist_sq_spec(t, c.last()) < dist_sq_spec(t, c[0]) {
        c.reverse()
    } else {
        c
    }
}

/// The chains attached, in order, from tail `t` on: each time the first
/// nearest chain of the list, turned to face the tail, which is taken out
/// by moving the list's last chain into its place.
pub open spec fn greedy_plan(t: (u32, u32), rest: Seq<Vec<(u32, u32)>>) -> Seq<Seq<(u32, u32)>>
    decreases rest.len(),
{
    if rest.len() == 0 {
        Seq::empty()
    } else {
        let b = choose|b: int| first_nearest(t, rest, b);
        let next = oriented(t, rest[b]@);
        seq![next] + greedy_plan(next.last(), swap_removed(rest, b))
    }
}

/// The list with entry `b` taken out and the last entry moved into its place.
pub open spec fn swap_removed<A>(s: Seq<A>, b: int) -> Seq<A> {
    Seq::new((s.len() - 1) as nat, |i: int| if i == b { s.last() } else { s[i] })
}

/// Pair `(i1, j1, e1, f1)` of chain ends is visited before `(i2, j2, e2, f2)`:
/// by first chain, then second chain, then the end of each (first end before
/// last end).
pub open spec fn pair_before(i1: int, j1: int, e1: int, f1: int, i2: int, j2: int, e2: int, f2: int) -> bool {
    i1 < i2 || (i1 == i2 && (j1 < j2 || (j1 == j2 && (e1 < e2 || (e1 == e2 && f1 < f2)))))
}

/// End `e` of chain `i` and end `f` of a later chain `j`.
pub open spec fn end_pair(n: int, i: int, j: int, e: int, f: int) -> bool {
    0 <= i < j < n && 0 <= e < 2 && 0 <= f < 2
}

/// The squared distance of end `e` of chain `i` and end `f` of chain `j`.
pub open spec fn pair_dist(chains: Seq<Vec<(u32, u32)>>, i: int, j: int, e: int, f: int) -> int {
    dist_sq_spec(chain_end(chains[i]@, e), chain_end(chains[j]@, f))
}

/// Stitching starts at end `e` of chain `s`: the first end of the first
/// pair, in visiting order, of ends of two chains lying farthest apart; the
/// first point of the first chain when no two ends lie apart.
pub open spec fn stitch_start(chains: Seq<Vec<(u32, u32)>>, s: int, e: int) -> bool {
    let n = chains.len() as int;
    if exists|i: int, j: int, a: int, b: int| end_pair(n, i, j, a, b) && #[trigger] pair_dist(chains, i, j, a, b) > 0 {
        exists|j: int, f: int|
            #![trigger pair_dist(chains, s, j, e, f)]
            end_pair(n, s, j, e, f) && (forall|i2: int, j2: int, a: int, b: int|
                end_pair(n, i2, j2, a, b) ==> #[trigger] pair_dist(chains, i2, j2, a, b) <= pair_dist(chains, s, j, e, f))
                && (forall|i2: int, j2: int, a: int, b: int|
                end_pair(n, i2, j2, a, b) && pair_before(i2, j2, a, b, s, j, e, f) ==> #[trigger] pair_dist(
                    chains,
                    i2,
                    j2,
                    a,
                    b,
                ) < pair_dist(chains, s, j, e, f))
    } else {
        s == 0 && e == 0
    }
}

/// The chains left after the start chain `s` is taken: it changes places
/// with the first chain, and the list's last chain moves into its place.
pub open spec fn rest_after_start(chains: Seq<Vec<(u32, u32)>>, s: int) -> Seq<Vec<(u32, u32)>> {
    swap_removed(chains.update(s, chains[0]).update(0, chains[s]), 0)
}

/// The chains in the order they are attached, each turned as attached,
/// when stitching starts at end `e` of chain `s`.
pub open spec fn stitch_plan(chains: Seq<Vec<(u32, u32)>>, s: int, e: int) -> Seq<Seq<(u32, u32)>> {
    let first = if e == 0 {
        chains[s]@
    } else {
        chains[s]@.reverse()
    };
    seq![first] + greedy_plan(first.last(), rest_after_start(chains, s))
}

/// The search for the farthest pair of chain ends has visited the pairs
/// before cursor `(ci, cj, ce, cf)`: `max` bounds them all and, when
/// positive, is the distance of the pair `(s, wj, se, wej)` visited first
/// among those that reach it.
spec fn search_state(
    chains: Seq<Vec<(u32, u32)>>,
    ci: int,
    cj: int,
    ce: int,
    cf: int,
    max: int,
    s: int,
    wj: int,
    se: int,
    wej: int,
) -> bool {
    let n = chains.len() as int;
    &&& forall|i: int, j: int, a: int, b: int|
        end_pair(n, i, j, a, b) && pair_before(i, j, a, b, ci, cj, ce, cf) ==> #[trigger] pair_dist(chains, i, j, a, b) <= max
    &&& max >= 0
    &&& max > 0 ==> end_pair(n, s, wj, se, wej) && pair_before(s, wj, se, wej, ci, cj, ce, cf) && max == pair_dist(
        chains,
        s,
        wj,
        se,
        wej,
    ) && forall|i: int, j: int, a: int, b: int|
        end_pair(n, i, j, a, b) && pair_before(i, j, a, b, ci, cj, ce, cf) && pair_before(i, j, a, b, s, wj, se, wej)
            ==> #[trigger] pair_dist(chains, i, j, a, b) < max
}

/// Visiting pair `(i, j, e, f)` (with `e, f` in `0..2`) moves the cursor one
/// pair on, keeping the search state whether or not the pair is farther.
proof fn lemma_search_step(
    chains: Seq<Vec<(u32, u32)>>,
    i: int,
    j: int,
    e: int,
    f: int,
    max: int,
    s: int,
    wj: int,
    se: int,
    wej: int,
)
    requires
        0 <= i < j < chains.len(),
        0 <= e < 2,
        0 <= f < 2,
        search_state(chains, i, j, e, f, max, s, wj, se, wej),
    ensures
        ({
            let (ne, nf) = if f == 0 { (e, 1int) } else { (e + 1, 0int) };
            let d = pair_dist(chains, i, j, e, f);
            &&& d > max ==> search_state(chains, i, j, ne, nf, d, i, j, e, f)
            &&& d <= max ==> search_state(chains, i, j, ne, nf, max, s, wj, se, wej)
        }),
{
    let n = chains.len() as int;
    let (ne, nf) = if f == 0 { (e, 1int) } else { (e + 1, 0int) };
    let d = pair_dist(chains, i, j, e, f);
    assert forall|i2: int, j2: int, a: int, b: int|
        end_pair(n, i2, j2, a, b) && pair_before(i2, j2, a, b, i, j, ne, nf) implies pair_before(i2, j2, a, b, i, j, e, f)
        || (i2 == i && j2 == j && a == e && b == f) by {
    }
    if d > max {
        assert forall|i2: int, j2: int, a: int, b: int|
            end_pair(n, i2, j2, a, b) && pair_before(i2, j2, a, b, i, j, ne, nf) implies #[trigger] pair_dist(
            chains,
            i2,
            j2,
            a,
            b,
        ) <= d by {
            if pair_before(i2, j2, a, b, i, j, e, f) {
                assert(pair_dist(chains, i2, j2, a, b) <= max);
            }
        }
        assert forall|i2: int, j2: int, a: int, b: int|
            end_pair(n, i2, j2, a, b) && pair_before(i2, j2, a, b, i, j, ne, nf) && pair_before(i2, j2, a, b, i, j, e, f)
                implies #[trigger] pair_dist(chains, i2, j2, a, b) < d by {
            assert(pair_dist(chains, i2, j2, a, b) <= max);
        }
    } else {
        assert forall|i2: int, j2: int, a: int, b: int|
            end_pair(n, i2, j2, a, b) && pair_before(i2, j2, a, b, i, j, ne, nf) implies #[trigger] pair_dist(
            chains,
            i2,
            j2,
            a,
            b,
        ) <= max by {
            if pair_before(i2, j2, a, b, i, j, e, f) {
                assert(pair_dist(chains, i2, j2, a, b) <= max);
            }
        }
        if max > 0 {
            assert forall|i2: int, j2: int, a: int, b: int|
                end_pair(n, i2, j2, a, b) && pair_before(i2, j2, a, b, i, j, ne, nf) && pair_before(
                    i2,
                    j2,
                    a,
                    b,
                    s,
                    wj,
                    se,
                    wej,
                ) implies #[trigger] pair_dist(chains, i2, j2, a, b) < max by {
                if !pair_before(i2, j2, a, b, i, j, e, f) {
                    assert(pair_before(s, wj, se, wej, i, j, e, f));
                }
            }
        }
    }
}

/// Two cursors that have the same pairs of chain ends before them give the
/// same search state.
proof fn lemma_search_cursor(
    chains: Seq<Vec<(u32, u32)>>,
    ci: int,
    cj: int,
    ce: int,
    cf: int,
    di: int,
    dj: int,
    de: int,
    df: int,
    max: int,
    s: int,
    wj: int,
    se: int,
    wej: int,
)
    requires
        search_state(chains, ci, cj, ce, cf, max, s, wj, se, wej),
        forall|i: int, j: int, a: int, b: int|
            end_pair(chains.len() as int, i, j, a, b) ==> (pair_before(i, j, a, b, ci, cj, ce, cf) <==> pair_before(
                i,
                j,
                a,
                b,
                di,
                dj,
                de,
                df,
            )),
    ensures
        search_state(chains, di, dj, de, df, max, s, wj, se, wej),
{
}

/// Once every pair has been visited, the pair found is where stitching
/// starts.
proof fn lemma_search_done(chains: Seq<Vec<(u32, u32)>>, max: int, s: int, wj: int, se: int, wej: int)
    requires
        search_state(chains, chains.len() as int, 0, 0, 0, max, s, wj, se, wej),
        max == 0 ==> s == 0 && se == 0,
    ensures
        stitch_start(chains, s, se),
        forall|i: int, j: int, a: int, b: int|
            end_pair(chains.len() as int, i, j, a, b) ==> #[trigger] pair_dist(chains, i, j, a, b) <= max,
{
    let n = chains.len() as int;
    assert forall|i: int, j: int, a: int, b: int| end_pair(n, i, j, a, b) implies #[trigger] pair_dist(
        chains,
        i,
        j,
        a,
        b,
    ) <= max by {
        assert(pair_before(i, j, a, b, n, 0, 0, 0));
    }
    if exists|i: int, j: int, a: int, b: int| end_pair(n, i, j, a, b) && #[trigger] pair_dist(chains, i, j, a, b) > 0 {
        let (i, j, a, b) = choose|i: int, j: int, a: int, b: int|
            end_pair(n, i, j, a, b) && #[trigger] pair_dist(chains, i, j, a, b) > 0;
        assert(pair_dist(chains, i, j, a, b) <= max);
        assert(max > 0);
        assert forall|i2: int, j2: int, a2: int, b2: int|
            end_pair(n, i2, j2, a2, b2) && pair_before(i2, j2, a2, b2, s, wj, se, wej) implies #[trigger] pair_dist(
            chains,
            i2,
            j2,
            a2,
            b2,
        ) < pair_dist(chains, s, wj, se, wej) by {
            assert(pair_before(i2, j2, a2, b2, n, 0, 0, 0));
        }
        assert(end_pair(n, s, wj, se, wej) && (forall|i2: int, j2: int, a2: int, b2: int|
            end_pair(n, i2, j2, a2, b2) ==> #[trigger] pair_dist(chains, i2, j2, a2, b2) <= pair_dist(chains, s, wj, se, wej)));
    }
}

/// At most one chain is the first nearest.
proof fn lemma_first_nearest_unique(t: (u32, u32), rest: Seq<Vec<(u32, u32)>>, a: int, b: int)
    requires
        first_nearest(t, rest, a),
        first_nearest(t, rest, b),
    ensures
        a == b,
{
    if a < b {
        assert(end_key(t, rest[a]@) > end_key(t, rest[b]@));
        assert(end_key(t, rest[a]@) >= end_key(t, rest[b]@));
        assert(end_key(t, rest[b]@) >= end_key(t, rest[a]@));
    } else if b < a {
        assert(end_key(t, rest[b]@) > end_key(t, rest[a]@));
        assert(end_key(t, rest[a]@) >= end_key(t, rest[b]@));
    }
}

/// Attaching a non-empty chain leaves the joined chain ending where it ends.
proof fn lemma_glued_last(a: Seq<Seq<(u32, u32)>>, c: Seq<(u32, u32)>)
    requires
        a.len() >= 1,
        c.len() > 0,
    ensures
        glued(a.push(c)).last() == c.last(),
{
    lemma_glued_push(a, c);
    let g = glued(a);
    let mid = g + crate::gaps::gap_points(g.last(), c[0]);
    let s: int = if mid.len() > 0 && c.len() > 0 && c[0] == mid.last() {
        1
    } else {
        0
    };
    let out = mid + c.subrange(s, c.len() as int);
    if s == 1 && c.len() == 1 {
        assert(c.subrange(s, c.len() as int) =~= Seq::<(u32, u32)>::empty());
        assert(out =~= mid);
    } else {
        assert(out.last() == c.subrange(s, c.len() as int).last());
    }
}

proof fn lemma_glued_push(a: Seq<Seq<(u32, u32)>>, c: Seq<(u32, u32)>)
    requires
        a.len() >= 1,
    ensures
        glued(a.push(c)) == ({
            let g = glued(a);
            let mid = g + crate::gaps::gap_points(g.last(), c[0]);
            let s: int = if mid.len() > 0 && c.len() > 0 && c[0] == mid.last() {
                1
            } else {
                0
            };
            mid + c.subrange(s, c.len() as int)
        }),
{
    assert(a.push(c).drop_last() =~= a);
}

/// Taking out entry `b` of `r` by moving the last entry into its place,
/// and putting it after `d`, keeps the entries a permutation.
proof fn lemma_perm_swap_remove(d: Seq<int>, r: Seq<int>, b: int, n: nat)
    requires
        is_perm(d + r, n),
        0 <= b < r.len(),
    ensures
        is_perm(d.push(r[b]) + r.update(b, r.last()).drop_last(), n),
{
    let all = d + r;
    let r2 = r.update(b, r.last()).drop_last();
    let all2 = d.push(r[b]) + r2;
    let dl = d.len() as int;
    assert(all2.len() == n);
    // Position of each entry of `all2` in `all`.
    let f = |i: int| if i < dl {
        i
    } else if i == dl {
        dl + b
    } else if i - dl - 1 == b {
        dl + r.len() - 1
    } else {
        i - 1
    };
    assert forall|i: int| 0 <= i < all2.len() implies 0 <= f(i) < all.len() && all2[i] == all[f(i)] by {
        if i < dl {
        } else if i == dl {
        } else {
            let j = i - dl - 1;
            assert(all2[i] == r2[j]);
        }
    }
    assert forall|k: int| 0 <= k < all2.len() implies 0 <= #[trigger] all2[k] < n by {
        assert(all2[k] == all[f(k)]);
    }
    assert forall|i: int, j: int| 0 <= i < j < all2.len() implies #[trigger] all2[i] != #[trigger] all2[j] by {
        assert(all2[i] == all[f(i)]);
        assert(all2[j] == all[f(j)]);
        assert(f(i) != f(j));
        if f(i) < f(j) {
            assert(all[f(i)] != all[f(j)]);
        } else {
            assert(all[f(j)] != all[f(i)]);
        }
    }
}

/// Every end of the waiting chains `w` lies at least as far from the tail
/// each attached chain of `a` was joined to as that chain's first point.
spec fn waits_farther(a: Seq<Seq<(u32, u32)>>, w: Seq<Vec<(u32, u32)>>) -> bool {
    forall|k: int, j: int, e: int|
        1 <= k < a.len() && 0 <= j < w.len() && 0 <= e < 2 ==> dist_sq_spec(tail_before(a, k), a[k][0])
            <= #[trigger] dist_sq_spec(tail_before(a, k), chain_end(w[j]@, e))
}

proof fn lemma_tail_before_push(a: Seq<Seq<(u32, u32)>>, c: Seq<(u32, u32)>, k: int)
    requires
        0 <= k <= a.len(),
    ensures
        tail_before(a.push(c), k) == tail_before(a, k),
{
    assert(a.push(c).take(k) =~= a.take(k));
}

/// Attaching the waiting chain `b` (possibly reversed), whose first point is
/// nearest to the tail among all waiting ends, keeps the attachment order
/// greedy.
proof fn lemma_greedy_extend(a: Seq<Seq<(u32, u32)>>, w: Seq<Vec<(u32, u32)>>, b: int, next: Seq<(u32, u32)>)
    requires
        a.len() >= 1,
        nearest_first(a),
        waits_farther(a, w),
        0 <= b < w.len(),
        w[b]@.len() > 0,
        next == w[b]@ || next == w[b]@.reverse(),
        forall|j: int, e: int|
            0 <= j < w.len() && 0 <= e < 2 ==> dist_sq_spec(glued(a).last(), next[0]) <= #[trigger] dist_sq_spec(
                glued(a).last(),
                chain_end(w[j]@, e),
            ),
    ensures
        nearest_first(a.push(next)),
        waits_farther(a.push(next), w.update(b, w.last()).drop_last()),
{
    let a2 = a.push(next);
    let w2 = w.update(b, w.last()).drop_last();
    let n = a.len() as int;
    assert(a.take(n) =~= a);
    lemma_tail_before_push(a, next, n);
    assert(tail_before(a2, n) == glued(a).last());
    assert(a2[n] == next);
    let wb = w[b]@;
    assert forall|e: int| 0 <= e < 2 implies exists|e2: int| 0 <= e2 < 2 && #[trigger] chain_end(next, e)
        == chain_end(wb, e2) by {
        if next == wb {
            assert(chain_end(next, e) == chain_end(wb, e));
        } else {
            if e == 0 {
                assert(chain_end(next, 0) == chain_end(wb, 1));
            } else {
                assert(chain_end(next, 1) == chain_end(wb, 0));
            }
        }
    }
    assert forall|k: int, m: int, e: int| 1 <= k <= m < a2.len() && 0 <= e < 2 implies dist_sq_spec(
        tail_before(a2, k),
        a2[k][0],
    ) <= #[trigger] dist_sq_spec(tail_before(a2, k), chain_end(a2[m], e)) by {
        if k < n {
            lemma_tail_before_push(a, next, k);
            assert(a2[k] == a[k]);
            if m < n {
                assert(a2[m] == a[m]);
                assert(dist_sq_spec(tail_before(a, k), a[k][0]) <= dist_sq_spec(tail_before(a, k), chain_end(a[m], e)));
            } else {
                let e2 = choose|e2: int| 0 <= e2 < 2 && #[trigger] chain_end(next, e) == chain_end(wb, e2);
                assert(dist_sq_spec(tail_before(a, k), a[k][0]) <= dist_sq_spec(tail_before(a, k), chain_end(w[b]@, e2)));
            }
        } else {
            let e2 = choose|e2: int| 0 <= e2 < 2 && #[trigger] chain_end(next, e) == chain_end(wb, e2);
            assert(dist_sq_spec(glued(a).last(), next[0]) <= dist_sq_spec(glued(a).last(), chain_end(w[b]@, e2)));
        }
    }
    assert forall|k: int, j: int, e: int| 1 <= k < a2.len() && 0 <= j < w2.len() && 0 <= e < 2 implies dist_sq_spec(
        tail_before(a2, k),
        a2[k][0],
    ) <= #[trigger] dist_sq_spec(tail_before(a2, k), chain_end(w2[j]@, e)) by {
        let j2 = if j == b {
            w.len() - 1
        } else {
            j
        };
        assert(w2[j] == w[j2]);
        if k < n {
            lemma_tail_before_push(a, next, k);
            assert(a2[k] == a[k]);
            assert(dist_sq_spec(tail_before(a, k), a[k][0]) <= dist_sq_spec(tail_before(a, k), chain_end(w[j2]@, e)));
        } else {
            assert(dist_sq_spec(glued(a).last(), next[0]) <= dist_sq_spec(glued(a).last(), chain_end(w[j2]@, e)));
        }
    }
}

proof fn lemma_initial_ids(ids_sw: Seq<int>, start: int, n: nat)
    requires
        0 <= start < n,
        ids_sw == Seq::new(n, |i: int| if i == 0 {
            start
        } else if i == start {
            0
        } else {
            i
        }),
    ensures
        is_perm(ids_sw, n),
{
    assert forall|i: int, j: int| 0 <= i < j < ids_sw.len() implies #[trigger] ids_sw[i] != #[trigger] ids_sw[j] by {
    }
}

/// Stitches ordered chains into one chain.  The walk starts at an end of a
/// farthest pair of chain ends and repeatedly continues with the chain whose
/// nearer end is closest to the current tail (reversing it when its last
/// point is the nearer end), bridging each gap with interpolated points.
#[verifier::rlimit(80)]
pub fn stitch_chains(chains: Vec<Vec<(u32, u32)>>) -> (r: Vec<(u32, u32)>)
    requires
        chains_ok(chains@),
    ensures
        chains@.len() == 0 ==> r@.len() == 0,
        chains@.len() == 1 ==> r@ == chains@[0]@,
        chains@.len() >= 2 ==> farthest_end(chains@, r@[0]),
        forall|c: int, i: int|
            0 <= c < chains@.len() && 0 <= i < chains@[c]@.len() ==> r@.contains(#[trigger] chains@[c]@[i]),
        all_coords_ok(r@),
        chains@.len() >= 1 ==> exists|a: Seq<Seq<(u32, u32)>>| #[trigger] stitch_order(chains@, a) && r@ == glued(a),
        chains@.len() >= 1 ==> exists|s: int, e: int| #[trigger] stitch_start(chains@, s, e) && r@ == glued(stitch_plan(chains@, s, e)),
{
    let ghost orig = chains@;
    let mut chains = chains;
    let n = chains.len();
    if n == 0 {
        return Vec::new();
    }
    let mut max_dist: u64 = 0;
    let mut start_chain_idx: usize = 0;
    let mut start_from_first = true;
    let ghost mut wj: int = 0;
    let ghost mut wej: int = 0;
    let mut i: usize = 0;
    while i < n
        invariant
            n == orig.len(),
            chains@ == orig,
            chains_ok(orig),
            i <= n,
            start_chain_idx < n,
            search_state(orig, i as int, 0, 0, 0, max_dist as int, start_chain_idx as int, wj, if start_from_first { 0 } else { 1 }, wej),
            max_dist == 0 ==> start_chain_idx == 0 && start_from_first,
        decreases n - i,
    {
        let first_i = chains[i][0];
        let last_i = chains[i][chains[i].len() - 1];
        proof {
            lemma_search_cursor(orig, i as int, 0, 0, 0, i as int, i + 1, 0, 0, max_dist as int, start_chain_idx as int, wj, if start_from_first { 0 } else { 1 }, wej);
        }
        let mut j: usize = i + 1;
        while j < n
            invariant
                n == orig.len(),
                chains@ == orig,
                chains_ok(orig),
                i < n,
                i < j <= n,
                first_i == chain_end(orig[i as int]@, 0),
                last_i == chain_end(orig[i as int]@, 1),
                start_chain_idx < n,
                search_state(orig, i as int, j as int, 0, 0, max_dist as int, start_chain_idx as int, wj, if start_from_first { 0 } else { 1 }, wej),
                max_dist == 0 ==> start_chain_idx == 0 && start_from_first,
            decreases n - j,
        {
            let first_j = chains[j][0];
            let last_j = chains[j][chains[j].len() - 1];
            proof {
                assert(all_coords_ok(orig[i as int]@));
                assert(all_coords_ok(orig[j as int]@));
                assert(coord_ok(orig[i as int]@[0]));
                assert(coord_ok(orig[i as int]@[orig[i as int]@.len() - 1]));
                assert(coord_ok(orig[j as int]@[0]));
                assert(coord_ok(orig[j as int]@[orig[j as int]@.len() - 1]));
                crate::geometry::lemma_dist_bounded(first_i, first_j);
                crate::geometry::lemma_dist_bounded(first_i, last_j);
                crate::geometry::lemma_dist_bounded(last_i, first_j);
                crate::geometry::lemma_dist_bounded(last_i, last_j);
            }
            let mut k: usize = 0;
            while k < 4
                invariant
                    n == orig.len(),
                    i < j < n,
                    k <= 4,
                    first_i == chain_end(orig[i as int]@, 0),
                    last_i == chain_end(orig[i as int]@, 1),
                    first_j == chain_end(orig[j as int]@, 0),
                    last_j == chain_end(orig[j as int]@, 1),
                    dist_sq_spec(first_i, first_j) <= u64::MAX,
                    dist_sq_spec(first_i, last_j) <= u64::MAX,
                    dist_sq_spec(last_i, first_j) <= u64::MAX,
                    dist_sq_spec(last_i, last_j) <= u64::MAX,
                    start_chain_idx < n,
                    search_state(orig, i as int, j as int, k as int / 2, k as int % 2, max_dist as int, start_chain_idx as int, wj, if start_from_first { 0 } else { 1 }, wej),
                    max_dist == 0 ==> start_chain_idx == 0 && start_from_first,
                decreases 4 - k,
            {
                let a = if k < 2 {
                    first_i
                } else {
                    last_i
                };
                let b = if k % 2 == 0 {
                    first_j
                } else {
                    last_j
                };
                let d = point_distance_sq(a, b);
                let ghost m0 = max_dist as int;
                let ghost s0 = start_chain_idx as int;
                let ghost wj0 = wj;
                let ghost se0: int = if start_from_first { 0 } else { 1 };
                let ghost wej0 = wej;
                proof {
                    assert(d == pair_dist(orig, i as int, j as int, k as int / 2, k as int % 2));
                    lemma_search_step(orig, i as int, j as int, k as int / 2, k as int % 2, m0, s0, wj0, se0, wej0);
                }
                if d > max_dist {
                    max_dist = d;
                    start_chain_idx = i;
                    start_from_first = k < 2;
                    proof {
                        wj = j as int;
                        wej = (k % 2) as int;
                    }
                }
                k = k + 1;
            }
            proof {
                lemma_search_cursor(orig, i as int, j as int, 2, 0, i as int, j + 1, 0, 0, max_dist as int, start_chain_idx as int, wj, if start_from_first { 0 } else { 1 }, wej);
            }
            j = j + 1;
        }
        proof {
            lemma_search_cursor(orig, i as int, j as int, 0, 0, i + 1, 0, 0, 0, max_dist as int, start_chain_idx as int, wj, if start_from_first { 0 } else { 1 }, wej);
        }
        i = i + 1;
    }
    let ghost se: int = if start_from_first { 0 } else { 1 };
    let ghost plan = stitch_plan(orig, start_chain_idx as int, se);
    proof {
        lemma_search_done(orig, max_dist as int, start_chain_idx as int, wj, se, wej);
        assert forall|a: int, ea: int, b: int, eb: int|
            0 <= a < n && a < b < n && 0 <= ea < 2 && 0 <= eb < 2 implies #[trigger] dist_sq_spec(
            chain_end(orig[a]@, ea),
            chain_end(orig[b]@, eb),
        ) <= max_dist by {
            assert(pair_dist(orig, a, b, ea, eb) <= max_dist);
        }
        if max_dist > 0 {
            assert(end_pair(n as int, start_chain_idx as int, wj, se, wej));
        }
    }
    let ghost s_e: int = if start_from_first {
        0
    } else {
        1
    };
    let ghost s_pt = chain_end(orig[start_chain_idx as int]@, s_e);
    proof {
        if n >= 2 {
            assert forall|a: int, ea: int, b: int, eb: int|
                0 <= a < n && 0 <= b < n && a != b && 0 <= ea < 2 && 0 <= eb < 2 implies #[trigger] dist_sq_spec(
                chain_end(orig[a]@, ea),
                chain_end(orig[b]@, eb),
            ) <= max_dist by {
                if b < a {
                    lemma_dist_sym(chain_end(orig[a]@, ea), chain_end(orig[b]@, eb));
                    assert(dist_sq_spec(chain_end(orig[b]@, eb), chain_end(orig[a]@, ea)) <= max_dist);
                }
            }
            if max_dist == 0 {
                assert(dist_sq_spec(chain_end(orig[0]@, 0), chain_end(orig[1]@, 0)) <= max_dist);
                assert(dist_sq_spec(s_pt, chain_end(orig[1]@, 0)) >= 0) by (nonlinear_arith);
                assert(farthest_end(orig, s_pt)) by {
                    assert(s_pt == chain_end(orig[0]@, 0));
                    assert(ends_within(orig, dist_sq_spec(s_pt, chain_end(orig[1]@, 0))));
                }
            } else {
                assert(farthest_end(orig, s_pt)) by {
                    assert(ends_within(orig, dist_sq_spec(s_pt, chain_end(orig[wj]@, wej))));
                }
            }
        }
    }
    // Orient the starting chain so it begins at the extreme end.
    if !start_from_first {
        let rev = reversed_chain(&chains[start_chain_idx]);
        let ghost before = chains@;
        chains.set(start_chain_idx, rev);
        proof {
            assert(chains@ == before.update(start_chain_idx as int, rev));
        }
    }
    proof {
        let sc = chains@[start_chain_idx as int]@;
        assert(sc[0] == s_pt);
        assert forall|x: (u32, u32)| held(Seq::empty(), orig, x) implies held(Seq::empty(), chains@, x) by {
            let k = choose|k: int| 0 <= k < orig.len() && (#[trigger] orig[k]@).contains(x);
            if k == start_chain_idx && !start_from_first {
                let t = choose|t: int| 0 <= t < orig[k]@.len() && orig[k]@[t] == x;
                assert(chains@[k]@[orig[k]@.len() - 1 - t] == x);
                assert(chains@[k]@.contains(x));
            } else {
                assert(chains@[k] == orig[k]);
            }
        }
        assert forall|c: int| 0 <= c < chains@.len() implies (#[trigger] chains@[c]@).len() > 0 && all_coords_ok(
            chains@[c]@,
        ) by {
            if c == start_chain_idx && !start_from_first {
                assert forall|t: int| 0 <= t < chains@[c]@.len() implies coord_ok(#[trigger] chains@[c]@[t]) by {
                    assert(chains@[c]@[t] == orig[c]@[orig[c]@.len() - 1 - t]);
                }
            } else {
                assert(chains@[c] == orig[c]);
            }
        }
        assert forall|c: int, t: int| 0 <= c < orig.len() && 0 <= t < orig[c]@.len() implies #[trigger] held(
            Seq::empty(),
            chains@,
            orig[c]@[t],
        ) by {
            assert(orig[c]@.contains(orig[c]@[t]));
            assert(held(Seq::empty(), orig, orig[c]@[t]));
        }
    }
    let ghost before_swap = chains@;
    vec_swap(&mut chains, 0, start_chain_idx);
    proof {
        assert forall|x: (u32, u32)| held(Seq::empty(), before_swap, x) implies held(Seq::empty(), chains@, x) by {
            let k = choose|k: int| 0 <= k < before_swap.len() && (#[trigger] before_swap[k]@).contains(x);
            if k == 0 {
                assert(chains@[start_chain_idx as int] == before_swap[0]);
            } else if k == start_chain_idx {
                assert(chains@[0] == before_swap[k]);
            } else {
                assert(chains@[k] == before_swap[k]);
            }
        }
        assert forall|c: int| 0 <= c < chains@.len() implies (#[trigger] chains@[c]@).len() > 0 && all_coords_ok(
            chains@[c]@,
        ) by {
            if c == 0 {
                assert(chains@[c] == before_swap[start_chain_idx as int]);
            } else if c == start_chain_idx {
                assert(chains@[c] == before_swap[0]);
            } else {
                assert(chains@[c] == before_swap[c]);
            }
        }
        assert(chains@[0]@[0] == s_pt);
    }
    let ghost before_take = chains@;
    let mut unified = chains.swap_remove(0);
    proof {
        assert forall|x: (u32, u32)| held(Seq::empty(), before_take, x) implies held(unified@, chains@, x) by {
            let k = choose|k: int| 0 <= k < before_take.len() && (#[trigger] before_take[k]@).contains(x);
            if k == 0 {
            } else if k == before_take.len() - 1 {
                assert(chains@[0] == before_take[k]);
            } else {
                assert(chains@[k] == before_take[k]);
            }
        }
        assert forall|c: int| 0 <= c < chains@.len() implies (#[trigger] chains@[c]@).len() > 0 && all_coords_ok(
            chains@[c]@,
        ) by {
            if c == 0 {
                assert(chains@[c] == before_take[before_take.len() - 1]);
            } else {
                assert(chains@[c] == before_take[c]);
            }
        }
        assert forall|c: int, t: int| 0 <= c < orig.len() && 0 <= t < orig[c]@.len() implies #[trigger] held(
            unified@,
            chains@,
            orig[c]@[t],
        ) by {
            assert(held(Seq::empty(), before_swap, orig[c]@[t]));
            assert(held(Seq::empty(), before_take, orig[c]@[t]));
        }
        if n == 1 {
            assert(unified == orig[0]);
        }
    }
    let ghost u0 = unified@;
    let ghost ids_sw: Seq<int> = Seq::new(n as nat, |i: int| if i == 0 {
        start_chain_idx as int
    } else if i == start_chain_idx {
        0
    } else {
        i
    });
    let ghost mut done: Seq<Seq<(u32, u32)>> = seq![unified@];
    let ghost mut done_ids: Seq<int> = seq![start_chain_idx as int];
    let ghost mut ids: Seq<int> = ids_sw.update(0, ids_sw.last()).drop_last();
    proof {
        lemma_initial_ids(ids_sw, start_chain_idx as int, n as nat);
        lemma_perm_swap_remove(Seq::empty(), ids_sw, 0, n as nat);
        assert(Seq::<int>::empty().push(ids_sw[0]) =~= done_ids);
        assert(Seq::<int>::empty() + ids_sw =~= ids_sw);
        assert forall|i: int| 0 <= i < chains@.len() implies #[trigger] chains@[i]@ == orig[ids[i]]@ by {
            let i2 = if i == 0 {
                before_take.len() - 1
            } else {
                i
            };
            assert(chains@[i] == before_take[i2]);
            assert(ids[i] == ids_sw[i2]);
            if i2 == start_chain_idx {
                assert(before_take[i2] == before_swap[0]);
            } else {
                assert(before_take[i2] == before_swap[i2]);
            }
        }
        assert(unified@ == before_swap[start_chain_idx as int]@);
        assert(done[0] == orig[done_ids[0]]@ || done[0] == orig[done_ids[0]]@.reverse());
        assert(glued(done) == unified@);
        assert(chains@ =~= rest_after_start(orig, start_chain_idx as int));
        assert(unified@ == (if se == 0 { orig[start_chain_idx as int]@ } else { orig[start_chain_idx as int]@.reverse() }));
        assert(done + greedy_plan(glued(done).last(), chains@) =~= plan);
    }
    while chains.len() > 0
        invariant
            plan == stitch_plan(orig, start_chain_idx as int, se),
            stitch_start(orig, start_chain_idx as int, se),
            done + greedy_plan(glued(done).last(), chains@) == plan,
            chains_ok(chains@),
            unified@.len() > 0,
            unified@[0] == s_pt,
            all_coords_ok(unified@),
            covers(unified@, chains@, orig),
            n == 1 ==> chains@.len() == 0 && unified@ == u0,
            n == orig.len(),
            done.len() >= 1,
            unified@ == glued(done),
            nearest_first(done),
            waits_farther(done, chains@),
            ids.len() == chains@.len(),
            done_ids.len() == done.len(),
            is_perm(done_ids + ids, n as nat),
            forall|i: int| 0 <= i < chains@.len() ==> #[trigger] chains@[i]@ == orig[ids[i]]@,
            forall|k: int|
                0 <= k < done.len() ==> #[trigger] done[k] == orig[done_ids[k]]@ || done[k] == orig[done_ids[k]]@.reverse(),
        decreases chains@.len(),
    {
        let tail = unified[unified.len() - 1];
        proof {
            assert(coord_ok(unified@[unified@.len() - 1]));
        }
        let mut best_idx: usize = 0;
        let mut best_dist: u64 = u64::MAX;
        let mut best_flip = false;
        let mut k: usize = 0;
        while k < chains.len()
            invariant
                chains_ok(chains@),
                coord_ok(tail),
                k <= chains@.len(),
                best_idx < chains@.len(),
                k == 0 ==> best_dist == u64::MAX,
                k > 0 ==> best_dist == dist_sq_spec(
                    tail,
                    chain_end(chains@[best_idx as int]@, if best_flip { 1 } else { 0 }),
                ),
                forall|j: int, e: int|
                    0 <= j < k && 0 <= e < 2 ==> best_dist <= #[trigger] dist_sq_spec(tail, chain_end(chains@[j]@, e)),
                k > 0 ==> best_idx < k && best_dist == end_key(tail, chains@[best_idx as int]@) && best_flip == (dist_sq_spec(
                    tail,
                    chains@[best_idx as int]@.last(),
                ) < dist_sq_spec(tail, chains@[best_idx as int]@[0])),
                k > 0 ==> forall|j: int| 0 <= j < best_idx ==> end_key(tail, (#[trigger] chains@[j])@) > best_dist,
                forall|j: int| 0 <= j < k ==> end_key(tail, (#[trigger] chains@[j])@) >= best_dist,
            decreases chains@.len() - k,
        {
            let c0 = chains[k][0];
            let cl = chains[k][chains[k].len() - 1];
            proof {
                assert(all_coords_ok(chains@[k as int]@));
                assert(coord_ok(chains@[k as int]@[0]));
                assert(coord_ok(chains@[k as int]@[chains@[k as int]@.len() - 1]));
                crate::geometry::lemma_dist_bounded(tail, c0);
                crate::geometry::lemma_dist_bounded(tail, cl);
            }
            let d_first = point_distance_sq(tail, c0);
            let d_last = point_distance_sq(tail, cl);
            let (d, flip) = if d_first <= d_last {
                (d_first, false)
            } else {
                (d_last, true)
            };
            if d < best_dist {
                best_dist = d;
                best_idx = k;
                best_flip = flip;
            }
            proof {
                assert(d_first == dist_sq_spec(tail, chain_end(chains@[k as int]@, 0)));
                assert(d_last == dist_sq_spec(tail, chain_end(chains@[k as int]@, 1)));
                assert(d == end_key(tail, chains@[k as int]@));
                assert forall|j: int| 0 <= j < k + 1 implies end_key(tail, (#[trigger] chains@[j])@) >= best_dist by {
                    if j < k {
                        assert(best_dist <= dist_sq_spec(tail, chain_end(chains@[j]@, 0)));
                        assert(best_dist <= dist_sq_spec(tail, chain_end(chains@[j]@, 1)));
                    }
                }
            }
            k = k + 1;
        }
        let ghost before = chains@;
        let taken = chains.swap_remove(best_idx);
        let next = if best_flip {
            reversed_chain(&taken)
        } else {
            taken
        };
        proof {
            assert(before[best_idx as int] == taken);
            assert(forall|x: (u32, u32)| taken@.contains(x) ==> next@.contains(x)) by {
                assert forall|x: (u32, u32)| taken@.contains(x) implies next@.contains(x) by {
                    if best_flip {
                        let t = choose|t: int| 0 <= t < taken@.len() && taken@[t] == x;
                        assert(next@[taken@.len() - 1 - t] == x);
                    }
                }
            }
            assert(next@.len() > 0);
            assert(all_coords_ok(next@)) by {
                assert forall|t: int| 0 <= t < next@.len() implies coord_ok(#[trigger] next@[t]) by {
                    if best_flip {
                        assert(next@[t] == taken@[taken@.len() - 1 - t]);
                    } else {
                        assert(next@[t] == taken@[t]);
                    }
                }
            }
            assert(coord_ok(next@[0]));
            crate::gaps::lemma_gap_points_bounded(tail, next@[0], 0x8000_0000);
        }
        proof {
            assert(tail == glued(done).last());
            assert(next@[0] == chain_end(before[best_idx as int]@, if best_flip { 1 } else { 0 })) by {
                if best_flip {
                    assert(next@[0] == taken@[taken@.len() - 1]);
                }
            }
            assert(next@ == before[best_idx as int]@ || next@ == before[best_idx as int]@.reverse());
            lemma_greedy_extend(done, before, best_idx as int, next@);
            assert(first_nearest(tail, before, best_idx as int));
            let b = choose|b: int| first_nearest(tail, before, b);
            lemma_first_nearest_unique(tail, before, b, best_idx as int);
            assert(next@ == oriented(tail, before[best_idx as int]@));
            assert(chains@ =~= swap_removed(before, best_idx as int));
            assert(greedy_plan(tail, before) == seq![next@] + greedy_plan(next@.last(), chains@));
        }
        let next_head = next[0];
        let gap = crate::gaps::interpolate_gap(tail, next_head);
        let ghost u_before = unified@;
        let mut g: usize = 0;
        while g < gap.len()
            invariant
                g <= gap@.len(),
                unified@ == u_before + gap@.take(g as int),
                forall|t: int| 0 <= t < gap@.len() ==> coord_ok(#[trigger] gap@[t]),
            decreases gap@.len() - g,
        {
            unified.push(gap[g]);
            proof {
                assert(gap@.take(g as int + 1) =~= gap@.take(g as int).push(gap@[g as int]));
                assert(unified@ =~= u_before + gap@.take(g as int + 1));
            }
            g = g + 1;
        }
        let u_last = unified[unified.len() - 1];
        let start: usize = if next_head.0 == u_last.0 && next_head.1 == u_last.1 {
            1
        } else {
            0
        };
        let ghost u_mid = unified@;
        let mut t: usize = start;
        while t < next.len()
            invariant
                start <= t <= next@.len(),
                unified@ == u_mid + next@.subrange(start as int, t as int),
            decreases next@.len() - t,
        {
            unified.push(next[t]);
            proof {
                assert(next@.subrange(start as int, t as int + 1) =~= next@.subrange(start as int, t as int).push(next@[t as int]));
                assert(unified@ =~= u_mid + next@.subrange(start as int, t as int + 1));
            }
            t = t + 1;
        }
        proof {
            assert(u_mid =~= u_before + gap@);
            assert(unified@ =~= u_before + gap@ + next@.subrange(start as int, next@.len() as int));
            assert(unified@[0] == u_before[0]);
            // every point of `next` is now in `unified`
            assert forall|x: (u32, u32)| next@.contains(x) implies unified@.contains(x) by {
                let q = choose|q: int| 0 <= q < next@.len() && next@[q] == x;
                if q >= start {
                    assert(unified@[u_mid.len() + q - start] == x);
                } else {
                    assert(u_mid[u_mid.len() - 1] == x);
                    assert(unified@[u_mid.len() - 1] == x);
                }
            }
            assert forall|x: (u32, u32)| u_before.contains(x) implies unified@.contains(x) by {
                let q = choose|q: int| 0 <= q < u_before.len() && u_before[q] == x;
                assert(unified@[q] == x);
            }
            assert forall|c: int, i2: int| 0 <= c < orig.len() && 0 <= i2 < orig[c]@.len() implies #[trigger] held(
                unified@,
                chains@,
                orig[c]@[i2],
            ) by {
                let x = orig[c]@[i2];
                assert(held(u_before, before, x));
                if !u_before.contains(x) {
                    let kk = choose|kk: int| 0 <= kk < before.len() && (#[trigger] before[kk]@).contains(x);
                    if kk == best_idx {
                        assert(taken@.contains(x));
                    } else if kk == before.len() - 1 {
                        assert(chains@[best_idx as int] == before[kk]);
                    } else {
                        assert(chains@[kk] == before[kk]);
                    }
                }
            }
            assert forall|c: int| 0 <= c < chains@.len() implies (#[trigger] chains@[c]@).len() > 0 && all_coords_ok(
                chains@[c]@,
            ) by {
                if c == best_idx {
                    assert(chains@[c] == before[before.len() - 1]);
                } else {
                    assert(chains@[c] == before[c]);
                }
            }
            assert forall|q: int| 0 <= q < unified@.len() implies coord_ok(#[trigger] unified@[q]) by {
                if q < u_before.len() {
                    assert(unified@[q] == u_before[q]);
                } else if q < u_mid.len() {
                    assert(unified@[q] == gap@[q - u_before.len()]);
                } else {
                    assert(unified@[q] == next@[q - u_mid.len() + start]);
                }
            }
            lemma_glued_push(done, next@);
            assert(unified@ == glued(done.push(next@)));
            let ghost old_ids = ids;
            let ghost old_done_ids = done_ids;
            lemma_perm_swap_remove(old_done_ids, old_ids, best_idx as int, n as nat);
            assert forall|i: int| 0 <= i < chains@.len() implies #[trigger] chains@[i]@ == orig[old_ids.update(
                best_idx as int,
                old_ids.last(),
            ).drop_last()[i]]@ by {
                if i == best_idx {
                    assert(chains@[i] == before[before.len() - 1]);
                } else {
                    assert(chains@[i] == before[i]);
                }
            }
            let ghost old_done = done;
            lemma_glued_last(old_done, next@);
            assert(old_done.push(next@) + greedy_plan(next@.last(), chains@) =~= old_done + (seq![next@] + greedy_plan(
                next@.last(),
                chains@,
            )));
            done = done.push(next@);
            done_ids = old_done_ids.push(old_ids[best_idx as int]);
            ids = old_ids.update(best_idx as int, old_ids.last()).drop_last();
            assert forall|k2: int| 0 <= k2 < done.len() implies #[trigger] done[k2] == orig[done_ids[k2]]@ || done[k2]
                == orig[done_ids[k2]]@.reverse() by {
                if k2 < old_done.len() {
                    assert(done[k2] == old_done[k2]);
                    assert(done_ids[k2] == old_done_ids[k2]);
                } else {
                    assert(done[k2] == next@);
                    assert(before[best_idx as int]@ == orig[old_ids[best_idx as int]]@);
                }
            }
        }
    }
    proof {
        assert forall|c: int, i2: int| 0 <= c < orig.len() && 0 <= i2 < orig[c]@.len() implies unified@.contains(
            #[trigger] orig[c]@[i2],
        ) by {
            assert(held(unified@, chains@, orig[c]@[i2]));
        }
        assert(done_ids + ids =~= done_ids);
        assert(is_perm(done_ids, orig.len() as nat));
        assert(reordering(done, orig));
        assert(stitch_order(orig, done));
        assert(done + Seq::<Seq<(u32, u32)>>::empty() =~= done);
        assert(done == plan);
        assert(stitch_start(orig, start_chain_idx as int, se) && unified@ == glued(stitch_plan(orig, start_chain_idx as int, se)));
    }
    unified
}

// ----------------------------------------------------------------
//  Chain building
// ----------------------------------------------------------------

/// `chain` is the ordered centre line of the connected component `comp`:
/// the component thinned along its curve axis, walked greedily from the
/// point first along that axis, always on to the first nearest point of the
/// working list.
pub open spec fn component_chain(comp: Seq<(u32, u32)>, chain: Seq<(u32, u32)>) -> bool {
    let axis = curve_axis_spec(comp);
    let thin = thin_component_spec(comp, axis);
    &&& chain.len() == thin.len()
    &&& keys_along(chain, axis).to_multiset() == keys_along(thin, axis).to_multiset()
    &&& thin.len() > 0 ==> chain[0] == from_axis_key(sorted_perm(keys_along(thin, axis))[0], axis)
    &&& greedy_walk(chain)
    &&& chain == ordered_walk(thin, axis)
}

/// `r` is built from the chains of the 8-connected components of `pixels`
/// (largest first, equal sizes in the order of their first pixels):
/// the one chain itself when there is one component, else the chains
/// joined in a greedy nearest-first order starting at an end of a farthest
/// pair of chain ends (the first such pair visited, and the first nearest
/// chain of the working list at each step).
pub open spec fn built_from_components(pixels: Seq<(u32, u32)>, r: Seq<(u32, u32)>) -> bool {
    exists|comps: Seq<Vec<(u32, u32)>>, cc: Seq<Vec<(u32, u32)>>|
        #[trigger] is_component_split(pixels, 1, comps) && comps_by_size(comps) && ordered_by_first_pixel(pixels, comps)
            && #[trigger] component_chains(comps, cc) && (cc.len()
            == 1 ==> r == cc[0]@) && (cc.len() >= 2 ==> farthest_end(cc, r[0]) && (exists|a: Seq<Seq<(u32, u32)>>|
            #[trigger] stitch_order(cc, a) && r == glued(a)) && exists|st: int, e: int|
            #[trigger] stitch_start(cc, st, e) && r == glued(stitch_plan(cc, st, e)))
}

/// `cc` holds the chain of each component of `comps`, in order.
pub open spec fn component_chains(comps: Seq<Vec<(u32, u32)>>, cc: Seq<Vec<(u32, u32)>>) -> bool {
    &&& cc.len() == comps.len()
    &&& forall|k: int| 0 <= k < cc.len() ==> component_chain(comps[k]@, #[trigger] cc[k]@)
}

/// Builds one ordered chain from possibly disconnected curve fragments:
/// every 8-connected component is thinned to its centre line along its
/// chosen axis and ordered by nearest-neighbour walking; several resulting
/// chains are stitched into one, starting from an end of a farthest pair of
/// chain ends.
pub fn build_pixel_chains(pixels: &[(u32, u32)]) -> (chains: Vec<Vec<(u32, u32)>>)
    requires
        radius_ok(pixels@, 1),
    ensures
        pixels@.len() == 0 ==> chains@.len() == 0,
        pixels@.len() > 0 ==> chains@.len() == 1 && chains@[0]@.len() > 0 && all_coords_ok(chains@[0]@),
        forall|c: int| 0 <= c < chains@.len() ==> (#[trigger] chains@[c]@).len() > 0,
        pixels@.len() > 0 ==> built_from_components(pixels@, chains@[0]@),
{
    if pixels.len() == 0 {
        return Vec::new();
    }
    let comps = split_into_connected_components(pixels, 1);
    let ghost cs = comps@;
    let mut chains: Vec<Vec<(u32, u32)>> = Vec::new();
    let mut ci: usize = 0;
    while ci < comps.len()
        invariant
            cs == comps@,
            is_component_split(pixels@, 1, cs),
            radius_ok(pixels@, 1),
            ci <= cs.len(),
            chains_ok(chains@),
            chains@.len() == ci,
            forall|k: int| 0 <= k < ci ==> component_chain(cs[k]@, #[trigger] chains@[k]@),
        decreases cs.len() - ci,
    {
        let component = &comps[ci];
        proof {
            assert forall|t: int| 0 <= t < component@.len() implies coord_ok(#[trigger] component@[t]) by {
                assert(in_comps(cs, component@[t])) by {
                    assert(cs[ci as int]@[t] == component@[t]);
                }
                assert(pixels@.contains(component@[t]));
                let u = choose|u: int| 0 <= u < pixels@.len() && pixels@[u] == component@[t];
                assert(pixels@[u].0 + 1 <= 0x7FFF_FFFF);
            }
            assert((cs[ci as int]@).len() > 0);
        }
        let axis = choose_curve_axis(component);
        let thin_points = thin_component_with_axis(component, axis);
        proof {
            assert forall|t: int| 0 <= t < thin_points@.len() implies coord_ok(#[trigger] thin_points@[t]) by {
                assert(component@.contains(thin_points@[t]));
                let u = choose|u: int| 0 <= u < component@.len() && component@[u] == thin_points@[t];
                assert(coord_ok(component@[u]));
            }
        }
        let chain = order_component_with_axis(&thin_points, axis);
        proof {
            assert forall|t: int| 0 <= t < chain@.len() implies coord_ok(#[trigger] chain@[t]) by {
                assert(thin_points@.contains(chain@[t]));
                let u = choose|u: int| 0 <= u < thin_points@.len() && thin_points@[u] == chain@[t];
                assert(coord_ok(thin_points@[u]));
            }
        }
        let ghost old_chains = chains@;
        proof {
            assert(component_chain(cs[ci as int]@, chain@));
        }
        chains.push(chain);
        proof {
            assert forall|c: int| 0 <= c < chains@.len() implies (#[trigger] chains@[c]@).len() > 0 && all_coords_ok(
                chains@[c]@,
            ) by {
                if c < old_chains.len() {
                    assert(chains@[c] == old_chains[c]);
                }
            }
            assert forall|k: int| 0 <= k < ci + 1 implies component_chain(cs[k]@, #[trigger] chains@[k]@) by {
                if k < ci {
                    assert(chains@[k] == old_chains[k]);
                }
            }
        }
        ci = ci + 1;
    }
    proof {
        assert(pixels@.contains(pixels@[0]));
        assert(in_comps(cs, pixels@[0]));
    }
    if chains.len() == 1 {
        proof {
            assert((chains@[0]@).len() > 0);
            assert(component_chains(cs, chains@));
            assert(built_from_components(pixels@, chains@[0]@));
        }
        return chains;
    }
    let ghost cc = chains@;
    let stitched = stitch_chains(chains);
    proof {
        assert(component_chains(cs, cc));
        assert(built_from_components(pixels@, stitched@));
    }
    let mut out: Vec<Vec<(u32, u32)>> = Vec::new();
    out.push(stitched);
    out
}

} // verus!
