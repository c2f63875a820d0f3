//! Axis detection inside a painted mask: the long straight strokes are the
//! axes, the short protrusions along them are tick marks, and the outermost
//! ticks (or the stroke's ends) are the axis end points.
use vstd::prelude::*;
use crate::tally::{is_peak_line, peak_of, peak_line};
use crate::keys::{sort_keys, dedup_sorted, strictly_sorted};
use crate::spatial::{in_comps, is_component_split, radius_ok, split_into_connected_components};
use crate::pixels::{collect_masked_non_bg_pixels, masked_fg_pixels};

verus! {

broadcast use vstd::seq_lib::group_to_multiset_ensures;

/// Position of `p` along an axis: x for a horizontal axis, y for a vertical one.
pub open spec fn along(p: (u32, u32), horizontal: bool) -> u32 {
    if horizontal {
        p.0
    } else {
        p.1
    }
}

/// Position of `p` across an axis: its row for a horizontal axis, its column
/// for a vertical one.
pub open spec fn across(p: (u32, u32), horizontal: bool) -> u32 {
    if horizontal {
        p.1
    } else {
        p.0
    }
}

/// Distance of `p` from the axis line at `line`.
pub open spec fn offset(p: (u32, u32), line: u32, horizontal: bool) -> int {
    let d = across(p, horizontal) - line;
    if d < 0 {
        -d
    } else {
        d
    }
}

/// The point at position `a` along the axis line at `line`.
pub open spec fn point_on_line(a: u32, line: u32, horizontal: bool) -> (u32, u32) {
    if horizontal {
        (a, line)
    } else {
        (line, a)
    }
}

/// The rows (for `horizontal`) or columns of the points.
pub open spec fn across_values(s: Seq<(u32, u32)>, horizontal: bool) -> Seq<u64> {
    Seq::new(s.len(), |i: int| across(s[i], horizontal) as u64)
}

/// Absolute difference.
pub open spec fn abs_diff(a: int, b: int) -> int {
    if a < b {
        b - a
    } else {
        a - b
    }
}

/// How a connected stroke takes part in axis detection.
#[derive(PartialEq, Eq, Structural, Clone, Copy, Debug)]
pub enum StrokeKind {
    /// Too short in both directions (digits, dots): ignored.
    Noise,
    /// Long only horizontally: all of it may belong to the x axis.
    Horizontal,
    /// Long only vertically: all of it may belong to the y axis.
    Vertical,
    /// Long in both directions (an L or a cross): split around its densest row and column.
    Crossing,
}

/// A stroke's kind with its densest row and densest column.
#[derive(Clone, Copy)]
pub struct StrokeClass {
    pub kind: StrokeKind,
    pub row: u32,
    pub col: u32,
}

/// Densest row of a stroke (three-row window, lowest row on ties).
pub open spec fn stroke_row(s: Seq<(u32, u32)>) -> u64 {
    peak_of(across_values(s, true), true).1
}

/// Densest column of a stroke (three-column window, lowest column on ties).
pub open spec fn stroke_col(s: Seq<(u32, u32)>) -> u64 {
    peak_of(across_values(s, false), true).1
}

/// The kind of a stroke given the minimum axis density `l_min`.
pub open spec fn stroke_kind(s: Seq<(u32, u32)>, l_min: u32) -> StrokeKind {
    let dh = peak_of(across_values(s, true), true).0;
    let dv = peak_of(across_values(s, false), true).0;
    if dh < l_min && dv < l_min {
        StrokeKind::Noise
    } else if dh >= l_min && dv < l_min {
        StrokeKind::Horizontal
    } else if dv >= l_min && dh < l_min {
        StrokeKind::Vertical
    } else {
        StrokeKind::Crossing
    }
}

/// Whether pixel `p` of stroke `s` goes to the x axis pool (`horizontal`) or
/// to the y axis pool; a crossing stroke gives a pixel to the axis whose line
/// it is nearer to, within `margin`, so pixels near the corner go to both.
pub open spec fn routes_to(s: Seq<(u32, u32)>, p: (u32, u32), l_min: u32, margin: u32, horizontal: bool) -> bool {
    let to_row = abs_diff(p.1 as int, stroke_row(s) as int);
    let to_col = abs_diff(p.0 as int, stroke_col(s) as int);
    match stroke_kind(s, l_min) {
        StrokeKind::Noise => false,
        StrokeKind::Horizontal => horizontal,
        StrokeKind::Vertical => !horizontal,
        StrokeKind::Crossing => if horizontal {
            to_row <= to_col + margin
        } else {
            to_col <= to_row + margin
        },
    }
}

/// The pixels among the first `n` of stroke `s` that go to the given pool, in order.
pub open spec fn stroke_part(s: Seq<(u32, u32)>, l_min: u32, margin: u32, horizontal: bool, n: nat) -> Seq<
    (u32, u32),
>
    decreases n,
{
    if n == 0 {
        Seq::empty()
    } else {
        let prev = stroke_part(s, l_min, margin, horizontal, (n - 1) as nat);
        if routes_to(s, s[n - 1], l_min, margin, horizontal) {
            prev.push(s[n - 1])
        } else {
            prev
        }
    }
}

/// The pool of pixels for one axis: the parts of the first `n` strokes that
/// go to it, stroke after stroke.
pub open spec fn axis_pool(strokes: Seq<Vec<(u32, u32)>>, l_min: u32, margin: u32, horizontal: bool, n: nat) -> Seq<
    (u32, u32),
>
    decreases n,
{
    if n == 0 {
        Seq::empty()
    } else {
        axis_pool(strokes, l_min, margin, horizontal, (n - 1) as nat) + stroke_part(
            strokes[n - 1]@,
            l_min,
            margin,
            horizontal,
            strokes[n - 1]@.len(),
        )
    }
}

/// The rows or columns of the points, in order.
fn across_list(points: &Vec<(u32, u32)>, horizontal: bool) -> (r: Vec<u64>)
    ensures
        r@ == across_values(points@, horizontal),
{
    let mut r: Vec<u64> = Vec::new();
    let mut i: usize = 0;
    while i < points.len()
        invariant
            i <= points.len(),
            r@.len() == i,
            forall|j: int| 0 <= j < i ==> r@[j] == across(#[trigger] points@[j], horizontal) as u64,
        decreases points.len() - i,
    {
        let (x, y) = points[i];
        if horizontal {
            r.push(y as u64);
        } else {
            r.push(x as u64);
        }
        i = i + 1;
    }
    proof {
        assert(r@ =~= across_values(points@, horizontal));
    }
    r
}

/// Classifies a stroke by the density of its densest row and column: a
/// direction counts as long when some three-line window holds at least
/// `l_min` pixels.
pub fn classify_stroke(stroke: &Vec<(u32, u32)>, l_min: u32) -> (c: StrokeClass)
    requires
        stroke.len() > 0,
    ensures
        c.kind == stroke_kind(stroke@, l_min),
        c.row == stroke_row(stroke@),
        c.col == stroke_col(stroke@),
{
    let rows = across_list(stroke, true);
    let cols = across_list(stroke, false);
    let rp = peak_line(&rows, true);
    let cp = peak_line(&cols, true);
    match (rp, cp) {
        (Some((dh, ay)), Some((dv, ax))) => {
            let lm = l_min as u128;
            let kind = if dh < lm && dv < lm {
                StrokeKind::Noise
            } else if dh >= lm && dv < lm {
                StrokeKind::Horizontal
            } else if dv >= lm && dh < lm {
                StrokeKind::Vertical
            } else {
                StrokeKind::Crossing
            };
            proof {
                let j = choose|j: int| 0 <= j < rows@.len() && #[trigger] rows@[j] == ay;
                let k = choose|k: int| 0 <= k < cols@.len() && #[trigger] cols@[k] == ax;
                assert(rows@[j] == across(stroke@[j], true) as u64);
                assert(cols@[k] == across(stroke@[k], false) as u64);
            }
            StrokeClass { kind, row: ay as u32, col: ax as u32 }
        },
        _ => {
            proof {
                assert(false);
            }
            StrokeClass { kind: StrokeKind::Noise, row: 0, col: 0 }
        },
    }
}

/// Absolute difference of two coordinates.
fn coord_diff(a: u32, b: u32) -> (d: u64)
    ensures
        d == abs_diff(a as int, b as int),
{
    if a < b {
        (b - a) as u64
    } else {
        (a - b) as u64
    }
}

/// Splits strokes into the x axis pool and the y axis pool: noise strokes are
/// dropped, horizontal and vertical strokes go whole to their axis, and
/// crossing strokes are divided around their densest row and column with
/// overlap `margin`.
pub fn build_axis_pools(strokes: &Vec<Vec<(u32, u32)>>, l_min: u32, margin: u32) -> (r: (
    Vec<(u32, u32)>,
    Vec<(u32, u32)>,
))
    requires
        forall|c: int| 0 <= c < strokes.len() ==> (#[trigger] strokes@[c]@).len() > 0,
    ensures
        r.0@ == axis_pool(strokes@, l_min, margin, true, strokes.len() as nat),
        r.1@ == axis_pool(strokes@, l_min, margin, false, strokes.len() as nat),
{
    let mut xs: Vec<(u32, u32)> = Vec::new();
    let mut ys: Vec<(u32, u32)> = Vec::new();
    let mut k: usize = 0;
    while k < strokes.len()
        invariant
            k <= strokes.len(),
            forall|c: int| 0 <= c < strokes.len() ==> (#[trigger] strokes@[c]@).len() > 0,
            xs@ == axis_pool(strokes@, l_min, margin, true, k as nat),
            ys@ == axis_pool(strokes@, l_min, margin, false, k as nat),
        decreases strokes.len() - k,
    {
        let stroke = &strokes[k];
        let ghost s = stroke@;
        let class = classify_stroke(stroke, l_min);
        let ghost xs0 = xs@;
        let ghost ys0 = ys@;
        let mut i: usize = 0;
        while i < stroke.len()
            invariant
                s == stroke@,
                i <= s.len(),
                class.kind == stroke_kind(s, l_min),
                class.row == stroke_row(s),
                class.col == stroke_col(s),
                xs@ == xs0 + stroke_part(s, l_min, margin, true, i as nat),
                ys@ == ys0 + stroke_part(s, l_min, margin, false, i as nat),
            decreases s.len() - i,
        {
            let p = stroke[i];
            let to_row = coord_diff(p.1, class.row);
            let to_col = coord_diff(p.0, class.col);
            let m = margin as u64;
            let (gx, gy) = match class.kind {
                StrokeKind::Noise => (false, false),
                StrokeKind::Horizontal => (true, false),
                StrokeKind::Vertical => (false, true),
                StrokeKind::Crossing => (to_row <= to_col + m, to_col <= to_row + m),
            };
            proof {
                assert(gx == routes_to(s, s[i as int], l_min, margin, true));
                assert(gy == routes_to(s, s[i as int], l_min, margin, false));
            }
            if gx {
                xs.push(p);
            }
            if gy {
                ys.push(p);
            }
            proof {
                assert(xs@ =~= xs0 + stroke_part(s, l_min, margin, true, (i + 1) as nat));
                assert(ys@ =~= ys0 + stroke_part(s, l_min, margin, false, (i + 1) as nat));
            }
            i = i + 1;
        }
        k = k + 1;
    }
    (xs, ys)
}

/// Positions `i..=j` of `l` hold consecutive integers.
pub open spec fn consecutive(l: Seq<u64>, i: int, j: int) -> bool {
    forall|k: int| i <= k <= j ==> #[trigger] l[k] == l[i] + (k - i)
}

/// `i..=j` is a maximal run of consecutive integers in `l`.
pub open spec fn is_run(l: Seq<u64>, i: int, j: int) -> bool {
    &&& 0 <= i <= j < l.len()
    &&& (i == 0 || l[i - 1] + 1 < l[i])
    &&& (j == l.len() - 1 || l[j] + 1 < l[j + 1])
    &&& consecutive(l, i, j)
}

/// The widest run of protruding positions that still counts as a tick.
pub open spec fn tick_max_width() -> int {
    12
}

/// Run `i..=j` of `l` is narrow enough to be a tick, whose position is `c`.
pub open spec fn run_tick(l: Seq<u64>, i: int, j: int, c: int) -> bool {
    is_run(l, i, j) && l[j] - l[i] < tick_max_width() && c == (l[i] + l[j]) / 2
}

/// Some narrow run of `l` has its tick at `c`.
pub open spec fn tick_from_run(l: Seq<u64>, c: int) -> bool {
    exists|i: int, j: int| #[trigger] run_tick(l, i, j, c)
}

/// Closing a run at `i`: `rs..=i` is a maximal run, and no other maximal run
/// ends in `rs..=i`.
proof fn lemma_close_run(l: Seq<u64>, rs: int, i: int)
    requires
        strictly_sorted(l),
        0 <= rs <= i < l.len(),
        rs == 0 || l[rs - 1] + 1 < l[rs],
        forall|k: int| rs <= k <= i ==> #[trigger] l[k] == l[rs] + (k - rs),
        i == l.len() - 1 || l[i] + 1 != l[i + 1],
    ensures
        is_run(l, rs, i),
        forall|i1: int, j1: int| #[trigger] is_run(l, i1, j1) && rs <= j1 <= i ==> i1 == rs && j1 == i,
{
    if i < l.len() - 1 {
        assert(l[i] < l[i + 1]);
    }
    assert forall|i1: int, j1: int| #[trigger] is_run(l, i1, j1) && rs <= j1 <= i implies i1 == rs && j1
        == i by {
        if j1 < i {
            assert(l[j1] == l[rs] + (j1 - rs));
            assert(l[j1 + 1] == l[rs] + (j1 + 1 - rs));
        }
        if i1 < rs {
            assert(l[rs] == l[i1] + (rs - i1));
            assert(l[rs - 1] == l[i1] + (rs - 1 - i1));
        } else if i1 > rs {
            assert(l[i1] == l[rs] + (i1 - rs));
            assert(l[i1 - 1] == l[rs] + (i1 - 1 - rs));
        }
    }
}

/// Centres (rounded down) of the maximal runs of consecutive values of the
/// strictly increasing `l` that are at most twelve values wide.
#[verifier::spinoff_prover]
fn run_centers(l: &Vec<u64>) -> (r: Vec<u64>)
    requires
        strictly_sorted(l@),
        forall|k: int| 0 <= k < l.len() ==> #[trigger] l@[k] <= u32::MAX,
    ensures
        strictly_sorted(r@),
        forall|q: int| 0 <= q < r.len() ==> tick_from_run(l@, #[trigger] r@[q] as int),
        forall|q: int| 0 <= q < r.len() ==> #[trigger] r@[q] <= u32::MAX,
        forall|i: int, j: int|
            #[trigger] is_run(l@, i, j) && l@[j] - l@[i] < tick_max_width() ==> r@.contains(
                ((l@[i] + l@[j]) / 2) as u64,
            ),
{
    let n = l.len();
    let mut r: Vec<u64> = Vec::new();
    let mut rs: usize = 0;
    let mut i: usize = 0;
    while i < n
        invariant
            n == l.len(),
            strictly_sorted(l@),
            forall|k: int| 0 <= k < n ==> #[trigger] l@[k] <= u32::MAX,
            rs <= i <= n,
            i == n ==> rs == n,
            rs < n ==> (rs == 0 || l@[rs - 1] + 1 < l@[rs as int]),
            forall|k: int| rs <= k <= i && k < n ==> #[trigger] l@[k] == l@[rs as int] + (k - rs),
            strictly_sorted(r@),
            forall|q: int| 0 <= q < r.len() ==> rs > 0 && #[trigger] r@[q] <= l@[rs - 1],
            forall|q: int| 0 <= q < r.len() ==> #[trigger] r@[q] <= u32::MAX,
            forall|q: int| 0 <= q < r.len() ==> tick_from_run(l@, #[trigger] r@[q] as int),
            forall|i1: int, j1: int|
                #[trigger] is_run(l@, i1, j1) && j1 < rs && l@[j1] - l@[i1] < tick_max_width() ==> r@.contains(
                    ((l@[i1] + l@[j1]) / 2) as u64,
                ),
        decreases n - i,
    {
        let ends = i + 1 == n || l[i] + 1 != l[i + 1];
        if ends {
            let st = l[rs];
            let en = l[i];
            proof {
                lemma_close_run(l@, rs as int, i as int);
                if rs > 0 {
                    assert(l@[rs - 1] < l@[rs as int]);
                }
            }
            let ghost r0 = r@;
            if en - st < 12 {
                let c = (st + en) / 2;
                r.push(c);
                proof {
                    assert(run_tick(l@, rs as int, i as int, c as int));
                    assert(r@[r0.len() as int] == c);
                    assert forall|q: int| 0 <= q < r.len() implies tick_from_run(l@, #[trigger] r@[q] as int) by {
                        if q < r0.len() {
                            assert(r@[q] == r0[q]);
                        }
                    }
                }
            }
            proof {
                assert forall|q: int| 0 <= q < r.len() implies #[trigger] r@[q] <= l@[i as int] by {
                    if q < r0.len() {
                        assert(r@[q] == r0[q]);
                        if rs > 0 && rs - 1 < i {
                            assert(l@[rs - 1] < l@[i as int]);
                        }
                    }
                }
                assert forall|i1: int, j1: int|
                    #[trigger] is_run(l@, i1, j1) && j1 < i + 1 && l@[j1] - l@[i1] < tick_max_width() implies r@.contains(
                        ((l@[i1] + l@[j1]) / 2) as u64,
                    ) by {
                    if j1 < rs {
                        assert(r0.contains(((l@[i1] + l@[j1]) / 2) as u64));
                        let q = choose|q: int| 0 <= q < r0.len() && r0[q] == ((l@[i1] + l@[j1]) / 2) as u64;
                        assert(r@[q] == r0[q]);
                    } else {
                        assert(r@[r0.len() as int] == ((l@[i1] + l@[j1]) / 2) as u64);
                    }
                }
            }
            rs = i + 1;
            proof {
                assert forall|q: int| 0 <= q < r.len() implies rs > 0 && #[trigger] r@[q] <= l@[rs - 1] by {
                    assert(r@[q] <= l@[i as int]);
                    assert(rs - 1 == i);
                }
            }
        } else {
            proof {
                assert(l@[i + 1] == l@[i as int] + 1);
            }
        }
        i = i + 1;
    }
    r
}

/// `a` occurs in `l`.
pub open spec fn holds_value(l: Seq<u64>, a: int) -> bool {
    exists|k: int| 0 <= k < l.len() && #[trigger] l[k] == a
}

/// Some pixel of `body` at position `a` along the axis lies two or more
/// pixels off the axis line.
pub open spec fn protrudes_at(body: Seq<(u32, u32)>, line: u32, horizontal: bool, a: int) -> bool {
    exists|i: int|
        0 <= i < body.len() && along(#[trigger] body[i], horizontal) == a && offset(
            body[i],
            line,
            horizontal,
        ) >= 2
}

/// Positions `s..=e` along the axis form a maximal stretch where the body protrudes.
pub open spec fn is_bump(body: Seq<(u32, u32)>, line: u32, horizontal: bool, s: int, e: int) -> bool {
    &&& s <= e
    &&& forall|a: int| s <= a <= e ==> #[trigger] protrudes_at(body, line, horizontal, a)
    &&& !protrudes_at(body, line, horizontal, s - 1)
    &&& !protrudes_at(body, line, horizontal, e + 1)
}

/// A bump at most twelve positions wide is a tick, placed at its centre
/// (rounded down).
pub open spec fn is_tick_at(body: Seq<(u32, u32)>, line: u32, horizontal: bool, c: int) -> bool {
    exists|s: int, e: int|
        #[trigger] is_bump(body, line, horizontal, s, e) && e - s < tick_max_width() && c == (s + e) / 2
}

/// One of `ticks` lies at position `c` along the axis.
pub open spec fn has_tick_at(ticks: Seq<(u32, u32)>, horizontal: bool, c: int) -> bool {
    exists|k: int| 0 <= k < ticks.len() && along(#[trigger] ticks[k], horizontal) == c
}

/// `ticks` are the ticks of axis body `body` on line `line`: points on the
/// line, in increasing order along it, exactly one at each tick position.
pub open spec fn ticks_of(body: Seq<(u32, u32)>, line: u32, horizontal: bool, ticks: Seq<(u32, u32)>) -> bool {
    &&& forall|k: int| 0 <= k < ticks.len() ==> across(#[trigger] ticks[k], horizontal) == line
    &&& forall|k1: int, k2: int|
        0 <= k1 < k2 < ticks.len() ==> along(#[trigger] ticks[k1], horizontal) < along(
            #[trigger] ticks[k2],
            horizontal,
        )
    &&& forall|c: int|
        #![trigger is_tick_at(body, line, horizontal, c)]
        #![trigger has_tick_at(ticks, horizontal, c)]
        is_tick_at(body, line, horizontal, c) <==> has_tick_at(ticks, horizontal, c)
}

proof fn lemma_fill(l: Seq<u64>, i: int, j: int, k: int)
    requires
        strictly_sorted(l),
        0 <= i <= k <= j < l.len(),
        forall|a: int| l[i] <= a <= l[j] ==> #[trigger] holds_value(l, a),
    ensures
        l[k] == l[i] + (k - i),
    decreases k - i,
{
    if k > i {
        lemma_fill(l, i, j, k - 1);
        assert(l[k - 1] < l[j]);
        assert(holds_value(l, l[k - 1] + 1));
        let m = choose|m: int| 0 <= m < l.len() && #[trigger] l[m] == l[k - 1] + 1;
        if m < k {
            if m < k - 1 {
                assert(l[m] < l[k - 1]);
            }
        } else if m > k {
            assert(l[k] < l[m]);
        }
        assert(l[k - 1] < l[k]);
    }
}

/// The maximal runs of the sorted protruding positions are exactly the bumps.
proof fn lemma_runs_are_bumps(body: Seq<(u32, u32)>, line: u32, horizontal: bool, l: Seq<u64>)
    requires
        strictly_sorted(l),
        forall|a: int| #[trigger] protrudes_at(body, line, horizontal, a) <==> holds_value(l, a),
    ensures
        forall|i: int, j: int| #[trigger]
            is_run(l, i, j) ==> is_bump(body, line, horizontal, l[i] as int, l[j] as int),
        forall|s: int, e: int| #[trigger]
            is_bump(body, line, horizontal, s, e) ==> exists|i: int, j: int|
                #[trigger] is_run(l, i, j) && l[i] == s && l[j] == e,
{
    assert forall|i: int, j: int| #[trigger] is_run(l, i, j) implies is_bump(
        body,
        line,
        horizontal,
        l[i] as int,
        l[j] as int,
    ) by {
        assert forall|a: int| l[i] <= a <= l[j] implies #[trigger] protrudes_at(body, line, horizontal, a) by {
            let k = i + (a - l[i]);
            assert(l[j] == l[i] + (j - i));
            assert(l[k] == l[i] + (k - i));
            assert(holds_value(l, a));
        }
        if holds_value(l, l[i] - 1) {
            let m = choose|m: int| 0 <= m < l.len() && #[trigger] l[m] == l[i] - 1;
            if m >= i {
                if m > i {
                    assert(l[i] < l[m]);
                }
            } else if m < i - 1 {
                assert(l[m] < l[i - 1]);
            }
        }
        if holds_value(l, l[j] + 1) {
            let m = choose|m: int| 0 <= m < l.len() && #[trigger] l[m] == l[j] + 1;
            if m <= j {
                if m < j {
                    assert(l[m] < l[j]);
                }
            } else if m > j + 1 {
                assert(l[j + 1] < l[m]);
            }
        }
    }
    assert forall|s: int, e: int| #[trigger] is_bump(body, line, horizontal, s, e) implies exists|
        i: int,
        j: int,
    | #[trigger] is_run(l, i, j) && l[i] == s && l[j] == e by {
        assert(protrudes_at(body, line, horizontal, s));
        assert(protrudes_at(body, line, horizontal, e));
        let i = choose|i: int| 0 <= i < l.len() && #[trigger] l[i] == s;
        let j = choose|j: int| 0 <= j < l.len() && #[trigger] l[j] == e;
        if i > j {
            assert(l[j] < l[i]);
        }
        assert forall|a: int| l[i] <= a <= l[j] implies #[trigger] holds_value(l, a) by {
            assert(protrudes_at(body, line, horizontal, a));
        }
        assert forall|k: int| i <= k <= j implies #[trigger] l[k] == l[i] + (k - i) by {
            lemma_fill(l, i, j, k);
        }
        if i > 0 {
            assert(l[i - 1] < l[i]);
            if l[i - 1] + 1 == l[i] {
                assert(holds_value(l, s - 1));
            }
        }
        if j < l.len() - 1 {
            assert(l[j] < l[j + 1]);
            if l[j] + 1 == l[j + 1] {
                assert(holds_value(l, e + 1));
            }
        }
        assert(is_run(l, i, j));
    }
}

/// The sorted distinct positions along the axis where `body` lies two or
/// more pixels off the axis line.
fn protruding_positions(body: &Vec<(u32, u32)>, line: u32, horizontal: bool) -> (l: Vec<u64>)
    ensures
        strictly_sorted(l@),
        forall|a: int| #[trigger] protrudes_at(body@, line, horizontal, a) <==> holds_value(l@, a),
        forall|k: int| 0 <= k < l@.len() ==> #[trigger] l@[k] <= u32::MAX,
{
    let mut pos: Vec<u64> = Vec::new();
    let mut i: usize = 0;
    while i < body.len()
        invariant
            i <= body.len(),
            forall|q: int| 0 <= q < pos.len() ==> protrudes_at(body@, line, horizontal, #[trigger] pos@[q] as int),
            forall|q: int| 0 <= q < pos.len() ==> #[trigger] pos@[q] <= u32::MAX,
            forall|k: int|
                0 <= k < i && offset(#[trigger] body@[k], line, horizontal) >= 2 ==> holds_value(
                    pos@,
                    along(body@[k], horizontal) as int,
                ),
        decreases body.len() - i,
    {
        let p = body[i];
        let a = if horizontal {
            p.0
        } else {
            p.1
        };
        let c = if horizontal {
            p.1
        } else {
            p.0
        };
        let off = if c < line {
            line - c
        } else {
            c - line
        };
        let ghost pos0 = pos@;
        if off >= 2 {
            pos.push(a as u64);
            proof {
                assert(pos@[pos0.len() as int] == a as u64);
                assert forall|q: int| 0 <= q < pos.len() implies protrudes_at(
                    body@,
                    line,
                    horizontal,
                    #[trigger] pos@[q] as int,
                ) by {
                    if q < pos0.len() {
                        assert(pos@[q] == pos0[q]);
                    } else {
                        assert(along(body@[i as int], horizontal) == a);
                    }
                }
                assert forall|k: int|
                    0 <= k < i + 1 && offset(#[trigger] body@[k], line, horizontal) >= 2 implies holds_value(
                    pos@,
                    along(body@[k], horizontal) as int,
                ) by {
                    if k < i {
                        let q = choose|q: int| 0 <= q < pos0.len() && #[trigger] pos0[q] == along(body@[k], horizontal) as int;
                        assert(pos@[q] == pos0[q]);
                    } else {
                        assert(pos@[pos0.len() as int] == along(body@[k], horizontal));
                    }
                }
            }
        }
        i = i + 1;
    }
    let sorted_pos = sort_keys(&pos);
    let l = dedup_sorted(&sorted_pos);
    proof {
        assert forall|a: int| #[trigger] protrudes_at(body@, line, horizontal, a) <==> holds_value(l@, a) by {
            if protrudes_at(body@, line, horizontal, a) {
                let k = choose|k: int|
                    0 <= k < body@.len() && along(#[trigger] body@[k], horizontal) == a && offset(
                        body@[k],
                        line,
                        horizontal,
                    ) >= 2;
                let q = choose|q: int| 0 <= q < pos@.len() && #[trigger] pos@[q] == a;
                let x = pos@[q];
                assert(pos@.contains(x));
                assert(sorted_pos@.to_multiset().count(x) > 0);
                assert(sorted_pos@.contains(x));
                assert(l@.contains(x));
            }
            if holds_value(l@, a) {
                let m = choose|m: int| 0 <= m < l@.len() && #[trigger] l@[m] == a;
                let x = l@[m];
                assert(l@.contains(x));
                assert(sorted_pos@.contains(x));
                assert(pos@.to_multiset().count(x) > 0);
                assert(pos@.contains(x));
                let q = choose|q: int| 0 <= q < pos@.len() && #[trigger] pos@[q] == x;
            }
        }
        assert forall|k: int| 0 <= k < l@.len() implies #[trigger] l@[k] <= u32::MAX by {
            assert(holds_value(l@, l@[k] as int));
            assert(protrudes_at(body@, line, horizontal, l@[k] as int));
        }
    }
    l
}

proof fn lemma_ticks_from_centers(
    body: Seq<(u32, u32)>,
    line: u32,
    horizontal: bool,
    l: Seq<u64>,
    cs: Seq<u64>,
    ticks: Seq<(u32, u32)>,
)
    requires
        strictly_sorted(l),
        forall|a: int| #[trigger] protrudes_at(body, line, horizontal, a) <==> holds_value(l, a),
        strictly_sorted(cs),
        forall|q: int| 0 <= q < cs.len() ==> tick_from_run(l, #[trigger] cs[q] as int),
        forall|q: int| 0 <= q < cs.len() ==> #[trigger] cs[q] <= u32::MAX,
        forall|i: int, j: int|
            #[trigger] is_run(l, i, j) && l[j] - l[i] < tick_max_width() ==> cs.contains(((l[i] + l[j]) / 2) as u64),
        ticks.len() == cs.len(),
        forall|k: int| 0 <= k < cs.len() ==> #[trigger] ticks[k] == point_on_line(cs[k] as u32, line, horizontal),
    ensures
        ticks_of(body, line, horizontal, ticks),
{
    lemma_runs_are_bumps(body, line, horizontal, l);
    assert forall|k: int| 0 <= k < ticks.len() implies along(#[trigger] ticks[k], horizontal) == cs[k] by {
        assert(ticks[k] == point_on_line(cs[k] as u32, line, horizontal));
    }
    assert forall|k1: int, k2: int| 0 <= k1 < k2 < ticks.len() implies along(
        #[trigger] ticks[k1],
        horizontal,
    ) < along(#[trigger] ticks[k2], horizontal) by {
        assert(cs[k1] < cs[k2]);
    }
    assert forall|c: int|
        #![trigger is_tick_at(body, line, horizontal, c)]
        #![trigger has_tick_at(ticks, horizontal, c)]
        is_tick_at(body, line, horizontal, c) <==> has_tick_at(ticks, horizontal, c) by {
        if has_tick_at(ticks, horizontal, c) {
            let k = choose|k: int| 0 <= k < ticks.len() && along(#[trigger] ticks[k], horizontal) == c;
            assert(tick_from_run(l, cs[k] as int));
            let (i, j) = choose|i: int, j: int| #[trigger] run_tick(l, i, j, cs[k] as int);
            assert(is_bump(body, line, horizontal, l[i] as int, l[j] as int));
        }
        if is_tick_at(body, line, horizontal, c) {
            let (s, e) = choose|s: int, e: int|
                #[trigger] is_bump(body, line, horizontal, s, e) && e - s < tick_max_width() && c == (s + e) / 2;
            let (i, j) = choose|i: int, j: int| #[trigger] is_run(l, i, j) && l[i] == s && l[j] == e;
            assert(cs.contains(((l[i] + l[j]) / 2) as u64));
            let k = choose|k: int| 0 <= k < cs.len() && cs[k] == ((l[i] + l[j]) / 2) as u64;
            assert(along(ticks[k], horizontal) == c);
        }
    }
}

/// The ticks of an axis body: positions along the axis where the body sticks
/// out at least two pixels from the axis line are grouped into maximal runs,
/// and each run at most twelve pixels wide gives a tick on the line at its
/// centre.
pub fn axis_ticks(body: &Vec<(u32, u32)>, line: u32, horizontal: bool) -> (ticks: Vec<(u32, u32)>)
    ensures
        ticks_of(body@, line, horizontal, ticks@),
{
    let l = protruding_positions(body, line, horizontal);
    let cs = run_centers(&l);
    let mut ticks: Vec<(u32, u32)> = Vec::new();
    let mut q: usize = 0;
    while q < cs.len()
        invariant
            q <= cs.len(),
            ticks@.len() == q,
            forall|k: int| 0 <= k < cs.len() ==> #[trigger] cs@[k] <= u32::MAX,
            forall|k: int|
                0 <= k < q ==> #[trigger] ticks@[k] == point_on_line(cs@[k] as u32, line, horizontal),
        decreases cs.len() - q,
    {
        let c = cs[q] as u32;
        if horizontal {
            ticks.push((c, line));
        } else {
            ticks.push((line, c));
        }
        q = q + 1;
    }
    proof {
        lemma_ticks_from_centers(body@, line, horizontal, l@, cs@, ticks@);
    }
    ticks
}

/// Lowest position along the axis among the points (`u32::MAX` for none).
pub open spec fn along_lo(c: Seq<(u32, u32)>, horizontal: bool) -> int
    decreases c.len(),
{
    if c.len() == 0 {
        u32::MAX as int
    } else {
        let m = along_lo(c.drop_last(), horizontal);
        let a = along(c.last(), horizontal) as int;
        if a < m {
            a
        } else {
            m
        }
    }
}

/// Highest position along the axis among the points (0 for none).
pub open spec fn along_hi(c: Seq<(u32, u32)>, horizontal: bool) -> int
    decreases c.len(),
{
    if c.len() == 0 {
        0
    } else {
        let m = along_hi(c.drop_last(), horizontal);
        let a = along(c.last(), horizontal) as int;
        if a > m {
            a
        } else {
            m
        }
    }
}

/// Extent of the points along the axis (highest minus lowest position, 0 for none).
pub open spec fn span(c: Seq<(u32, u32)>, horizontal: bool) -> int {
    let d = along_hi(c, horizontal) - along_lo(c, horizontal);
    if d < 0 {
        0
    } else {
        d
    }
}

/// Some point of `c` lies within one pixel of the axis line.
pub open spec fn touches_line(c: Seq<(u32, u32)>, line: u32, horizontal: bool) -> bool {
    exists|i: int| 0 <= i < c.len() && offset(#[trigger] c[i], line, horizontal) <= 1
}

/// Stroke `b` touches the axis line and no stroke touching it is longer.
pub open spec fn is_axis_stroke(comps: Seq<Vec<(u32, u32)>>, line: u32, horizontal: bool, b: int) -> bool {
    &&& 0 <= b < comps.len()
    &&& touches_line(comps[b]@, line, horizontal)
    &&& forall|c: int|
        0 <= c < comps.len() && #[trigger] touches_line(comps[c]@, line, horizontal) ==> span(
            comps[c]@,
            horizontal,
        ) <= span(comps[b]@, horizontal)
}

/// `body` is the longest stroke touching the axis line, or empty when no
/// stroke touches it.
pub open spec fn is_axis_body(comps: Seq<Vec<(u32, u32)>>, line: u32, horizontal: bool, body: Seq<(u32, u32)>) -> bool {
    ||| body.len() == 0 && forall|c: int|
        0 <= c < comps.len() ==> !#[trigger] touches_line(comps[c]@, line, horizontal)
    ||| exists|b: int| #[trigger] is_axis_stroke(comps, line, horizontal, b) && body == comps[b]@
}

/// Whether a stroke touches the axis line, and its lowest and highest
/// positions along the axis.
fn stroke_reach(c: &Vec<(u32, u32)>, line: u32, horizontal: bool) -> (r: (bool, u32, u32))
    ensures
        r.0 == touches_line(c@, line, horizontal),
        r.1 == along_lo(c@, horizontal),
        r.2 == along_hi(c@, horizontal),
{
    let mut touches = false;
    let mut lo: u32 = u32::MAX;
    let mut hi: u32 = 0;
    let mut i: usize = 0;
    while i < c.len()
        invariant
            i <= c.len(),
            touches <==> exists|j: int| 0 <= j < i && offset(#[trigger] c@[j], line, horizontal) <= 1,
            lo == along_lo(c@.take(i as int), horizontal),
            hi == along_hi(c@.take(i as int), horizontal),
        decreases c.len() - i,
    {
        let p = c[i];
        let a = if horizontal {
            p.0
        } else {
            p.1
        };
        let q = if horizontal {
            p.1
        } else {
            p.0
        };
        let off = if q < line {
            line - q
        } else {
            q - line
        };
        proof {
            assert(c@.take(i + 1).drop_last() =~= c@.take(i as int));
            assert(c@.take(i + 1).last() == p);
            assert(off == offset(c@[i as int], line, horizontal));
        }
        if off <= 1 {
            touches = true;
        }
        if a < lo {
            lo = a;
        }
        if a > hi {
            hi = a;
        }
        i = i + 1;
    }
    proof {
        assert(c@.take(c@.len() as int) =~= c@);
    }
    (touches, lo, hi)
}

/// Of the connected strokes in `active`, keeps the longest one (along the
/// axis) that touches the axis line `axis_line`, and finds its ticks.
pub fn extract_axis_and_ticks(axis_line: u32, horizontal: bool, active: &[(u32, u32)]) -> (r: (
    Vec<(u32, u32)>,
    Vec<(u32, u32)>,
))
    requires
        radius_ok(active@, 1),
    ensures
        exists|comps: Seq<Vec<(u32, u32)>>|
            #[trigger] is_component_split(active@, 1, comps) && is_axis_body(comps, axis_line, horizontal, r.0@),
        ticks_of(r.0@, axis_line, horizontal, r.1@),
{
    let mut comps = split_into_connected_components(active, 1);
    let ghost cs = comps@;
    let mut best: Option<usize> = None;
    let mut best_span: u32 = 0;
    let mut k: usize = 0;
    while k < comps.len()
        invariant
            cs == comps@,
            is_component_split(active@, 1, cs),
            k <= cs.len(),
            best is None ==> best_span == 0,
            best is None ==> forall|c: int| 0 <= c < k ==> !#[trigger] touches_line(cs[c]@, axis_line, horizontal),
            best matches Some(b) ==> {
                &&& b < k
                &&& touches_line(cs[b as int]@, axis_line, horizontal)
                &&& span(cs[b as int]@, horizontal) == best_span
                &&& forall|c: int|
                    0 <= c < k && #[trigger] touches_line(cs[c]@, axis_line, horizontal) ==> span(
                        cs[c]@,
                        horizontal,
                    ) <= best_span
            },
        decreases cs.len() - k,
    {
        let (touches, lo, hi) = stroke_reach(&comps[k], axis_line, horizontal);
        let sp = if hi >= lo {
            hi - lo
        } else {
            0
        };
        if touches && sp >= best_span {
            best = Some(k);
            best_span = sp;
        }
        k = k + 1;
    }
    match best {
        Some(b) => {
            let body = comps.swap_remove(b);
            proof {
                assert(body@ == cs[b as int]@);
                assert(is_axis_stroke(cs, axis_line, horizontal, b as int));
                assert(is_component_split(active@, 1, cs));
            }
            let ticks = axis_ticks(&body, axis_line, horizontal);
            (body, ticks)
        },
        None => {
            let body: Vec<(u32, u32)> = Vec::new();
            let ticks = axis_ticks(&body, axis_line, horizontal);
            proof {
                assert(is_component_split(active@, 1, cs));
            }
            (body, ticks)
        },
    }
}

/// The end points of an axis: its outermost ticks, or without ticks the
/// ends of its body projected onto the axis line.
pub open spec fn axis_ends(ticks: Seq<(u32, u32)>, body: Seq<(u32, u32)>, line: u32, horizontal: bool) -> Option<
    ((u32, u32), (u32, u32)),
> {
    if ticks.len() > 0 {
        Some((ticks[0], ticks[ticks.len() - 1]))
    } else if body.len() > 0 {
        Some(
            (
                point_on_line(along_lo(body, horizontal) as u32, line, horizontal),
                point_on_line(along_hi(body, horizontal) as u32, line, horizontal),
            ),
        )
    } else {
        None
    }
}

/// The axis line of a pool: its most populated row (for the x axis) or
/// column, lowest first on ties; none for an empty pool.
pub open spec fn axis_line_of(pool: Seq<(u32, u32)>, horizontal: bool) -> Option<u32> {
    if pool.len() == 0 {
        None
    } else {
        Some(peak_of(across_values(pool, horizontal), false).1 as u32)
    }
}

/// `body`, `ticks` and `ends` are what axis detection reports for `pool`.
pub open spec fn axis_side(
    pool: Seq<(u32, u32)>,
    horizontal: bool,
    body: Seq<(u32, u32)>,
    ticks: Seq<(u32, u32)>,
    ends: Option<((u32, u32), (u32, u32))>,
) -> bool {
    match axis_line_of(pool, horizontal) {
        None => body.len() == 0 && ticks.len() == 0 && ends is None,
        Some(line) => {
            &&& exists|comps: Seq<Vec<(u32, u32)>>|
                #[trigger] is_component_split(pool, 1, comps) && is_axis_body(comps, line, horizontal, body)
            &&& ticks_of(body, line, horizontal, ticks)
            &&& ends == axis_ends(ticks, body, line, horizontal)
        },
    }
}

/// Detects one axis in its pool of pixels: the axis line, the longest
/// stroke touching it, its ticks and its end points.
pub fn detect_axis(pool: &Vec<(u32, u32)>, horizontal: bool) -> (r: (
    Vec<(u32, u32)>,
    Vec<(u32, u32)>,
    Option<((u32, u32), (u32, u32))>,
))
    requires
        radius_ok(pool@, 1),
    ensures
        axis_side(pool@, horizontal, r.0@, r.1@, r.2),
{
    let vals = across_list(pool, horizontal);
    match peak_line(&vals, false) {
        None => (Vec::new(), Vec::new(), None),
        Some((_, v)) => {
            proof {
                let j = choose|j: int| 0 <= j < vals@.len() && #[trigger] vals@[j] == v;
                assert(vals@[j] == across(pool@[j], horizontal) as u64);
            }
            let line = v as u32;
            let (body, ticks) = extract_axis_and_ticks(line, horizontal, pool.as_slice());
            let ends = if ticks.len() > 0 {
                Some((ticks[0], ticks[ticks.len() - 1]))
            } else if body.len() > 0 {
                let (_, lo, hi) = stroke_reach(&body, line, horizontal);
                if horizontal {
                    Some(((lo, line), (hi, line)))
                } else {
                    Some(((line, lo), (line, hi)))
                }
            } else {
                None
            };
            (body, ticks, ends)
        },
    }
}

/// What axis detection finds in a mask.
pub struct AxisDetectionResult {
    /// End points of the x axis.
    pub x_axis: Option<((u32, u32), (u32, u32))>,
    /// End points of the y axis.
    pub y_axis: Option<((u32, u32), (u32, u32))>,
    /// The pixels of the x axis stroke.
    pub x_axis_pixels: Vec<(u32, u32)>,
    /// The pixels of the y axis stroke.
    pub y_axis_pixels: Vec<(u32, u32)>,
    /// Tick marks on the x axis, left to right.
    pub x_ticks: Vec<(u32, u32)>,
    /// Tick marks on the y axis, top to bottom.
    pub y_ticks: Vec<(u32, u32)>,
}

/// Minimum three-line density of an axis stroke: 3% of the image's smaller
/// side, at least 20 pixels.
pub open spec fn axis_min_density(w: u32, h: u32) -> u32 {
    let m = if w < h {
        w
    } else {
        h
    };
    let t = m * 3 / 100;
    if t > 20 {
        t as u32
    } else {
        20
    }
}

/// Overlap margin when splitting a crossing stroke: 2% of the image's
/// smaller side, at least 10 pixels.
pub open spec fn axis_split_margin(w: u32, h: u32) -> u32 {
    let m = if w < h {
        w
    } else {
        h
    };
    let t = m * 2 / 100;
    if t > 10 {
        t as u32
    } else {
        10
    }
}

/// Coordinates of the painted, non-background pixels of the image, in
/// row-major order.
pub open spec fn foreground_points(rgba: Seq<u8>, mask: Seq<bool>, w: u32, h: u32, bg: [u8; 3]) -> Seq<(u32, u32)> {
    let s = masked_fg_pixels(rgba, mask, w, bg, (w as int * h as int) as nat);
    Seq::new(s.len(), |i: int| (s[i].1, s[i].2))
}

/// The full result of axis detection on the foreground points `pts` of a
/// `w` x `h` image: the points split into connected strokes, the strokes'
/// pixels pooled per axis, and each axis detected in its pool.
pub open spec fn axes_detected(pts: Seq<(u32, u32)>, w: u32, h: u32, r: AxisDetectionResult) -> bool {
    let l_min = axis_min_density(w, h);
    let margin = axis_split_margin(w, h);
    exists|strokes: Seq<Vec<(u32, u32)>>|
        #[trigger] is_component_split(pts, 1, strokes) && axis_side(
            axis_pool(strokes, l_min, margin, true, strokes.len()),
            true,
            r.x_axis_pixels@,
            r.x_ticks@,
            r.x_axis,
        ) && axis_side(
            axis_pool(strokes, l_min, margin, false, strokes.len()),
            false,
            r.y_axis_pixels@,
            r.y_ticks@,
            r.y_axis,
        )
}

proof fn lemma_foreground_bounds(rgba: Seq<u8>, mask: Seq<bool>, w: u32, h: u32, bg: [u8; 3], n: nat)
    requires
        n <= w as int * h as int,
    ensures
        forall|i: int|
            0 <= i < masked_fg_pixels(rgba, mask, w, bg, n).len() ==> (#[trigger] masked_fg_pixels(
                rgba,
                mask,
                w,
                bg,
                n,
            )[i]).1 < w && masked_fg_pixels(rgba, mask, w, bg, n)[i].2 < h,
    decreases n,
{
    if n > 0 {
        lemma_foreground_bounds(rgba, mask, w, h, bg, (n - 1) as nat);
        let idx = n - 1;
        assert(w > 0) by (nonlinear_arith)
            requires
                idx < w as int * h as int,
                idx >= 0,
        ;
        assert(idx / (w as int) < h) by (nonlinear_arith)
            requires
                idx < w as int * h as int,
                idx >= 0,
                w > 0,
        ;
        assert(idx % (w as int) < w) by (nonlinear_arith)
            requires
                w > 0,
        ;
        let prev = masked_fg_pixels(rgba, mask, w, bg, (n - 1) as nat);
        let cur = masked_fg_pixels(rgba, mask, w, bg, n);
        assert forall|i: int| 0 <= i < cur.len() implies (#[trigger] cur[i]).1 < w && cur[i].2 < h by {
            if i < prev.len() {
                assert(cur[i] == prev[i]);
            }
        }
    }
}

proof fn lemma_stroke_part_within(s: Seq<(u32, u32)>, l_min: u32, margin: u32, horizontal: bool, n: nat)
    requires
        n <= s.len(),
    ensures
        forall|i: int|
            0 <= i < stroke_part(s, l_min, margin, horizontal, n).len() ==> s.contains(
                #[trigger] stroke_part(s, l_min, margin, horizontal, n)[i],
            ),
    decreases n,
{
    if n > 0 {
        lemma_stroke_part_within(s, l_min, margin, horizontal, (n - 1) as nat);
        assert(s.contains(s[n - 1]));
        let prev = stroke_part(s, l_min, margin, horizontal, (n - 1) as nat);
        let cur = stroke_part(s, l_min, margin, horizontal, n);
        assert forall|i: int| 0 <= i < cur.len() implies s.contains(#[trigger] cur[i]) by {
            if i < prev.len() {
                assert(cur[i] == prev[i]);
            }
        }
    }
}

proof fn lemma_pool_within(strokes: Seq<Vec<(u32, u32)>>, l_min: u32, margin: u32, horizontal: bool, n: nat)
    requires
        n <= strokes.len(),
    ensures
        forall|i: int|
            0 <= i < axis_pool(strokes, l_min, margin, horizontal, n).len() ==> in_comps(
                strokes,
                #[trigger] axis_pool(strokes, l_min, margin, horizontal, n)[i],
            ),
    decreases n,
{
    if n > 0 {
        let prev = axis_pool(strokes, l_min, margin, horizontal, (n - 1) as nat);
        let s = strokes[n - 1]@;
        let part = stroke_part(s, l_min, margin, horizontal, s.len());
        lemma_pool_within(strokes, l_min, margin, horizontal, (n - 1) as nat);
        lemma_stroke_part_within(s, l_min, margin, horizontal, s.len());
        assert forall|i: int|
            0 <= i < axis_pool(strokes, l_min, margin, horizontal, n).len() implies in_comps(
            strokes,
            #[trigger] axis_pool(strokes, l_min, margin, horizontal, n)[i],
        ) by {
            let q = axis_pool(strokes, l_min, margin, horizontal, n)[i];
            if i < prev.len() {
                assert(q == prev[i]);
            } else {
                assert(q == part[i - prev.len()]);
                assert(s.contains(q));
                let k = choose|k: int| 0 <= k < s.len() && s[k] == q;
                assert(strokes[n - 1]@[k] == q);
            }
        }
    }
}

/// Finds the x and y axes inside the painted part of a `w` x `h` RGBA image.
///
/// The painted non-background pixels are split into 8-connected strokes.
/// A stroke whose densest three-row window holds at least `l_min` pixels
/// (3% of the smaller image side, at least 20) is long horizontally, and
/// likewise vertically; strokes long in neither direction are noise, strokes
/// long in one direction go to that axis, and strokes long in both are split
/// around their densest row and column.  Each axis lies on the most
/// populated row (column) of its pool; its body is the longest stroke of the
/// pool touching that line, its ticks are the narrow protrusions of the body,
/// and its end points are the outermost ticks or else the body's ends.
pub fn analyze_mask_for_axes(rgba: &[u8], mask: &[bool], w: u32, h: u32, bg_color: [u8; 3]) -> (r:
    AxisDetectionResult)
    requires
        w <= 0x7FFF_FFFF,
        h <= 0x7FFF_FFFF,
        mask@.len() >= w as int * h as int,
    ensures
        axes_detected(foreground_points(rgba@, mask@, w, h, bg_color), w, h, r),
{
    let mask_len = mask.len();
    assert(mask_len == mask@.len());
    let fg = collect_masked_non_bg_pixels(rgba, mask, w, h, bg_color);
    let ghost pts = foreground_points(rgba@, mask@, w, h, bg_color);
    proof {
        lemma_foreground_bounds(rgba@, mask@, w, h, bg_color, (w as int * h as int) as nat);
    }
    let mut points: Vec<(u32, u32)> = Vec::new();
    let mut i: usize = 0;
    while i < fg.len()
        invariant
            i <= fg.len(),
            pts.len() == fg@.len(),
            fg@ == masked_fg_pixels(rgba@, mask@, w, bg_color, (w as int * h as int) as nat),
            pts == foreground_points(rgba@, mask@, w, h, bg_color),
            points@.len() == i,
            forall|j: int| 0 <= j < i ==> #[trigger] points@[j] == pts[j],
        decreases fg.len() - i,
    {
        let (_, x, y) = fg[i];
        points.push((x, y));
        i = i + 1;
    }
    proof {
        assert(points@ =~= pts);
        assert forall|j: int| 0 <= j < pts.len() implies (#[trigger] pts[j]).0 < w && pts[j].1 < h by {
            assert(pts[j] == (fg@[j].1, fg@[j].2));
        }
    }
    let strokes = split_into_connected_components(points.as_slice(), 1);
    let m: u64 = if w < h {
        w as u64
    } else {
        h as u64
    };
    let t3 = m * 3 / 100;
    let l_min: u32 = if t3 > 20 {
        t3 as u32
    } else {
        20
    };
    let t2 = m * 2 / 100;
    let margin: u32 = if t2 > 10 {
        t2 as u32
    } else {
        10
    };
    let (xpool, ypool) = build_axis_pools(&strokes, l_min, margin);
    proof {
        lemma_pool_within(strokes@, l_min, margin, true, strokes@.len());
        lemma_pool_within(strokes@, l_min, margin, false, strokes@.len());
        assert forall|j: int| 0 <= j < xpool@.len() implies (#[trigger] xpool@[j]).0 + 1 <= 0x7FFF_FFFF
            && xpool@[j].1 + 1 <= 0x7FFF_FFFF by {
            assert(in_comps(strokes@, xpool@[j]));
            assert(pts.contains(xpool@[j]));
        }
        assert forall|j: int| 0 <= j < ypool@.len() implies (#[trigger] ypool@[j]).0 + 1 <= 0x7FFF_FFFF
            && ypool@[j].1 + 1 <= 0x7FFF_FFFF by {
            assert(in_comps(strokes@, ypool@[j]));
            assert(pts.contains(ypool@[j]));
        }
    }
    let (x_axis_pixels, x_ticks, x_axis) = detect_axis(&xpool, true);
    let (y_axis_pixels, y_ticks, y_axis) = detect_axis(&ypool, false);
    let r = AxisDetectionResult { x_axis, y_axis, x_axis_pixels, y_axis_pixels, x_ticks, y_ticks };
    proof {
        assert(is_component_split(pts, 1, strokes@));
    }
    r
}

/// Which side of the intersection with the other axis an axis was kept on.
#[derive(PartialEq, Eq, Structural, Clone, Copy, Debug)]
pub enum AxisSideSelection {
    Unknown,
    NegativeOnly,
    PositiveOnly,
    BothSides,
    CoreOnly,
}

impl AxisSideSelection {
    /// Whether only one side of the intersection was kept.
    pub fn is_single_sided(self) -> (r: bool)
        ensures
            r == (self == AxisSideSelection::NegativeOnly || self == AxisSideSelection::PositiveOnly),
    {
        match self {
            AxisSideSelection::NegativeOnly | AxisSideSelection::PositiveOnly => true,
            _ => false,
        }
    }
}

} // verus!
