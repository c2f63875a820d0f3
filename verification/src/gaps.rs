//! Straight integer walks that bridge the gap between two pixels.
use vstd::prelude::*;

verus! {

// ----------------------------------------------------------------
//  Gap interpolation
// ----------------------------------------------------------------

/// The number of unit steps between two points (Chebyshev distance).
pub open spec fn gap_steps(from: (u32, u32), to: (u32, u32)) -> int {
    let dx = to.0 - from.0;
    let dy = to.1 - from.1;
    let ax = if dx < 0 {
        -dx
    } else {
        dx
    };
    let ay = if dy < 0 {
        -dy
    } else {
        dy
    };
    if ax >= ay {
        ax
    } else {
        ay
    }
}

/// Coordinate at step `s` of `n` from `a` towards `a + d`, rounded to the
/// nearest integer with halves rounded up: floor(a + s * d / n + 1/2).
pub open spec fn gap_coord(a: int, d: int, s: int, n: int) -> int {
    (2 * a * n + 2 * s * d + n) / (2 * n)
}

/// The point at step `s` of the straight walk from `from` to `to`.
pub open spec fn gap_point(from: (u32, u32), to: (u32, u32), s: int) -> (u32, u32) {
    let n = gap_steps(from, to);
    (
        gap_coord(from.0 as int, to.0 - from.0, s, n) as u32,
        gap_coord(from.1 as int, to.1 - from.1, s, n) as u32,
    )
}

/// The intermediate points strictly between `from` and `to`.
pub open spec fn gap_points(from: (u32, u32), to: (u32, u32)) -> Seq<(u32, u32)> {
    let n = gap_steps(from, to);
    if n <= 1 {
        Seq::empty()
    } else {
        Seq::new((n - 1) as nat, |i: int| gap_point(from, to, i + 1))
    }
}

proof fn lemma_gap_coord_range(a: int, d: int, s: int, n: int)
    requires
        n > 0,
        0 <= s <= n,
        -n <= d <= n,
        0 <= a,
        0 <= a + d,
    ensures
        0 <= 2 * a * n + 2 * s * d + n,
        (if d >= 0 {
            a
        } else {
            a + d
        }) <= gap_coord(a, d, s, n) <= (if d >= 0 {
            a + d
        } else {
            a
        }),
{
    let num = 2 * a * n + 2 * s * d + n;
    let lo = if d >= 0 {
        a
    } else {
        a + d
    };
    let hi = if d >= 0 {
        a + d
    } else {
        a
    };
    if d >= 0 {
        assert(2 * n * lo <= num < 2 * n * (hi + 1)) by (nonlinear_arith)
            requires
                num == 2 * a * n + 2 * s * d + n,
                lo == a,
                hi == a + d,
                0 <= s <= n,
                0 <= d,
                0 < n,
        ;
    } else {
        assert(2 * n * lo <= num < 2 * n * (hi + 1)) by (nonlinear_arith)
            requires
                num == 2 * a * n + 2 * s * d + n,
                lo == a + d,
                hi == a,
                0 <= s <= n,
                d < 0,
                0 < n,
        ;
    }
    assert(0 <= 2 * n * lo) by (nonlinear_arith)
        requires
            0 < n,
            0 <= lo,
    ;
    vstd::arithmetic::div_mod::lemma_div_is_ordered(2 * n * lo, num, 2 * n);
    vstd::arithmetic::div_mod::lemma_div_is_ordered(num, 2 * n * (hi + 1) - 1, 2 * n);
    assert((2 * n * lo) / (2 * n) == lo) by {
        assert(2 * n * lo == lo * (2 * n) + 0) by (nonlinear_arith);
        vstd::arithmetic::div_mod::lemma_fundamental_div_mod_converse(2 * n * lo, 2 * n, lo, 0);
    }
    assert((2 * n * (hi + 1) - 1) / (2 * n) == hi) by {
        assert(2 * n * (hi + 1) - 1 == hi * (2 * n) + (2 * n - 1)) by (nonlinear_arith);
        vstd::arithmetic::div_mod::lemma_fundamental_div_mod_converse(
            2 * n * (hi + 1) - 1,
            2 * n,
            hi,
            2 * n - 1,
        );
    }
}

/// Linearly interpolates integer pixel coordinates strictly between two
/// points, one point per unit step along the longer axis.
pub fn interpolate_gap(from: (u32, u32), to: (u32, u32)) -> (pts: Vec<(u32, u32)>)
    ensures
        pts@ == gap_points(from, to),
{
    let dx: i128 = to.0 as i128 - from.0 as i128;
    let dy: i128 = to.1 as i128 - from.1 as i128;
    let ax: i128 = if dx < 0 {
        -dx
    } else {
        dx
    };
    let ay: i128 = if dy < 0 {
        -dy
    } else {
        dy
    };
    let steps: i128 = if ax >= ay {
        ax
    } else {
        ay
    };
    assert(steps == gap_steps(from, to));
    let mut points: Vec<(u32, u32)> = Vec::new();
    if steps <= 1 {
        proof {
            assert(points@ =~= gap_points(from, to));
        }
        return points;
    }
    let a0: i128 = from.0 as i128;
    let a1: i128 = from.1 as i128;
    let mut s: i128 = 1;
    while s < steps
        invariant
            steps == gap_steps(from, to),
            2 <= steps <= 0xFFFF_FFFF,
            1 <= s <= steps,
            a0 == from.0,
            a1 == from.1,
            dx == to.0 - from.0,
            dy == to.1 - from.1,
            -steps <= dx <= steps,
            -steps <= dy <= steps,
            points@.len() == s - 1,
            forall|i: int| 0 <= i < s - 1 ==> points@[i] == gap_point(from, to, i + 1),
        decreases steps - s,
    {
        proof {
            lemma_gap_coord_range(a0 as int, dx as int, s as int, steps as int);
            lemma_gap_coord_range(a1 as int, dy as int, s as int, steps as int);
            assert(0 <= 2 * a0 * steps <= 2 * 0xFFFF_FFFF * 0xFFFF_FFFF) by (nonlinear_arith)
                requires
                    0 <= a0 <= 0xFFFF_FFFF,
                    0 <= steps <= 0xFFFF_FFFF,
            ;
            assert(0 <= 2 * a1 * steps <= 2 * 0xFFFF_FFFF * 0xFFFF_FFFF) by (nonlinear_arith)
                requires
                    0 <= a1 <= 0xFFFF_FFFF,
                    0 <= steps <= 0xFFFF_FFFF,
            ;
            assert(-2 * 0xFFFF_FFFF * 0xFFFF_FFFF <= 2 * s * dx <= 2 * 0xFFFF_FFFF * 0xFFFF_FFFF) by (nonlinear_arith)
                requires
                    0 <= s <= 0xFFFF_FFFF,
                    -0xFFFF_FFFF <= dx <= 0xFFFF_FFFF,
            ;
            assert(-2 * 0xFFFF_FFFF * 0xFFFF_FFFF <= 2 * s * dy <= 2 * 0xFFFF_FFFF * 0xFFFF_FFFF) by (nonlinear_arith)
                requires
                    0 <= s <= 0xFFFF_FFFF,
                    -0xFFFF_FFFF <= dy <= 0xFFFF_FFFF,
            ;
        }
        let nx: i128 = (2 * a0 * steps + 2 * s * dx + steps) / (2 * steps);
        let ny: i128 = (2 * a1 * steps + 2 * s * dy + steps) / (2 * steps);
        points.push((nx as u32, ny as u32));
        s = s + 1;
    }
    proof {
        assert(points@ =~= gap_points(from, to));
    }
    points
}

/// Two points differ by at most one in each coordinate (8-neighbours or equal).
pub open spec fn unit_step(a: (u32, u32), b: (u32, u32)) -> bool {
    -1 <= a.0 - b.0 <= 1 && -1 <= a.1 - b.1 <= 1
}

/// The full walk from `from` to `to`: both endpoints with the interpolated
/// points between them.
pub open spec fn gap_path(from: (u32, u32), to: (u32, u32)) -> Seq<(u32, u32)> {
    seq![from] + gap_points(from, to) + seq![to]
}

proof fn lemma_gap_coord_step(a: int, d: int, s: int, n: int)
    requires
        n > 0,
        -n <= d <= n,
    ensures
        -1 <= gap_coord(a, d, s + 1, n) - gap_coord(a, d, s, n) <= 1,
{
    let x = 2 * a * n + 2 * s * d + n;
    let y = 2 * a * n + 2 * (s + 1) * d + n;
    assert(y == x + 2 * d) by (nonlinear_arith)
        requires
            x == 2 * a * n + 2 * s * d + n,
            y == 2 * a * n + 2 * (s + 1) * d + n,
    ;
    let dd = 2 * n;
    vstd::arithmetic::div_mod::lemma_div_is_ordered(x - dd, y, dd);
    vstd::arithmetic::div_mod::lemma_div_is_ordered(y, x + dd, dd);
    vstd::arithmetic::div_mod::lemma_hoist_over_denominator(x, 1, dd as nat);
    vstd::arithmetic::div_mod::lemma_hoist_over_denominator(x, -1, dd as nat);
}

proof fn lemma_gap_coord_ends(a: int, d: int, n: int)
    requires
        n > 0,
    ensures
        gap_coord(a, d, 0, n) == a,
        gap_coord(a, d, n, n) == a + d,
{
    assert(2 * a * n + 2 * 0 * d + n == a * (2 * n) + n) by (nonlinear_arith);
    vstd::arithmetic::div_mod::lemma_fundamental_div_mod_converse(a * (2 * n) + n, 2 * n, a, n);
    assert(2 * a * n + 2 * n * d + n == (a + d) * (2 * n) + n) by (nonlinear_arith);
    vstd::arithmetic::div_mod::lemma_fundamental_div_mod_converse((a + d) * (2 * n) + n, 2 * n, a + d, n);
}

/// Stitching gaps are gap-free: consecutive points of the walk from `from`
/// through the interpolated points to `to` are 8-neighbours (or equal).
pub proof fn lemma_gap_path_connected(from: (u32, u32), to: (u32, u32))
    ensures
        forall|k: int|
            0 <= k < gap_path(from, to).len() - 1 ==> #[trigger] unit_step(
                gap_path(from, to)[k],
                gap_path(from, to)[k + 1],
            ),
{
    let n = gap_steps(from, to);
    let path = gap_path(from, to);
    let d0 = to.0 - from.0;
    let d1 = to.1 - from.1;
    if n <= 1 {
        assert(path =~= seq![from, to]);
    } else {
        lemma_gap_coord_ends(from.0 as int, d0, n);
        lemma_gap_coord_ends(from.1 as int, d1, n);
        assert forall|k: int| 0 <= k <= n implies #[trigger] path[k] == gap_point(from, to, k) by {
            if 0 < k < n {
                lemma_gap_coord_range(from.0 as int, d0, k, n);
                lemma_gap_coord_range(from.1 as int, d1, k, n);
            }
        }
        assert forall|k: int| 0 <= k < path.len() - 1 implies #[trigger] unit_step(path[k], path[k + 1]) by {
            assert(path[k] == gap_point(from, to, k));
            assert(path[k + 1] == gap_point(from, to, k + 1));
            lemma_gap_coord_range(from.0 as int, d0, k, n);
            lemma_gap_coord_range(from.1 as int, d1, k, n);
            lemma_gap_coord_range(from.0 as int, d0, k + 1, n);
            lemma_gap_coord_range(from.1 as int, d1, k + 1, n);
            lemma_gap_coord_step(from.0 as int, d0, k, n);
            lemma_gap_coord_step(from.1 as int, d1, k, n);
        }
    }
}

/// Interpolated points stay inside the bounding box of the two endpoints,
/// so they keep coordinates below any bound both endpoints respect.
pub proof fn lemma_gap_points_bounded(from: (u32, u32), to: (u32, u32), bound: int)
    requires
        from.0 < bound,
        from.1 < bound,
        to.0 < bound,
        to.1 < bound,
    ensures
        forall|k: int|
            0 <= k < gap_points(from, to).len() ==> (#[trigger] gap_points(from, to)[k]).0 < bound
                && gap_points(from, to)[k].1 < bound,
{
    let n = gap_steps(from, to);
    if n > 1 {
        assert forall|k: int| 0 <= k < gap_points(from, to).len() implies (#[trigger] gap_points(
            from,
            to,
        )[k]).0 < bound && gap_points(from, to)[k].1 < bound by {
            lemma_gap_coord_range(from.0 as int, to.0 - from.0, k + 1, n);
            lemma_gap_coord_range(from.1 as int, to.1 - from.1, k + 1, n);
        }
    }
}

} // verus!
