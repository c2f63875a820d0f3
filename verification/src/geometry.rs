//! Small geometric helpers on integer pixel coordinates.
use vstd::prelude::*;
use crate::keys::{pack_spec, key_base};

verus! {

/// The axis along which a set of points extends the most.
#[derive(Clone, Copy, PartialEq, Eq, Structural, Debug)]
pub enum DominantAxis {
    Horizontal,
    Vertical,
}

/// `b` = (min_x, min_y, max_x, max_y) is the bounding box of the nonempty `points`.
pub open spec fn is_bounding_box(points: Seq<(u32, u32)>, b: (u32, u32, u32, u32)) -> bool {
    &&& forall|i: int|
        0 <= i < points.len() ==> b.0 <= (#[trigger] points[i]).0 <= b.2 && b.1 <= points[i].1
            <= b.3
    &&& exists|i: int| 0 <= i < points.len() && (#[trigger] points[i]).0 == b.0
    &&& exists|i: int| 0 <= i < points.len() && (#[trigger] points[i]).1 == b.1
    &&& exists|i: int| 0 <= i < points.len() && (#[trigger] points[i]).0 == b.2
    &&& exists|i: int| 0 <= i < points.len() && (#[trigger] points[i]).1 == b.3
}

/// The bounding box of a point list, or `None` when it is empty.
pub fn bounding_box(points: &[(u32, u32)]) -> (r: Option<(u32, u32, u32, u32)>)
    ensures
        r is None <==> points@.len() == 0,
        r matches Some(b) ==> is_bounding_box(points@, b),
{
    if points.len() == 0 {
        return None;
    }
    let (mut min_x, mut min_y) = points[0];
    let (mut max_x, mut max_y) = points[0];
    let mut i: usize = 1;
    proof {
        assert(points@.take(1)[0] == points@[0]);
    }
    while i < points.len()
        invariant
            1 <= i <= points@.len(),
            is_bounding_box(points@.take(i as int), (min_x, min_y, max_x, max_y)),
        decreases points@.len() - i,
    {
        let (x, y) = points[i];
        let ghost pre = points@.take(i as int);
        let ghost old_b = (min_x, min_y, max_x, max_y);
        if x < min_x {
            min_x = x;
        }
        if y < min_y {
            min_y = y;
        }
        if x > max_x {
            max_x = x;
        }
        if y > max_y {
            max_y = y;
        }
        proof {
            let post = points@.take(i as int + 1);
            assert(post =~= pre.push((x, y)));
            assert(post[i as int] == (x, y));
            assert forall|k: int| 0 <= k < post.len() implies min_x <= (#[trigger] post[k]).0
                <= max_x && min_y <= post[k].1 <= max_y by {
                if k < i {
                    assert(post[k] == pre[k]);
                }
            }
            if min_x == x {
            } else {
                let k = choose|k: int| 0 <= k < pre.len() && (#[trigger] pre[k]).0 == old_b.0;
                assert(post[k] == pre[k]);
            }
            if min_y == y {
            } else {
                let k = choose|k: int| 0 <= k < pre.len() && (#[trigger] pre[k]).1 == old_b.1;
                assert(post[k] == pre[k]);
            }
            if max_x == x {
            } else {
                let k = choose|k: int| 0 <= k < pre.len() && (#[trigger] pre[k]).0 == old_b.2;
                assert(post[k] == pre[k]);
            }
            if max_y == y {
            } else {
                let k = choose|k: int| 0 <= k < pre.len() && (#[trigger] pre[k]).1 == old_b.3;
                assert(post[k] == pre[k]);
            }
        }
        i = i + 1;
    }
    proof {
        assert(points@.take(points@.len() as int) =~= points@);
    }
    Some((min_x, min_y, max_x, max_y))
}

/// Squared Euclidean distance between two points, as a mathematical integer.
pub open spec fn dist_sq_spec(a: (u32, u32), b: (u32, u32)) -> int {
    (a.0 - b.0) * (a.0 - b.0) + (a.1 - b.1) * (a.1 - b.1)
}

/// Coordinates are small enough for every distance computation of this crate.
pub open spec fn coord_ok(p: (u32, u32)) -> bool {
    p.0 < 0x8000_0000 && p.1 < 0x8000_0000
}

/// Squared Euclidean distance between two points.
pub fn point_distance_sq(a: (u32, u32), b: (u32, u32)) -> (d: u64)
    requires
        dist_sq_spec(a, b) <= u64::MAX,
    ensures
        d == dist_sq_spec(a, b),
{
    let dx: u64 = if a.0 >= b.0 {
        (a.0 - b.0) as u64
    } else {
        (b.0 - a.0) as u64
    };
    let dy: u64 = if a.1 >= b.1 {
        (a.1 - b.1) as u64
    } else {
        (b.1 - a.1) as u64
    };
    assert(dx * dx == (a.0 - b.0) * (a.0 - b.0)) by (nonlinear_arith)
        requires
            dx == a.0 - b.0 || dx == b.0 - a.0,
    ;
    assert(dy * dy == (a.1 - b.1) * (a.1 - b.1)) by (nonlinear_arith)
        requires
            dy == a.1 - b.1 || dy == b.1 - a.1,
    ;
    assert(0 <= dx * dx && 0 <= dy * dy) by (nonlinear_arith);
    dx * dx + dy * dy
}

/// Points with coordinates below 2^31 never overflow a squared distance.
pub proof fn lemma_dist_bounded(a: (u32, u32), b: (u32, u32))
    requires
        coord_ok(a),
        coord_ok(b),
    ensures
        0 <= dist_sq_spec(a, b) <= 0x8000_0000_0000_0000,
{
    let dx = a.0 - b.0;
    let dy = a.1 - b.1;
    assert(0 <= dx * dx <= 0x4000_0000_0000_0000) by (nonlinear_arith)
        requires
            -0x8000_0000 < dx < 0x8000_0000,
    ;
    assert(0 <= dy * dy <= 0x4000_0000_0000_0000) by (nonlinear_arith)
        requires
            -0x8000_0000 < dy < 0x8000_0000,
    ;
}

/// The dominant axis of a point set: horizontal unless the bounding box is
/// strictly taller than wide (an empty set counts as horizontal).
pub open spec fn dominant_axis_spec(points: Seq<(u32, u32)>) -> DominantAxis {
    if points.len() == 0 {
        DominantAxis::Horizontal
    } else {
        let b = choose|b: (u32, u32, u32, u32)| is_bounding_box(points, b);
        if b.2 - b.0 >= b.3 - b.1 {
            DominantAxis::Horizontal
        } else {
            DominantAxis::Vertical
        }
    }
}

proof fn lemma_bounding_box_unique(points: Seq<(u32, u32)>, b1: (u32, u32, u32, u32), b2: (u32, u32, u32, u32))
    requires
        is_bounding_box(points, b1),
        is_bounding_box(points, b2),
    ensures
        b1 == b2,
{
    let i = choose|i: int| 0 <= i < points.len() && (#[trigger] points[i]).0 == b1.0;
    let j = choose|i: int| 0 <= i < points.len() && (#[trigger] points[i]).0 == b2.0;
    assert(b1.0 == b2.0);
    let i = choose|i: int| 0 <= i < points.len() && (#[trigger] points[i]).1 == b1.1;
    let j = choose|i: int| 0 <= i < points.len() && (#[trigger] points[i]).1 == b2.1;
    assert(b1.1 == b2.1);
    let i = choose|i: int| 0 <= i < points.len() && (#[trigger] points[i]).0 == b1.2;
    let j = choose|i: int| 0 <= i < points.len() && (#[trigger] points[i]).0 == b2.2;
    assert(b1.2 == b2.2);
    let i = choose|i: int| 0 <= i < points.len() && (#[trigger] points[i]).1 == b1.3;
    let j = choose|i: int| 0 <= i < points.len() && (#[trigger] points[i]).1 == b2.3;
    assert(b1.3 == b2.3);
}

/// The axis along which the points' bounding box is longer (ties: horizontal).
pub fn dominant_axis(points: &[(u32, u32)]) -> (a: DominantAxis)
    ensures
        a == dominant_axis_spec(points@),
{
    match bounding_box(points) {
        None => DominantAxis::Horizontal,
        Some((min_x, min_y, max_x, max_y)) => {
            proof {
                let b = choose|b: (u32, u32, u32, u32)| is_bounding_box(points@, b);
                lemma_bounding_box_unique(points@, b, (min_x, min_y, max_x, max_y));
            }
            if max_x - min_x >= max_y - min_y {
                DominantAxis::Horizontal
            } else {
                DominantAxis::Vertical
            }
        }
    }
}

/// The sort key of a point along an axis: the coordinate along the axis
/// first, the other coordinate second.
pub open spec fn axis_key(p: (u32, u32), axis: DominantAxis) -> u64 {
    match axis {
        DominantAxis::Horizontal => pack_spec(p.0, p.1),
        DominantAxis::Vertical => pack_spec(p.1, p.0),
    }
}

/// Compares two points along an axis, breaking ties by the other coordinate.
pub fn compare_points_along_axis(a: (u32, u32), b: (u32, u32), axis: DominantAxis) -> (o:
    std::cmp::Ordering)
    ensures
        o == std::cmp::Ordering::Less <==> axis_key(a, axis) < axis_key(b, axis),
        o == std::cmp::Ordering::Equal <==> a == b,
        o == std::cmp::Ordering::Greater <==> axis_key(a, axis) > axis_key(b, axis),
{
    let (a1, a2, b1, b2) = match axis {
        DominantAxis::Horizontal => (a.0, a.1, b.0, b.1),
        DominantAxis::Vertical => (a.1, a.0, b.1, b.0),
    };
    if a1 < b1 || (a1 == b1 && a2 < b2) {
        std::cmp::Ordering::Less
    } else if a1 == b1 && a2 == b2 {
        std::cmp::Ordering::Equal
    } else {
        std::cmp::Ordering::Greater
    }
}

} // verus!
